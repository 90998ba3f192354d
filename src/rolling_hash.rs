use vstd::arithmetic::div_mod::*;
use vstd::arithmetic::power::*;
use vstd::prelude::*;

use crate::consts::{BASE, PRIME};

verus! {

/// Polynomial value of the bytes `s` in base `b`, leftmost byte most
/// significant, before any reduction.
pub open spec fn poly(s: Seq<u8>, b: int) -> int
    decreases s.len(),
{
    if s.len() == 0 {
        0
    } else {
        poly(s.drop_last(), b) * b + s.last() as int
    }
}

/// Hash of a window of bytes: its polynomial value reduced modulo `p`.
pub open spec fn window_hash(s: Seq<u8>, b: int, p: int) -> int {
    poly(s, b) % p
}

/// The value of one slide step: the hash `h` of a window whose leftmost
/// byte `old` weighs `weight` loses that byte and gains `new` on the right.
pub open spec fn slide_value(h: int, old: int, weight: int, new: int, b: int, p: int) -> int {
    (h * b - old * weight + new) % p
}

/// `k` is a multiplicative inverse of `b` modulo `p`, taken from `[1, p)`.
pub open spec fn is_inverse(k: int, b: int, p: int) -> bool {
    1 <= k < p && (k * b) % p == 1
}

/// `k` is the smallest inverse of `b` modulo `p`.
pub open spec fn is_least_inverse(k: int, b: int, p: int) -> bool {
    is_inverse(k, b, p) && forall|j: int| 1 <= j < k ==> !is_inverse(j, b, p)
}

/// `b` has an inverse modulo `p` in `[1, p)`.
pub open spec fn has_inverse(b: int, p: int) -> bool {
    exists|k: int| is_least_inverse(k, b, p)
}

/// What `base_inverse` yields: the smallest inverse, or 1 where there is none.
pub open spec fn inverse_value(b: int, p: int) -> int {
    if has_inverse(b, p) {
        choose|k: int| is_least_inverse(k, b, p)
    } else {
        1
    }
}

proof fn lemma_least_inverse_unique(k: int, b: int, p: int)
    requires
        is_least_inverse(k, b, p),
    ensures
        inverse_value(b, p) == k,
{
    let c = choose|c: int| is_least_inverse(c, b, p);
    if c < k {
        assert(!is_inverse(c, b, p));
    } else if k < c {
        assert(!is_inverse(k, b, p));
    }
}

proof fn lemma_product_fits(a: u64, b: u64)
    ensures
        (a as int) * (b as int) <= (u64::MAX as int) * (u64::MAX as int),
{
    assert((a as int) * (b as int) <= (u64::MAX as int) * (u64::MAX as int)) by (nonlinear_arith)
        requires
            0 <= a as int <= u64::MAX as int,
            0 <= b as int <= u64::MAX as int,
    ;
}

/// Splits off the leftmost byte: it weighs `b` to the power of the
/// number of bytes after it.
proof fn lemma_poly_first(w: Seq<u8>, b: int)
    requires
        w.len() > 0,
    ensures
        poly(w, b) == w[0] as int * pow(b, (w.len() - 1) as nat) + poly(w.drop_first(), b),
    decreases w.len(),
{
    reveal(pow);
    let n = w.len();
    if n == 1 {
        assert(w.drop_last().len() == 0);
        assert(w.drop_first().len() == 0);
        assert(poly(w.drop_last(), b) == 0);
        assert(poly(w, b) == 0 * b + w[0] as int);
        assert(pow(b, 0) == 1);
    } else {
        let dl = w.drop_last();
        let tail = w.drop_first();
        lemma_poly_first(dl, b);
        assert(dl[0] == w[0]);
        assert(tail.drop_last() =~= dl.drop_first());
        assert(tail.last() == w.last());
        let e = (n - 2) as nat;
        let q = poly(dl.drop_first(), b);
        let l = w.last() as int;
        let w0 = w[0] as int;
        assert(poly(dl, b) == w0 * pow(b, e) + q);
        assert(poly(w, b) == poly(dl, b) * b + l);
        assert(poly(tail, b) == q * b + l);
        assert(pow(b, (e + 1) as nat) == b * pow(b, e));
        assert(((e + 1) as nat) == ((n - 1) as nat));
        assert((w0 * pow(b, e) + q) * b + l == w0 * (b * pow(b, e)) + (q * b + l))
            by (nonlinear_arith);
    }
}

/// Replacing `a` by a value congruent to it, and `c` likewise, keeps
/// the slide step's result.
proof fn lemma_slide_congruent(h: int, a: int, m: int, c: int, o: int, x: int, b: int, p: int)
    requires
        p > 0,
        h % p == a % p,
        m % p == c % p,
    ensures
        (h * b - o * m + x) % p == (a * b - o * c + x) % p,
{
    lemma_fundamental_div_mod(h, p);
    lemma_fundamental_div_mod(a, p);
    lemma_fundamental_div_mod(m, p);
    lemma_fundamental_div_mod(c, p);
    let dh = h / p - a / p;
    let dm = m / p - c / p;
    assert(h - a == p * dh) by (nonlinear_arith)
        requires
            h == p * (h / p) + h % p,
            a == p * (a / p) + a % p,
            h % p == a % p,
            dh == h / p - a / p,
    ;
    assert(m - c == p * dm) by (nonlinear_arith)
        requires
            m == p * (m / p) + m % p,
            c == p * (c / p) + c % p,
            m % p == c % p,
            dm == m / p - c / p,
    ;
    assert((h - a) * b == p * (dh * b)) by (nonlinear_arith)
        requires
            h - a == p * dh,
    ;
    assert(o * (m - c) == p * (o * dm)) by (nonlinear_arith)
        requires
            m - c == p * dm,
    ;
    assert(h * b == a * b + (h - a) * b) by (nonlinear_arith);
    assert(o * m == o * c + o * (m - c)) by (nonlinear_arith);
    let k = dh * b - o * dm;
    assert(p * (dh * b) - p * (o * dm) == p * k) by (nonlinear_arith)
        requires
            k == dh * b - o * dm,
    ;
    assert(h * b - o * m + x == p * k + (a * b - o * c + x));
    lemma_mod_multiples_vanish(k, a * b - o * c + x, p);
}

/// The hash that one slide step gives equals the hash of the new window
/// computed from scratch, for every non-empty window `w` and incoming byte.
pub proof fn lemma_slide_matches_scratch(w: Seq<u8>, new: u8, b: int, p: int)
    requires
        p > 0,
        w.len() > 0,
    ensures
        slide_value(window_hash(w, b, p), w[0] as int, pow(b, w.len()) % p, new as int, b, p)
            == window_hash(w.drop_first().push(new), b, p),
{
    reveal(pow);
    let n = w.len();
    let a = poly(w, b);
    let tail = w.drop_first();
    lemma_poly_first(w, b);
    assert(tail.push(new).drop_last() =~= tail);
    lemma_mod_twice(a, p);
    lemma_mod_twice(pow(b, n), p);
    lemma_slide_congruent(
        a % p,
        a,
        pow(b, n) % p,
        pow(b, n),
        w[0] as int,
        new as int,
        b,
        p,
    );
    assert(pow(b, n) == b * pow(b, (n - 1) as nat));
    assert(a * b - w[0] as int * pow(b, n) + new as int == poly(tail, b) * b + new as int)
        by (nonlinear_arith)
        requires
            a == w[0] as int * pow(b, (n - 1) as nat) + poly(tail, b),
            pow(b, n) == b * pow(b, (n - 1) as nat),
    ;
}

/// Accumulator of a polynomial hash over a window of bytes that can grow
/// on the right, shrink on the left, or slide by one byte.
pub struct RollingHash {
    pub base: u64,
    pub prime: u64,
    /// Weight of a byte that would leave the window: `base` to the power of
    /// the window's length, modulo `prime`.
    pub magic: u64,
    /// The inverse of `base` modulo `prime`, once it has been looked for.
    pub ibase: Option<u64>,
    pub hash: u64,
}

impl Default for RollingHash {
    fn default() -> (r: Self)
        ensures
            r.base == BASE,
            r.prime == PRIME,
            r.magic == 1,
            r.ibase is None,
            r.hash == 0,
            r.wf(),
    {
        RollingHash { base: BASE, prime: PRIME, magic: 1, ibase: None, hash: 0 }
    }
}

impl RollingHash {
    /// The fields stay within their ranges, and a memoised inverse is the
    /// one that `base_inverse` would compute.
    pub open spec fn wf(&self) -> bool {
        &&& self.prime > 0
        &&& self.hash < self.prime
        &&& (self.ibase matches Some(i) ==> i as int == inverse_value(
            self.base as int,
            self.prime as int,
        ))
    }

    /// The accumulator stands for the window `w`: its hash is that of `w`
    /// and its weight is congruent to `base` to the power of `w`'s length.
    pub open spec fn holds(&self, w: Seq<u8>) -> bool {
        &&& self.hash as int == window_hash(w, self.base as int, self.prime as int)
        &&& self.magic as int % self.prime as int == pow(self.base as int, w.len())
            % self.prime as int
    }

    /// The inverse of `base` modulo `prime`, looked for only on the first
    /// call and kept afterwards; 1 where there is none.
    pub fn base_inverse(&mut self) -> (r: u64)
        requires
            old(self).wf(),
        ensures
            r as int == inverse_value(old(self).base as int, old(self).prime as int),
            final(self).wf(),
            final(self).base == old(self).base,
            final(self).prime == old(self).prime,
            final(self).magic == old(self).magic,
            final(self).hash == old(self).hash,
            old(self).ibase is Some ==> final(self).ibase == old(self).ibase,
            old(self).ibase is None ==> final(self).ibase == (if has_inverse(
                old(self).base as int,
                old(self).prime as int,
            ) {
                Some(r)
            } else {
                None
            }),
    {
        if let Some(i) = self.ibase {
            return i;
        }
        let b = self.base;
        let p = self.prime;
        let mut k: u64 = 1;
        let mut found = false;
        while k < p && !found
            invariant
                p > 0,
                1 <= k,
                found ==> k < p && is_least_inverse(k as int, b as int, p as int),
                forall|j: int| 1 <= j < k ==> !is_inverse(j, b as int, p as int),
            decreases p - k + (if found {
                0int
            } else {
                1int
            }),
        {
            proof {
                lemma_product_fits(k, b);
            }
            if (k as u128 * b as u128) % (p as u128) == 1 {
                found = true;
            } else {
                k = k + 1;
            }
        }
        if found {
            proof {
                lemma_least_inverse_unique(k as int, b as int, p as int);
            }
            self.ibase = Some(k);
            k
        } else {
            proof {
                assert(!has_inverse(b as int, p as int));
            }
            1
        }
    }

    /// An empty accumulator over the given base and modulus.
    pub fn new(base: u64, prime: u64) -> (r: Self)
        requires
            prime > 0,
        ensures
            r.base == base,
            r.prime == prime,
            r.magic == 1,
            r.ibase is None,
            r.hash == 0,
            r.wf(),
            r.holds(Seq::empty()),
    {
        proof {
            reveal(pow);
        }
        RollingHash { base, prime, magic: 1, ibase: None, hash: 0 }
    }

    /// Extends the window on the right by the byte `new`.
    pub fn append(&mut self, new: u8)
        requires
            old(self).wf(),
        ensures
            final(self).wf(),
            final(self).hash as int == (old(self).hash as int * old(self).base as int + new as int)
                % old(self).prime as int,
            final(self).magic as int == (old(self).magic as int * old(self).base as int)
                % old(self).prime as int,
            final(self).base == old(self).base,
            final(self).prime == old(self).prime,
            final(self).ibase == old(self).ibase,
            forall|w: Seq<u8>| #[trigger] old(self).holds(w) ==> final(self).holds(w.push(new)),
    {
        proof {
            lemma_product_fits(self.hash, self.base);
            lemma_product_fits(self.magic, self.base);
        }
        let p = self.prime as u128;
        self.hash = ((self.hash as u128 * self.base as u128 + new as u128) % p) as u64;
        self.magic = ((self.magic as u128 * self.base as u128) % p) as u64;
        proof {
            let b = self.base as int;
            let pi = self.prime as int;
            assert forall|w: Seq<u8>| #[trigger] old(self).holds(w) implies self.holds(
                w.push(new),
            ) by {
                reveal(pow);
                assert(w.push(new).drop_last() =~= w);
                lemma_mod_twice(poly(w, b), pi);
                lemma_slide_congruent(
                    old(self).hash as int,
                    poly(w, b),
                    0,
                    0,
                    0,
                    new as int,
                    b,
                    pi,
                );
                lemma_mod_twice(poly(w, b), pi);
                lemma_mod_twice(old(self).magic as int * b, pi);
                lemma_mul_mod_noop_left(old(self).magic as int, b, pi);
                lemma_mul_mod_noop_left(pow(b, w.len()), b, pi);
                assert(pow(b, w.len() + 1) == b * pow(b, w.len()));
                assert(b * pow(b, w.len()) == pow(b, w.len()) * b) by (nonlinear_arith);
            }
        }
    }

    /// Shrinks the window on the left by its leftmost byte `leaving`, with the
    /// inverse of the base.
    pub fn remove(&mut self, leaving: u8)
        requires
            old(self).wf(),
        ensures
            final(self).wf(),
            final(self).magic as int == (old(self).magic as int * inverse_value(
                old(self).base as int,
                old(self).prime as int,
            )) % old(self).prime as int,
            final(self).hash as int == (old(self).hash as int - leaving as int * final(self).magic as int)
                % old(self).prime as int,
            final(self).base == old(self).base,
            final(self).prime == old(self).prime,
            forall|w: Seq<u8>|
                w.len() > 0 && w[0] == leaving && has_inverse(
                    old(self).base as int,
                    old(self).prime as int,
                ) && #[trigger] old(self).holds(w) ==> final(self).holds(w.drop_first()),
    {
        let inv = self.base_inverse();
        proof {
            lemma_product_fits(self.magic, inv);
        }
        let p = self.prime as u128;
        self.magic = ((self.magic as u128 * inv as u128) % p) as u64;
        proof {
            lemma_product_fits(leaving as u64, self.magic);
        }
        let sub = (leaving as u128 * self.magic as u128) % p;
        self.hash = ((self.hash as u128 + (p - sub)) % p) as u64;
        proof {
            let b = self.base as int;
            let pi = self.prime as int;
            let h0 = old(self).hash as int;
            let x = leaving as int * self.magic as int;
            lemma_mod_bound(x, pi);
            lemma_mod_add_multiples_vanish(h0 - x % pi, pi);
            lemma_sub_mod_noop_right(h0, x, pi);
            assert(self.hash as int == (h0 - x) % pi);
            assert forall|w: Seq<u8>|
                w.len() > 0 && w[0] == leaving && has_inverse(b, pi) && #[trigger] old(self).holds(
                    w,
                ) implies self.holds(w.drop_first()) by {
                reveal(pow);
                let n = w.len();
                let m0 = old(self).magic as int;
                let e = pow(b, (n - 1) as nat);
                let k = inverse_value(b, pi);
                let c = choose|c: int| is_least_inverse(c, b, pi);
                assert(k == c);
                lemma_poly_first(w, b);
                lemma_mod_twice(poly(w, b), pi);
                assert(pow(b, n) == b * e);
                // the new weight: m0 * k is congruent to b^n * k = e * (b * k), and b * k to 1
                lemma_mul_mod_noop_left(m0, k, pi);
                lemma_mul_mod_noop_left(pow(b, n), k, pi);
                assert(pow(b, n) * k == e * (k * b)) by (nonlinear_arith)
                    requires
                        pow(b, n) == b * e,
                ;
                lemma_mul_mod_noop_right(e, k * b, pi);
                lemma_mod_twice(m0 * k, pi);
                assert(self.magic as int % pi == e % pi);
                // the new hash
                lemma_slide_congruent(
                    h0,
                    poly(w, b),
                    self.magic as int,
                    e,
                    leaving as int,
                    0,
                    1,
                    pi,
                );
                assert(h0 * 1 - leaving as int * self.magic as int + 0 == h0 - x);
                assert(poly(w, b) * 1 - leaving as int * e + 0 == poly(w.drop_first(), b));
            }
        }
    }

    /// Moves the window one byte to the right: its leftmost byte `old`
    /// leaves and `new` comes in, in one step and without a division.
    pub fn slide(&mut self, leaving: u8, new: u8)
        requires
            old(self).wf(),
        ensures
            final(self).wf(),
            final(self).hash as int == slide_value(
                old(self).hash as int,
                leaving as int,
                old(self).magic as int,
                new as int,
                old(self).base as int,
                old(self).prime as int,
            ),
            final(self).base == old(self).base,
            final(self).prime == old(self).prime,
            final(self).magic == old(self).magic,
            final(self).ibase == old(self).ibase,
            forall|w: Seq<u8>|
                w.len() > 0 && w[0] == leaving && #[trigger] old(self).holds(w) ==> final(self).holds(
                    w.drop_first().push(new),
                ),
    {
        proof {
            lemma_product_fits(self.hash, self.base);
        }
        let p = self.prime as u128;
        proof {
            lemma_product_fits(leaving as u64, self.magic);
        }
        let sub = (leaving as u128 * self.magic as u128) % p;
        let grown = self.hash as u128 * self.base as u128 + new as u128;
        self.hash = ((grown + (p - sub)) % p) as u64;
        proof {
            let b = self.base as int;
            let pi = self.prime as int;
            let x = leaving as int * self.magic as int;
            lemma_mod_bound(x, pi);
            lemma_mod_add_multiples_vanish(grown as int - x % pi, pi);
            lemma_sub_mod_noop_right(grown as int, x, pi);
            assert(grown as int - x == old(self).hash as int * b - x + new as int);
            assert forall|w: Seq<u8>|
                w.len() > 0 && w[0] == leaving && #[trigger] old(self).holds(w) implies self.holds(
                    w.drop_first().push(new),
                ) by {
                lemma_slide_matches_scratch(w, new, b, pi);
                lemma_mod_twice(pow(b, w.len()), pi);
                lemma_mod_twice(poly(w, b), pi);
                lemma_slide_congruent(
                    old(self).hash as int,
                    poly(w, b) % pi,
                    self.magic as int,
                    pow(b, w.len()) % pi,
                    leaving as int,
                    new as int,
                    b,
                    pi,
                );
            }
        }
    }
}

/// Hash of `data` from scratch under the default base and modulus: one
/// `append` per byte, left to right, on an empty accumulator.
pub fn compute_hash(data: &[u8]) -> (r: u64)
    ensures
        r as int == window_hash(data@, BASE as int, PRIME as int),
{
    let mut rh = RollingHash::new(BASE, PRIME);
    let mut i: usize = 0;
    while i < data.len()
        invariant
            0 <= i <= data@.len(),
            rh.wf(),
            rh.base == BASE,
            rh.prime == PRIME,
            rh.holds(data@.subrange(0, i as int)),
        decreases data@.len() - i,
    {
        rh.append(data[i]);
        proof {
            assert(data@.subrange(0, i as int).push(data@[i as int]) =~= data@.subrange(
                0,
                i + 1,
            ));
        }
        i = i + 1;
    }
    proof {
        assert(data@.subrange(0, data@.len() as int) =~= data@);
    }
    rh.hash
}

} // verus!
