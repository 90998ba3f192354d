use vstd::prelude::*;
use vstd::utf8::encode_utf8;

use crate::consts::{BASE, PRIME};
use crate::error::GolemError;
use crate::rolling_hash::{window_hash, RollingHash};

verus! {

/// The fingerprint of every window of `k` bytes of `s`, left to right:
/// the hash of each window under the default base and modulus.
pub open spec fn fingerprints(s: Seq<u8>, k: nat) -> Seq<u64> {
    Seq::new(
        (s.len() - k + 1) as nat,
        |i: int| window_hash(s.subrange(i, i + k), BASE as int, PRIME as int) as u64,
    )
}

/// A text of `L` bytes with `0 < k <= L` has `L - k + 1` windows of `k`
/// bytes, one fingerprint each; a text of exactly `k` bytes has one.
pub proof fn lemma_fingerprint_count(s: Seq<u8>, k: nat)
    requires
        0 < k <= s.len(),
    ensures
        fingerprints(s, k).len() == s.len() - k + 1,
        s.len() == k ==> fingerprints(s, k).len() == 1,
{
}

/// Fingerprinting depends on the text and the k-gram length alone: two
/// well-formed values over the same text and length have the same
/// fingerprints, which is what `get_hashes` returns for each.
pub proof fn lemma_fingerprints_deterministic(a: HashStats, b: HashStats)
    requires
        a.wf(),
        b.wf(),
        a.body@ == b.body@,
        a.k_gram_value == b.k_gram_value,
    ensures
        a.spec_fingerprints() == b.spec_fingerprints(),
{
}

/// The fingerprints of one text for one k-gram length, computed once on
/// demand and kept.
pub struct HashStats {
    pub body: String,
    pub k_gram_value: usize,
    pub num_hashes: usize,
    pub hashes: Vec<u64>,
}

impl HashStats {
    /// The bytes of the text, as UTF-8.
    pub open spec fn bytes(&self) -> Seq<u8> {
        encode_utf8(self.body@)
    }

    /// The full fingerprint sequence of the text.
    pub open spec fn spec_fingerprints(&self) -> Seq<u64> {
        fingerprints(self.bytes(), self.k_gram_value as nat)
    }

    /// The k-gram length fits the text, the window count matches, and the
    /// kept hashes are either not computed yet or all of them.
    pub open spec fn wf(&self) -> bool {
        &&& self.k_gram_value > 0
        &&& self.bytes().len() >= self.k_gram_value
        &&& self.num_hashes == self.bytes().len() - self.k_gram_value + 1
        &&& (self.hashes@.len() == 0 || self.hashes@ == self.spec_fingerprints())
    }

    /// Prepares the fingerprinting of `body` with windows of `k_gram_value`
    /// bytes; no hash is computed yet.
    pub fn new(body: &str, k_gram_value: usize) -> (r: Result<HashStats, GolemError>)
        ensures
            k_gram_value == 0 || encode_utf8(body@).len() < k_gram_value <==> r is Err,
            r is Err ==> r == Err::<HashStats, GolemError>(GolemError::InvalidKGram),
            r matches Ok(s) ==> {
                &&& s.wf()
                &&& s.body@ == body@
                &&& s.k_gram_value == k_gram_value
                &&& s.num_hashes == encode_utf8(body@).len() - k_gram_value + 1
                &&& s.hashes@.len() == 0
            },
    {
        let len = body.as_bytes().len();
        if k_gram_value == 0 || len < k_gram_value {
            return Err(GolemError::InvalidKGram);
        }
        let num_hashes = len - k_gram_value + 1;
        Ok(HashStats {
            body: body.to_owned(),
            k_gram_value,
            num_hashes,
            hashes: Vec::with_capacity(num_hashes),
        })
    }

    /// The fingerprint of every window of the text, left to right; computed
    /// on the first call and kept for the later ones.
    pub fn get_hashes(&mut self) -> (r: Vec<u64>)
        requires
            old(self).wf(),
        ensures
            r@ == old(self).spec_fingerprints(),
            r@.len() == old(self).num_hashes,
            final(self).wf(),
            final(self).hashes@ == r@,
            final(self).body == old(self).body,
            final(self).k_gram_value == old(self).k_gram_value,
            final(self).num_hashes == old(self).num_hashes,
    {
        if self.hashes.len() == 0 {
            let bytes = self.body.as_str().as_bytes();
            let k = self.k_gram_value;
            let num = self.num_hashes;
            let ghost s = bytes@;
            let ghost fp = fingerprints(s, k as nat);
            let mut rh = RollingHash::new(BASE, PRIME);
            let mut i: usize = 0;
            while i < k
                invariant
                    bytes@ == s,
                    s == self.bytes(),
                    fp == self.spec_fingerprints(),
                    self.body == old(self).body,
                    self.k_gram_value == old(self).k_gram_value,
                    self.num_hashes == old(self).num_hashes,
                    self.hashes@.len() == 0,
                    k == self.k_gram_value,
                    num == self.num_hashes,
                    k <= s.len(),
                    0 <= i <= k,
                    rh.wf(),
                    rh.base == BASE,
                    rh.prime == PRIME,
                    rh.holds(s.subrange(0, i as int)),
                decreases k - i,
            {
                rh.append(bytes[i]);
                proof {
                    assert(s.subrange(0, i as int).push(s[i as int]) =~= s.subrange(0, i + 1));
                }
                i = i + 1;
            }
            self.hashes.push(rh.hash);
            proof {
                assert(s.subrange(0, k as int) =~= s.subrange(0, 0 + k));
            }
            let mut j: usize = 1;
            while j < num
                invariant
                    bytes@ == s,
                    s == self.bytes(),
                    fp == self.spec_fingerprints(),
                    self.body == old(self).body,
                    self.k_gram_value == old(self).k_gram_value,
                    self.num_hashes == old(self).num_hashes,
                    k == self.k_gram_value,
                    k > 0,
                    num == s.len() - k + 1,
                    1 <= j <= num,
                    rh.wf(),
                    rh.base == BASE,
                    rh.prime == PRIME,
                    rh.holds(s.subrange(j - 1, j - 1 + k)),
                    self.hashes@ =~= fp.subrange(0, j as int),
                decreases num - j,
            {
                let ghost w = s.subrange(j - 1, j - 1 + k);
                rh.slide(bytes[j - 1], bytes[j - 1 + k]);
                proof {
                    assert(w.drop_first().push(s[j - 1 + k]) =~= s.subrange(j as int, j + k));
                }
                self.hashes.push(rh.hash);
                j = j + 1;
            }
        }
        let r = self.hashes.clone();
        proof {
            assert(r@ =~= self.hashes@);
        }
        r
    }
}

} // verus!
