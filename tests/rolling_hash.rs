use golem::consts::{BASE, PRIME};
use golem::{compute_hash, RollingHash};

#[test]
fn test_rolling_hash_default() {
    let rh = RollingHash::default();

    let asserts = vec![
        (rh.base, BASE, "Default base should be equal to 256"),
        (rh.prime, PRIME, "Default prime should be equal to 1e9 + 7"),
        (rh.magic, 1, "magic should start in 1"),
        (rh.hash, 0, "hash should start in 0"),
    ];

    for pair in asserts {
        assert_eq!(pair.0, pair.1, "{}", pair.2)
    }
}

#[test]
fn test_rolling_hash_ibase() {
    let rh = RollingHash::default();
    assert!(rh.ibase.is_none(), "ibase should start as a None variant.")
}

#[test]
fn test_rolling_hash_append_empty_hash() {
    let new = 'A' as u8;
    let mut rh = RollingHash::default();

    rh.append(new);
    assert_eq!(65, rh.hash)
}

#[test]
fn test_rolling_hash_append_empty_magic() {
    let new = 'A' as u8;
    let mut rh = RollingHash::default();

    rh.append(new);
    assert_eq!(BASE, rh.magic)
}

#[test]
fn test_compute_hash_empty() {
    let empty_hash = compute_hash(b"");
    assert_eq!(0, empty_hash);
}

#[test]
fn test_compute_hash_bcd() {
    let bcd_hash = compute_hash(b"BCD");
    assert_eq!(4342596, bcd_hash);
}

#[test]
fn test_rolling_hash_slide() {
    let mut rh = RollingHash::default();

    for c in "ABC".as_bytes() {
        rh.append(*c);
    }
    rh.slide('A' as u8, 'D' as u8);

    assert_eq!(4342596, rh.hash);
}

#[test]
fn test_base_inverse() {
    let mut rh = RollingHash::new(2, 31);
    assert_eq!(16, rh.base_inverse())
}

#[test]
fn base_inverse_is_kept_after_first_call() {
    let mut rh = RollingHash::new(2, 31);
    assert_eq!(16, rh.base_inverse());
    assert_eq!(Some(16), rh.ibase);
    assert_eq!(16, rh.base_inverse());
}

#[test]
fn base_inverse_defaults_to_one_without_inverse() {
    let mut rh = RollingHash::new(4, 8);
    assert_eq!(1, rh.base_inverse());
    assert_eq!(None, rh.ibase);
}

#[test]
fn base_inverse_under_default_constants() {
    let mut rh = RollingHash::new(256, 7);
    // 256 = 4 (mod 7) and 4 * 2 = 8 = 1 (mod 7)
    assert_eq!(2, rh.base_inverse());
}

#[test]
fn append_reduces_modulo_prime() {
    let mut rh = RollingHash::new(10, 7);
    rh.append(9);
    assert_eq!(2, rh.hash);
    assert_eq!(3, rh.magic);
    rh.append(4);
    // (2 * 10 + 4) mod 7 = 3
    assert_eq!(3, rh.hash);
    assert_eq!(2, rh.magic);
}

#[test]
fn compute_hash_of_two_bytes() {
    assert_eq!(65 * 256 + 66, compute_hash(b"AB"));
}

#[test]
fn slide_matches_hash_from_scratch_on_every_window() {
    let text = b"the quick brown fox";
    let k = 4;
    let mut rh = RollingHash::default();
    for b in &text[..k] {
        rh.append(*b);
    }
    assert_eq!(compute_hash(&text[..k]), rh.hash);
    for i in 1..=(text.len() - k) {
        rh.slide(text[i - 1], text[i - 1 + k]);
        assert_eq!(compute_hash(&text[i..i + k]), rh.hash);
    }
}

#[test]
fn slide_does_not_underflow_when_leaving_byte_weighs_more() {
    let mut rh = RollingHash::new(256, 101);
    rh.append(0);
    rh.append(255);
    rh.slide(0, 255);
    // window "\xff\xff": (255 * 256 + 255) mod 101
    assert_eq!((255 * 256 + 255) % 101, rh.hash);
    let mut rh2 = RollingHash::new(256, 101);
    rh2.append(255);
    rh2.append(0);
    rh2.slide(255, 0);
    assert_eq!(0, rh2.hash);
}

#[test]
fn remove_drops_the_leftmost_byte() {
    let mut rh = RollingHash::new(2, 31);
    for b in [3u8, 5, 7] {
        rh.append(b);
    }
    rh.remove(3);
    let mut expected = RollingHash::new(2, 31);
    expected.append(5);
    expected.append(7);
    assert_eq!(expected.hash, rh.hash);
    assert_eq!(expected.magic, rh.magic);
}
