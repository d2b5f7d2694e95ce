use cworm::rng::{rng_next, seed_from_clock};

#[test]
fn sequence_from_one() {
    let mut s = 1;
    assert_eq!(rng_next(&mut s), 59561395757566);
    assert_eq!(s, 7806831264735756412);
    assert_eq!(rng_next(&mut s), 71692724060965);
    assert_eq!(rng_next(&mut s), 91248472657995);
    assert_eq!(s, 11960119808228829710);
}

#[test]
fn numbers_have_47_bits() {
    let mut s = 0xFFFF_FFFF_FFFF_FFFF;
    for _ in 0..1000 {
        assert!(rng_next(&mut s) < 1 << 47);
    }
}

#[test]
fn seed_is_the_low_half_of_the_clock() {
    assert_eq!(seed_from_clock(Some(12345)), 12345);
    assert_eq!(seed_from_clock(Some((7 << 64) + 9)), 9);
    assert_eq!(seed_from_clock(None), 0xDEAD_BEEF_1337_CAFE);
}
