use oxitortoise::mersenne_twister::{u32_in_from_draw, u64_in_from_draws, MersenneTwister};

#[test]
fn mersenne_twister_reference_outputs() {
    // the first outputs of MT19937 seeded with 5489
    let mut mt = MersenneTwister::new(5489);
    assert_eq!(mt.next_u32(), 3499211612);
    assert_eq!(mt.next_u32(), 581869302);
    assert_eq!(mt.next_u32(), 3890346734);
    assert_eq!(mt.next_u32(), 3586334585);
    assert_eq!(mt.next_u32(), 545404204);
}

#[test]
fn mersenne_twister_reseeding_restarts_the_sequence() {
    let mut a = MersenneTwister::new(42);
    let first: Vec<u32> = (0..700).map(|_| a.next_u32()).collect();
    a.set_seed(42);
    let again: Vec<u32> = (0..700).map(|_| a.next_u32()).collect();
    assert_eq!(first, again);
    let mut b = MersenneTwister::new(43);
    assert_ne!(first[0], b.next_u32());
}

#[test]
fn u32_draws() {
    // a power of two scales the draw
    assert_eq!(u32_in_from_draw(0xFFFF_FFFF, 4), Some(3));
    assert_eq!(u32_in_from_draw(0, 4), Some(0));
    // other bounds reduce it, and reject the biased region
    assert_eq!(u32_in_from_draw(20, 10), Some(0));
    assert_eq!(u32_in_from_draw(0xFFFF_FFFF, 10), None);
}

#[test]
fn u64_draws() {
    assert_eq!(u64_in_from_draws(0, 5, 7), Some(2));
    // the second draw is sign-extended before the two are joined
    assert_eq!(u64_in_from_draws(1, 0x8000_0000, 1000), Some(824));
}

#[test]
fn u32_draw_below_one_is_zero() {
    assert_eq!(u32_in_from_draw(0xffff_ffff, 1), Some(0));
    assert_eq!(u32_in_from_draw(12345, 1), Some(0));
}
