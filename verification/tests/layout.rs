use graph_core::layout::{SplitMix64, DEFAULT_ITERATIONS, DEFAULT_SEED};

#[test]
fn prng_is_stable() {
    let mut a = SplitMix64::new(20_260_917);
    let mut b = SplitMix64::new(20_260_917);
    for _ in 0..8 {
        assert_eq!(a.next_u64(), b.next_u64());
    }
}

#[test]
fn prng_known_values() {
    let mut r = SplitMix64::new(0);
    assert_eq!(r.next_u64(), 0xE220_A839_7B1D_CDAF);
    assert_eq!(r.next_u64(), 0x6E78_9E6A_A1B9_65F4);
    assert_eq!(r.next_u64(), 0x06C4_5D18_8009_454F);
}

#[test]
fn prng_top_bits() {
    let mut r = SplitMix64::new(DEFAULT_SEED);
    assert_eq!(r.next_u24(), 5_382_103);
    let mut s = SplitMix64::new(DEFAULT_SEED);
    assert_eq!(s.next_u64(), 5_917_685_194_815_231_660);
    assert_eq!(DEFAULT_ITERATIONS, 300);
}
