use mpint::arith_utils::ArithUtil;

#[test]
fn ceil_log2_of_one_is_zero() {
    assert_eq!(1u32.ceil_log2(), 0);
    assert_eq!(1u64.ceil_log2(), 0);
    assert_eq!(1usize.ceil_log2(), 0);
}

#[test]
fn ceil_log2_of_powers_of_two() {
    assert_eq!(2u32.ceil_log2(), 1);
    assert_eq!(4u32.ceil_log2(), 2);
    assert_eq!(1024u32.ceil_log2(), 10);
    assert_eq!((1u64 << 40).ceil_log2(), 40);
    assert_eq!((1u64 << 63).ceil_log2(), 63);
    assert_eq!(64usize.ceil_log2(), 6);
}

#[test]
fn ceil_log2_rounds_up_between_powers() {
    assert_eq!(3u32.ceil_log2(), 2);
    assert_eq!(5u32.ceil_log2(), 3);
    assert_eq!(10u32.ceil_log2(), 4);
    assert_eq!(36u32.ceil_log2(), 6);
    assert_eq!(((1u64 << 40) + 1).ceil_log2(), 41);
    assert_eq!(1000usize.ceil_log2(), 10);
}

#[test]
fn ceil_log2_of_largest_values() {
    assert_eq!(u32::MAX.ceil_log2(), 32);
    assert_eq!(u64::MAX.ceil_log2(), 64);
    assert_eq!(usize::MAX.ceil_log2(), usize::BITS as usize);
}

#[test]
fn ceil_log2_is_least_exponent() {
    for x in 1u32..2000 {
        let k = x.ceil_log2();
        assert!((1u64 << k) >= x as u64);
        if k > 0 {
            assert!((1u64 << (k - 1)) < x as u64);
        }
    }
}

#[test]
fn divide_round_up_exact_quotients() {
    assert_eq!(0u32.divide_round_up(5), 0);
    assert_eq!(5u32.divide_round_up(5), 1);
    assert_eq!(64u64.divide_round_up(64), 1);
    assert_eq!(128usize.divide_round_up(64), 2);
}

#[test]
fn divide_round_up_rounds_up() {
    assert_eq!(1u32.divide_round_up(5), 1);
    assert_eq!(6u32.divide_round_up(5), 2);
    assert_eq!(65u64.divide_round_up(64), 2);
    assert_eq!(7usize.divide_round_up(2), 4);
}

#[test]
fn divide_round_up_does_not_overflow() {
    assert_eq!(u32::MAX.divide_round_up(1), u32::MAX);
    assert_eq!(u64::MAX.divide_round_up(u64::MAX), 1);
    assert_eq!(u64::MAX.divide_round_up(2), 1u64 << 63);
    assert_eq!(usize::MAX.divide_round_up(usize::MAX - 1), 2);
}

#[test]
fn constants_describe_the_types() {
    assert_eq!(<u32 as ArithUtil>::BITS, 32);
    assert_eq!(<u64 as ArithUtil>::BITS, 64);
    assert_eq!(<usize as ArithUtil>::BITS, usize::BITS as usize);
    assert_eq!(<u32 as ArithUtil>::MIN, 0);
    assert_eq!(<u64 as ArithUtil>::MIN, 0);
    assert_eq!(<u32 as ArithUtil>::MAX, u32::MAX);
    assert_eq!(<u64 as ArithUtil>::MAX, u64::MAX);
    assert_eq!(<usize as ArithUtil>::MAX, usize::MAX);
}
