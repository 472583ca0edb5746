use backend::score::order_key;

fn key(x: f32) -> u32 {
    order_key(x.to_bits()).expect("a number has a key")
}

#[test]
fn order_key_follows_the_order_of_numbers() {
    let xs: Vec<f32> = vec![
        f32::NEG_INFINITY,
        -3.0e38,
        -1.0,
        -1.0e-45,
        0.0,
        1.0e-45,
        0.25,
        1.0,
        3.0e38,
        f32::INFINITY,
    ];
    for w in xs.windows(2) {
        assert!(key(w[0]) < key(w[1]), "{} vs {}", w[0], w[1]);
    }
}

#[test]
fn order_key_of_both_zeros_is_the_same() {
    assert_eq!(key(0.0), key(-0.0));
    assert_eq!(key(0.0), 0x8000_0000);
}

#[test]
fn order_key_exact_values() {
    assert_eq!(key(1.0), 0x8000_0000 + 0x3F80_0000);
    assert_eq!(key(-1.0), 0x7FFF_FFFF - 0x3F80_0000);
}

#[test]
fn order_key_refuses_nan() {
    assert_eq!(order_key(f32::NAN.to_bits()), None);
    assert_eq!(order_key(0x7FC0_0001), None);
    assert_eq!(order_key(0xFF80_0001), None);
    assert!(order_key(f32::INFINITY.to_bits()).is_some());
}
