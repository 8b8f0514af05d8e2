use n_body::order_key::{is_nan, order_key};

fn key(f: f32) -> u32 {
    order_key(f.to_bits())
}

#[test]
fn order_key_exact_values() {
    assert_eq!(key(0.0), 0x8000_0000);
    assert_eq!(key(1.0), 0xbf80_0000);
    assert_eq!(key(-1.0), 0x4080_0000);
    assert_eq!(key(f32::INFINITY), 0xff80_0000);
    assert_eq!(key(f32::NEG_INFINITY), 0x0080_0000);
}

#[test]
fn order_key_zeros_share_a_key() {
    assert_eq!(key(-0.0), key(0.0));
}

#[test]
fn order_key_follows_float_order() {
    let values: Vec<f32> = vec![
        f32::NEG_INFINITY,
        f32::MIN,
        -6000.0,
        -1.5,
        -1.0,
        -f32::MIN_POSITIVE,
        -1.0e-45,
        -0.0,
        0.0,
        1.0e-45,
        f32::MIN_POSITIVE,
        0.5,
        1.0,
        3000.0,
        f32::MAX,
        f32::INFINITY,
    ];
    for a in &values {
        for b in &values {
            let by_value = a.partial_cmp(b).unwrap();
            let by_key = key(*a).cmp(&key(*b));
            assert_eq!(by_value, by_key, "{} vs {}", a, b);
        }
    }
}

#[test]
fn order_key_same_key_only_for_same_value() {
    assert_ne!(key(1.0), key(1.0000001));
    assert_ne!(key(-2.0), key(2.0));
    assert_eq!(key(2.5), key(2.5));
}

#[test]
fn is_nan_detects_nan_only() {
    assert!(is_nan(f32::NAN.to_bits()));
    assert!(is_nan((-f32::NAN).to_bits()));
    assert!(is_nan(0x7f80_0001));
    assert!(is_nan(0xffff_ffff));
    assert!(!is_nan(f32::INFINITY.to_bits()));
    assert!(!is_nan(f32::NEG_INFINITY.to_bits()));
    assert!(!is_nan(0.0f32.to_bits()));
    assert!(!is_nan(f32::MAX.to_bits()));
}
