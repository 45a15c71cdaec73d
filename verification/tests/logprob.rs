use tokenismo_core::logprob::{fixed_log_prob, FIXED_CAP};

#[test]
fn fixed_point_values() {
    assert_eq!(fixed_log_prob(0.0f32.to_bits()), 0);
    assert_eq!(fixed_log_prob(1.0f32.to_bits()), 1i64 << 32);
    assert_eq!(fixed_log_prob((-1.0f32).to_bits()), -(1i64 << 32));
    assert_eq!(fixed_log_prob((-1.5f32).to_bits()), -(3i64 << 31));
    assert_eq!(fixed_log_prob((-8.0f32).to_bits()), -(8i64 << 32));
    assert_eq!(fixed_log_prob(0.25f32.to_bits()), 1i64 << 30);
}

#[test]
fn fixed_point_truncates_and_saturates() {
    // 2^-40 is below the fixed-point resolution
    assert_eq!(fixed_log_prob((2.0f32).powi(-40).to_bits()), 0);
    assert_eq!(fixed_log_prob(f32::NEG_INFINITY.to_bits()), -(FIXED_CAP as i64));
    assert_eq!(fixed_log_prob(f32::INFINITY.to_bits()), FIXED_CAP as i64);
    assert_eq!(fixed_log_prob((-1e30f32).to_bits()), -(FIXED_CAP as i64));
    // order is kept
    assert!(fixed_log_prob((-1.25f32).to_bits()) < fixed_log_prob((-1.0f32).to_bits()));
}
