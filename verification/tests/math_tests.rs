use feedforward::fixed::fadd;
use feedforward::fixed::fmul;
use feedforward::fixed::fsub;
use feedforward::fixed::ONE;
use feedforward::fixed::VMAX;
use feedforward::network::NeuralNetwork;
use feedforward::transcend::exp_fixed;
use feedforward::transcend::neg_ln_fixed;
use feedforward::transcend::LN2F;

#[test]
fn fixed_mul_scales_by_one() {
    assert_eq!(fmul(ONE, ONE), ONE);
    assert_eq!(fmul(2 * ONE, 3 * ONE), 6 * ONE);
    assert_eq!(fmul(-2 * ONE, 3 * ONE), -6 * ONE);
    assert_eq!(fmul(ONE / 2, ONE / 2), ONE / 4);
    assert_eq!(fmul(0, VMAX), 0);
}

#[test]
fn fixed_add_saturates() {
    assert_eq!(fadd(ONE, ONE), 2 * ONE);
    assert_eq!(fadd(VMAX, VMAX), VMAX);
    assert_eq!(fsub(-VMAX, VMAX), -VMAX);
    assert_eq!(fmul(VMAX, VMAX), VMAX);
}

#[test]
fn exp_of_zero_is_one() {
    assert_eq!(exp_fixed(0), ONE);
}

#[test]
fn exp_of_minus_one_matches_reference() {
    // exp(-1) = 0.3678794..., times ONE is about 385749.
    let r = exp_fixed(-ONE);
    assert!(r >= 385700, "exp(-1) too small: {}", r);
    assert!(r <= 385800, "exp(-1) too large: {}", r);
}

#[test]
fn exp_of_large_negative_is_zero() {
    assert_eq!(exp_fixed(-16 * ONE), 0);
    assert_eq!(exp_fixed(-100 * ONE), 0);
}

#[test]
fn neg_ln_of_one_is_zero() {
    assert_eq!(neg_ln_fixed(ONE), 0);
}

#[test]
fn neg_ln_of_powers_of_two_is_exact() {
    // -ln(1/2) = ln 2 and -ln(1/4) = 2 ln 2, exact in this representation.
    assert_eq!(neg_ln_fixed(ONE / 2), LN2F);
    assert_eq!(neg_ln_fixed(ONE / 4), 2 * LN2F);
}

#[test]
fn softmax_of_equal_entries_is_uniform() {
    let v: Vec<i64> = vec![0, 0];
    let r = NeuralNetwork::softmax(&v);
    assert_eq!(r, vec![ONE / 2, ONE / 2]);
    let v4: Vec<i64> = vec![3 * ONE, 3 * ONE, 3 * ONE, 3 * ONE];
    let r4 = NeuralNetwork::softmax(&v4);
    assert_eq!(r4, vec![ONE / 4, ONE / 4, ONE / 4, ONE / 4]);
}

#[test]
fn softmax_entries_nonnegative_and_sum_near_one() {
    let v: Vec<i64> = vec![3 * ONE, ONE, -2 * ONE, 0, ONE / 3];
    let r = NeuralNetwork::softmax(&v);
    let mut sum: i64 = 0;
    for &x in r.iter() {
        assert!(x >= 0);
        assert!(x <= ONE);
        sum += x;
    }
    // Within one truncation unit per entry, far inside the 1e-4 tolerance.
    assert!(sum <= ONE);
    assert!(sum > ONE - v.len() as i64);
}

#[test]
fn softmax_ratio_matches_reference() {
    // softmax([0, -1]) = [1/(1+e^-1), e^-1/(1+e^-1)] = [0.7310.., 0.2689..].
    let v: Vec<i64> = vec![0, -ONE];
    let r = NeuralNetwork::softmax(&v);
    let lo0 = (0.7305 * ONE as f64) as i64;
    let hi0 = (0.7315 * ONE as f64) as i64;
    assert!(r[0] >= lo0 && r[0] <= hi0, "first entry off: {}", r[0]);
    let lo1 = (0.2685 * ONE as f64) as i64;
    let hi1 = (0.2695 * ONE as f64) as i64;
    assert!(r[1] >= lo1 && r[1] <= hi1, "second entry off: {}", r[1]);
}

#[test]
fn softmax_is_shift_invariant() {
    let v: Vec<i64> = vec![ONE, 2 * ONE, -ONE];
    let mut w: Vec<i64> = Vec::new();
    for &x in v.iter() {
        w.push(x + 5 * ONE);
    }
    assert_eq!(NeuralNetwork::softmax(&v), NeuralNetwork::softmax(&w));
}
