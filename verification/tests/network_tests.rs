use feedforward::fixed::ONE;
use feedforward::network::NetError;
use feedforward::network::NeuralNetwork;
use feedforward::network::WINIT;
use rand::rngs::StdRng;
use rand::SeedableRng;

fn identity_matrix(n: usize) -> Vec<Vec<i64>> {
    let mut m: Vec<Vec<i64>> = Vec::new();
    for i in 0..n {
        let mut row: Vec<i64> = Vec::new();
        for j in 0..n {
            row.push(if i == j { ONE } else { 0 });
        }
        m.push(row);
    }
    m
}

fn zeros(n: usize) -> Vec<i64> {
    vec![0; n]
}

fn zero_matrix(rows: usize, cols: usize) -> Vec<Vec<i64>> {
    vec![vec![0; cols]; rows]
}

#[test]
fn relu_is_nonnegative_and_keeps_nonnegatives() {
    let v: Vec<i64> = vec![-5 * ONE, -1, 0, 1, 7 * ONE];
    let r = NeuralNetwork::relu(&v);
    assert_eq!(r, vec![0, 0, 0, 1, 7 * ONE]);
    for (i, &x) in r.iter().enumerate() {
        assert!(x >= 0);
        if v[i] >= 0 {
            assert_eq!(x, v[i]);
        }
    }
}

#[test]
fn relu_derivative_is_zero_one_mask() {
    let v: Vec<i64> = vec![-5 * ONE, 0, 1, 7 * ONE];
    let r = NeuralNetwork::relu_derivative(&v);
    assert_eq!(r, vec![0, 0, ONE, ONE]);
}

#[test]
fn construction_shapes_are_as_requested() {
    let mut rng = StdRng::seed_from_u64(1);
    let net = NeuralNetwork::new(4, 3, 2, &mut rng).unwrap();
    assert_eq!(net.input_size(), 4);
    assert_eq!(net.hidden_size(), 3);
    assert_eq!(net.output_size(), 2);
    assert_eq!(net.w1().len(), 4);
    for row in net.w1().iter() {
        assert_eq!(row.len(), 3);
    }
    assert_eq!(net.b1().len(), 3);
    assert_eq!(net.w2().len(), 3);
    for row in net.w2().iter() {
        assert_eq!(row.len(), 2);
    }
    assert_eq!(net.b2().len(), 2);
}

#[test]
fn construction_weights_bounded_and_biases_zero() {
    let mut rng = StdRng::seed_from_u64(2);
    let net = NeuralNetwork::new(6, 5, 4, &mut rng).unwrap();
    for row in net.w1().iter() {
        for &w in row.iter() {
            assert!(-WINIT <= w && w <= WINIT);
        }
    }
    for row in net.w2().iter() {
        for &w in row.iter() {
            assert!(-WINIT <= w && w <= WINIT);
        }
    }
    for &b in net.b1().iter() {
        assert_eq!(b, 0);
    }
    for &b in net.b2().iter() {
        assert_eq!(b, 0);
    }
}

#[test]
fn construction_rejects_zero_sizes() {
    let mut rng = StdRng::seed_from_u64(3);
    assert!(matches!(
        NeuralNetwork::new(0, 3, 2, &mut rng),
        Err(NetError::Construction)
    ));
    assert!(matches!(
        NeuralNetwork::new(4, 0, 2, &mut rng),
        Err(NetError::Construction)
    ));
    assert!(matches!(
        NeuralNetwork::new(4, 3, 0, &mut rng),
        Err(NetError::Construction)
    ));
}

#[test]
fn from_params_rejects_inconsistent_shapes() {
    // w1 row of length 2 against a hidden size of 3.
    let w1 = vec![vec![0; 2], vec![0; 2]];
    let b1 = zeros(3);
    let w2 = zero_matrix(3, 2);
    let b2 = zeros(2);
    assert!(matches!(
        NeuralNetwork::from_params(w1, b1, w2, b2),
        Err(NetError::Construction)
    ));
}

#[test]
fn predict_breaks_ties_toward_first_index() {
    // Zero weights give equal output activations: a tie, resolved to 0.
    let net = NeuralNetwork::from_params(
        zero_matrix(4, 3),
        zeros(3),
        zero_matrix(3, 2),
        zeros(2),
    )
    .unwrap();
    let x: Vec<i64> = vec![ONE, 0, 0, 0];
    let a2 = net.forward(&x);
    assert_eq!(a2, vec![ONE / 2, ONE / 2]);
    for _ in 0..3 {
        assert_eq!(net.predict(&x), 0);
    }
}

#[test]
fn predict_is_deterministic() {
    let mut rng = StdRng::seed_from_u64(11);
    let net = NeuralNetwork::new(4, 5, 3, &mut rng).unwrap();
    let x: Vec<i64> = vec![ONE, ONE / 2, 0, ONE / 4];
    let first = net.predict(&x);
    let second = net.predict(&x);
    assert_eq!(first, second);
    assert!(first < 3);
}

#[test]
fn output_delta_is_a2_minus_one_hot() {
    // Identity-like first layer, so the input flows through to the hidden
    // activations unchanged.
    let w2 = vec![vec![ONE, 0], vec![0, ONE], vec![ONE / 2, ONE / 2], vec![0, 0]];
    let net = NeuralNetwork::from_params(identity_matrix(4), zeros(4), w2, zeros(2)).unwrap();
    let x: Vec<i64> = vec![ONE, 0, 0, 0];
    let a2 = net.forward(&x);
    let dz2 = NeuralNetwork::output_delta(&a2, 0);
    assert_eq!(dz2.len(), 2);
    assert_eq!(dz2[0], a2[0] - ONE);
    assert_eq!(dz2[1], a2[1]);
}
