use feedforward::fixed::ONE;
use feedforward::network::NetError;
use feedforward::network::NeuralNetwork;
use feedforward::transcend::DEGEN_LOSS;
use rand::rngs::StdRng;
use rand::SeedableRng;

const LR: i64 = ONE / 10;

/// Twenty linearly separable 2-D points: class 0 in the lower-left corner,
/// class 1 in the upper-right corner, coordinates in [0, 1].
fn separable_dataset() -> (Vec<Vec<i64>>, Vec<u8>) {
    let mut features: Vec<Vec<i64>> = Vec::new();
    let mut labels: Vec<u8> = Vec::new();
    for i in 0..10i64 {
        features.push(vec![ONE / 10 + i * ONE / 100, ONE / 5 + i * ONE / 200]);
        labels.push(0);
        features.push(vec![4 * ONE / 5 + i * ONE / 100, 7 * ONE / 10 + i * ONE / 200]);
        labels.push(1);
    }
    (features, labels)
}

#[test]
fn training_overfits_a_separable_dataset() {
    let (features, labels) = separable_dataset();
    let mut rng = StdRng::seed_from_u64(7);
    let mut net = NeuralNetwork::new(2, 8, 2, &mut rng).unwrap();
    let reports = net.train(&features, &labels, 200, LR).unwrap();
    assert_eq!(reports.len(), 200);
    let acc = net.test(&features, &labels).unwrap();
    assert_eq!(acc, ONE);
}

#[test]
fn epoch_loss_decreases_for_most_seeds() {
    let (features, labels) = separable_dataset();
    let mut decreased = 0;
    for seed in 0..10u64 {
        let mut rng = StdRng::seed_from_u64(seed);
        let mut net = NeuralNetwork::new(2, 8, 2, &mut rng).unwrap();
        let reports = net.train(&features, &labels, 50, LR).unwrap();
        if reports[49].avg_loss < reports[0].avg_loss {
            decreased += 1;
        }
    }
    assert!(decreased >= 9, "loss decreased for only {} of 10 seeds", decreased);
}

#[test]
fn train_reports_loss_and_no_degeneracy_on_sane_data() {
    let (features, labels) = separable_dataset();
    let mut rng = StdRng::seed_from_u64(5);
    let mut net = NeuralNetwork::new(2, 4, 2, &mut rng).unwrap();
    let reports = net.train(&features, &labels, 3, LR).unwrap();
    assert_eq!(reports.len(), 3);
    for r in reports.iter() {
        assert!(r.avg_loss >= 0);
        assert!(r.avg_loss < DEGEN_LOSS);
        assert_eq!(r.degenerate, 0);
    }
}

#[test]
fn train_rejects_mismatched_lengths() {
    let mut rng = StdRng::seed_from_u64(4);
    let mut net = NeuralNetwork::new(2, 3, 2, &mut rng).unwrap();
    let features = vec![vec![0, 0], vec![0, 0]];
    let labels: Vec<u8> = vec![0];
    assert_eq!(
        net.train(&features, &labels, 1, LR).unwrap_err(),
        NetError::ShapeMismatch { index: 1 }
    );
}

#[test]
fn train_rejects_wrong_feature_length_at_first_use() {
    let mut rng = StdRng::seed_from_u64(4);
    let mut net = NeuralNetwork::new(2, 3, 2, &mut rng).unwrap();
    let features = vec![vec![0, 0], vec![0, 0, 0], vec![0, 0]];
    let labels: Vec<u8> = vec![0, 1, 0];
    assert_eq!(
        net.train(&features, &labels, 2, LR).unwrap_err(),
        NetError::ShapeMismatch { index: 1 }
    );
}

#[test]
fn train_rejects_out_of_range_label() {
    let mut rng = StdRng::seed_from_u64(4);
    let mut net = NeuralNetwork::new(2, 3, 2, &mut rng).unwrap();
    let features = vec![vec![0, 0], vec![ONE, ONE]];
    let labels: Vec<u8> = vec![0, 2];
    assert_eq!(
        net.train(&features, &labels, 1, LR).unwrap_err(),
        NetError::ShapeMismatch { index: 1 }
    );
}

#[test]
fn train_with_zero_epochs_changes_nothing() {
    let mut rng = StdRng::seed_from_u64(9);
    let mut net = NeuralNetwork::new(2, 3, 2, &mut rng).unwrap();
    let w1_before = net.w1().clone();
    let features = vec![vec![ONE, 0]];
    let labels: Vec<u8> = vec![0];
    let reports = net.train(&features, &labels, 0, LR).unwrap();
    assert_eq!(reports.len(), 0);
    assert_eq!(net.w1(), &w1_before);
}

#[test]
fn degenerate_sample_is_counted_and_capped() {
    // A saturated second layer drives the wrong class's probability to
    // exactly zero; its cross-entropy is undefined and reported.
    let net0 = NeuralNetwork::from_params(
        vec![vec![ONE]],
        vec![0],
        vec![vec![20 * ONE, -20 * ONE]],
        vec![0, 0],
    )
    .unwrap();
    let features = vec![vec![ONE]];
    let a2 = net0.forward(&features[0]);
    assert_eq!(a2[1], 0);

    let mut net = NeuralNetwork::from_params(
        vec![vec![ONE]],
        vec![0],
        vec![vec![20 * ONE, -20 * ONE]],
        vec![0, 0],
    )
    .unwrap();
    let labels: Vec<u8> = vec![1];
    let reports = net.train(&features, &labels, 1, LR).unwrap();
    assert_eq!(reports[0].degenerate, 1);
    assert_eq!(reports[0].avg_loss, DEGEN_LOSS);
}

#[test]
fn confident_correct_sample_has_zero_loss() {
    let mut net = NeuralNetwork::from_params(
        vec![vec![ONE]],
        vec![0],
        vec![vec![20 * ONE, -20 * ONE]],
        vec![0, 0],
    )
    .unwrap();
    let features = vec![vec![ONE]];
    let labels: Vec<u8> = vec![0];
    let reports = net.train(&features, &labels, 1, LR).unwrap();
    assert_eq!(reports[0].degenerate, 0);
    assert_eq!(reports[0].avg_loss, 0);
}

#[test]
fn test_rejects_empty_dataset() {
    let mut rng = StdRng::seed_from_u64(6);
    let net = NeuralNetwork::new(2, 3, 2, &mut rng).unwrap();
    let features: Vec<Vec<i64>> = Vec::new();
    let labels: Vec<u8> = Vec::new();
    assert_eq!(
        net.test(&features, &labels).unwrap_err(),
        NetError::NumericDegeneracy
    );
}

#[test]
fn test_accuracy_is_a_fraction_of_samples() {
    // Saturated network always predicts class 0, so accuracy is the share
    // of zero labels: 3 of 4.
    let net = NeuralNetwork::from_params(
        vec![vec![ONE]],
        vec![0],
        vec![vec![20 * ONE, -20 * ONE]],
        vec![0, 0],
    )
    .unwrap();
    let features = vec![vec![ONE], vec![ONE], vec![ONE], vec![ONE]];
    let labels: Vec<u8> = vec![0, 0, 0, 1];
    let acc = net.test(&features, &labels).unwrap();
    assert_eq!(acc, 3 * ONE / 4);
}
