use nnet::NetError;
use nnet::fixed::{HALF, SCALE};
use nnet::layer::Layer;
use nnet::matrix::Matrix;
use nnet::network::{LEARNING_RATE, Network, StopReason};
use nnet::vector::Vector;

fn single_layer(w: Vec<i64>, rows: usize, cols: usize, b: Vec<i64>) -> Network {
    let weights = Matrix::from_flat(rows, cols, w).unwrap();
    let biases = Vector::from_vec(b);
    let layer = Layer::new(weights, biases).unwrap();
    Network::new(vec![layer])
}

#[test]
fn vector_add_subtract_roundtrip() {
    let a = Vector::from_vec(vec![SCALE, -HALF, 3 * SCALE, 7]);
    let b = Vector::from_vec(vec![2 * SCALE, HALF, -SCALE, -7]);
    let sum = a.add(&b).unwrap();
    let back = sum.subtract(&b).unwrap();
    for i in 0..4 {
        assert_eq!(back.get_element(i).unwrap(), a.get_element(i).unwrap());
    }
}

#[test]
fn vector_add_shape_mismatch() {
    let a = Vector::from_vec(vec![1, 2, 3]);
    let b = Vector::from_vec(vec![1, 2]);
    assert_eq!(a.add(&b).unwrap_err(), NetError::ShapeMismatch);
    assert_eq!(a.subtract(&b).unwrap_err(), NetError::ShapeMismatch);
    assert_eq!(a.elementwise_multiply(&b).unwrap_err(), NetError::ShapeMismatch);
}

#[test]
fn vector_index_out_of_range() {
    let mut a = Vector::from_vec(vec![1, 2, 3]);
    assert_eq!(a.get_element(3).unwrap_err(), NetError::IndexOutOfRange);
    assert_eq!(a.set_element(9, 5).unwrap_err(), NetError::IndexOutOfRange);
    a.set_element(1, 42).unwrap();
    assert_eq!(a.get_element(1).unwrap(), 42);
}

#[test]
fn zeros_magnitude_is_zero() {
    for n in [0usize, 1, 5, 64] {
        assert_eq!(Vector::zeros(n).magnitude(), 0);
    }
}

#[test]
fn ones_and_magnitude() {
    let v = Vector::ones(3);
    // Three ones: each square is SCALE, summed exactly.
    assert_eq!(v.magnitude(), 3 * SCALE);
}

#[test]
fn elementwise_multiply_scales() {
    let a = Vector::from_vec(vec![2 * SCALE, HALF]);
    let b = Vector::from_vec(vec![3 * SCALE, HALF]);
    let p = a.elementwise_multiply(&b).unwrap();
    assert_eq!(p.get_element(0).unwrap(), 6 * SCALE);
    assert_eq!(p.get_element(1).unwrap(), SCALE / 4);
}

#[test]
fn matrix_add_preserves_dimensions() {
    let a = Matrix::from_flat(2, 3, vec![1, 2, 3, 4, 5, 6]).unwrap();
    let b = Matrix::from_flat(2, 3, vec![10, 20, 30, 40, 50, 60]).unwrap();
    let s = a.add(&b).unwrap();
    assert_eq!(s.row_count(), 2);
    assert_eq!(s.col_count(), 3);
    assert_eq!(s.get_element(1, 2).unwrap(), 66);
    let c = Matrix::from_flat(3, 2, vec![0; 6]).unwrap();
    assert_eq!(a.add(&c).unwrap_err(), NetError::ShapeMismatch);
}

#[test]
fn matrix_scalar_multiply_by_one_is_identity() {
    let a = Matrix::from_flat(2, 2, vec![5, -7 * SCALE, HALF, 0]).unwrap();
    let m = a.scalar_multiply(SCALE);
    for r in 0..2 {
        for c in 0..2 {
            assert_eq!(m.get_element(r, c).unwrap(), a.get_element(r, c).unwrap());
        }
    }
}

#[test]
fn matrix_index_out_of_range() {
    let mut a = Matrix::zeros(2, 2);
    assert_eq!(a.get_element(2, 0).unwrap_err(), NetError::IndexOutOfRange);
    assert_eq!(a.set_element(0, 2, 1).unwrap_err(), NetError::IndexOutOfRange);
    a.set_element(1, 1, 9).unwrap();
    assert_eq!(a.get_element(1, 1).unwrap(), 9);
}

#[test]
fn layer_forward_zero_input_gives_activation_at_zero() {
    // Any weights, zero bias, zero input: every output is the
    // activation's value at zero, one half.
    let net = single_layer(vec![3 * SCALE, -2 * SCALE, 777, -555, SCALE / 3, 12345], 3, 2, vec![
        0, 0, 0,
    ]);
    let out = net.forward(Vector::zeros(2)).unwrap();
    assert_eq!(out.len(), 3);
    for j in 0..3 {
        assert_eq!(out.get_element(j).unwrap(), HALF);
    }
}

#[test]
fn forward_shape_mismatch() {
    let net = single_layer(vec![0, 0], 1, 2, vec![0]);
    assert_eq!(net.forward(Vector::zeros(3)).unwrap_err(), NetError::ShapeMismatch);
}

#[test]
fn accuracy_counts_close_components() {
    // Zero weights and biases give outputs of one half everywhere.
    let net = single_layer(vec![0, 0, 0, 0], 2, 2, vec![0, 0]);
    // First target matches (error 0 < 1/2), second is far (error 3/2).
    let acc = net
        .accuracy(Vector::zeros(2), Vector::from_vec(vec![HALF, 2 * SCALE]))
        .unwrap();
    assert_eq!(acc, HALF);
}

#[test]
fn loss_is_squared_error() {
    let net = single_layer(vec![0, 0], 1, 2, vec![0]);
    // Output is one half, target zero: loss = (1/2)^2 = 1/4.
    let l = net.loss(Vector::zeros(2), Vector::from_vec(vec![0])).unwrap();
    assert_eq!(l, SCALE / 4);
}

#[test]
fn evaluate_batch_identical_pairs() {
    let net = single_layer(vec![SCALE / 2, -SCALE / 4], 1, 2, vec![SCALE / 8]);
    let x = Vector::from_vec(vec![HALF, SCALE / 4]);
    let t = Vector::from_vec(vec![SCALE / 3]);
    let single_loss = net.loss(x.clone(), t.clone()).unwrap();
    let single_acc = net.accuracy(x.clone(), t.clone()).unwrap();
    for k in [1usize, 2, 5] {
        let ins: Vec<Vector> = (0..k).map(|_| x.clone()).collect();
        let ts: Vec<Vector> = (0..k).map(|_| t.clone()).collect();
        let (l, a) = net.evaluate_batch(&ins, &ts).unwrap();
        assert_eq!(l, single_loss);
        assert_eq!(a, single_acc);
        let (le, ae) = net.evaluate(&ins, &ts).unwrap();
        assert_eq!(le, single_loss);
        assert_eq!(ae, single_acc);
    }
}

#[test]
fn predict_batch_matches_forward() {
    let net = single_layer(vec![SCALE, 0, 0, SCALE], 2, 2, vec![0, 0]);
    let xs = vec![Vector::zeros(2), Vector::from_vec(vec![HALF, -HALF])];
    let outs = net.predict_batch(&xs).unwrap();
    assert_eq!(outs.len(), 2);
    for (x, o) in xs.iter().zip(outs.iter()) {
        let f = net.forward(x.clone()).unwrap();
        for j in 0..2 {
            assert_eq!(o.get_element(j).unwrap(), f.get_element(j).unwrap());
        }
    }
}

fn finite_difference_check(w: i64, b: i64, x: i64, t: i64) {
    let h: i64 = SCALE / 50;
    let net = single_layer(vec![w], 1, 1, vec![b]);
    let input = Vector::from_vec(vec![x]);
    let target = Vector::from_vec(vec![t]);
    let (wg, _delta) = net.backward(input.clone(), target.clone()).unwrap();
    let analytic = wg.get_element(0, 0).unwrap() as f64 / SCALE as f64;

    let net_hi = single_layer(vec![w + h], 1, 1, vec![b]);
    let net_lo = single_layer(vec![w - h], 1, 1, vec![b]);
    let l_hi = net_hi.loss(input.clone(), target.clone()).unwrap() as f64;
    let l_lo = net_lo.loss(input, target).unwrap() as f64;
    let numeric = (l_hi - l_lo) / (2.0 * h as f64);

    // The loss is the squared error, so its derivative is twice the
    // error term that the backward pass propagates.
    let diff = (numeric - 2.0 * analytic).abs();
    assert!(
        diff < 2e-2,
        "gradient check failed: numeric {} vs analytic {}",
        numeric,
        analytic
    );
}

#[test]
fn backward_gradient_matches_finite_difference() {
    finite_difference_check(SCALE / 10, SCALE / 20, SCALE / 4, SCALE / 8);
    finite_difference_check(-SCALE / 8, SCALE / 16, SCALE / 3, -SCALE / 10);
    finite_difference_check(SCALE / 5, -SCALE / 12, -SCALE / 6, SCALE / 7);
}

#[test]
fn train_epoch_does_not_increase_loss() {
    // A 2-input, 1-output single layer at a learning rate of 0.01.
    let lr: i64 = SCALE / 100;
    let mut net = single_layer(vec![SCALE / 5, -SCALE / 10], 1, 2, vec![SCALE / 20]);
    let ins = vec![Vector::from_vec(vec![HALF, SCALE / 4])];
    let ts = vec![Vector::from_vec(vec![SCALE / 8])];
    let before = net.loss_batch(&ins, &ts).unwrap();
    net.train_epoch(&ins, &ts, lr).unwrap();
    let after = net.loss_batch(&ins, &ts).unwrap();
    let tolerance: i64 = SCALE / 1000;
    assert!(
        after <= before + tolerance,
        "loss rose from {} to {}",
        before,
        after
    );
}

#[test]
fn train_runs_and_reports_stats() {
    let mut net = single_layer(vec![0], 1, 1, vec![0]);
    let stats = net
        .train(Vector::from_vec(vec![SCALE]), Vector::from_vec(vec![0]), 3)
        .unwrap();
    assert_eq!(stats.len(), 3);
    for (l, a) in &stats {
        assert!(*l >= 0);
        assert!(*a >= 0 && *a <= SCALE);
    }
    // The fixed rate train applies: one tenth, rounded to the nearest bit.
    assert_eq!(LEARNING_RATE, 6554);
}

#[test]
fn train_until_convergence_stops_at_max_epochs() {
    let mut net = single_layer(vec![0], 1, 1, vec![0]);
    let ins = vec![Vector::from_vec(vec![SCALE])];
    let ts = vec![Vector::from_vec(vec![0])];
    let lr: i64 = SCALE / 10;
    let epochs = net.train_until_convergence(&ins, &ts, lr, 10, 0).unwrap();
    assert_eq!(epochs, 10);
}

#[test]
fn train_minibatch_follows_order() {
    let mut a = single_layer(vec![0, 0], 1, 2, vec![0]);
    let mut b = single_layer(vec![0, 0], 1, 2, vec![0]);
    let ins = vec![
        Vector::from_vec(vec![HALF, 0]),
        Vector::from_vec(vec![0, HALF]),
    ];
    let ts = vec![
        Vector::from_vec(vec![SCALE]),
        Vector::from_vec(vec![0]),
    ];
    let lr: i64 = SCALE / 10;
    // Identity order on one network, one plain epoch on the other:
    // the same visiting sequence must give the same parameters.
    a.train_minibatch(&ins, &ts, lr, 1, &vec![0, 1]).unwrap();
    b.train_epoch(&ins, &ts, lr).unwrap();
    for c in 0..2 {
        assert_eq!(
            a.layers[0].weights.get_element(0, c).unwrap(),
            b.layers[0].weights.get_element(0, c).unwrap()
        );
    }
}

#[test]
fn update_moves_first_layer_only() {
    let l0 = Layer::new(
        Matrix::from_flat(1, 1, vec![SCALE]).unwrap(),
        Vector::from_vec(vec![0]),
    )
    .unwrap();
    let l1 = Layer::new(
        Matrix::from_flat(1, 1, vec![2 * SCALE]).unwrap(),
        Vector::from_vec(vec![0]),
    )
    .unwrap();
    let mut net = Network::new(vec![l0, l1]);
    let wg = Matrix::from_flat(1, 1, vec![SCALE]).unwrap();
    let d = Vector::from_vec(vec![HALF]);
    // A full learning rate subtracts the gradient itself.
    net.update(&wg, &d, SCALE).unwrap();
    assert_eq!(net.layers[0].weights.get_element(0, 0).unwrap(), 0);
    assert_eq!(net.layers[0].biases.get_element(0).unwrap(), -HALF);
    assert_eq!(net.layers[1].weights.get_element(0, 0).unwrap(), 2 * SCALE);
}

#[test]
fn update_shape_mismatch() {
    let mut net = single_layer(vec![0], 1, 1, vec![0]);
    let wg = Matrix::from_flat(2, 1, vec![0, 0]).unwrap();
    let d = Vector::from_vec(vec![0]);
    assert_eq!(net.update(&wg, &d, SCALE).unwrap_err(), NetError::ShapeMismatch);
}

#[test]
fn per_layer_updates_use_recorded_gradients() {
    let mut layer = Layer::new(
        Matrix::from_flat(1, 1, vec![SCALE]).unwrap(),
        Vector::from_vec(vec![HALF]),
    )
    .unwrap();
    layer
        .store_gradients(
            Matrix::from_flat(1, 1, vec![HALF]).unwrap(),
            Vector::from_vec(vec![SCALE / 4]),
        )
        .unwrap();
    let mut net = Network::new(vec![layer]);
    net.update_weights(SCALE);
    net.update_biases(SCALE);
    assert_eq!(net.layers[0].weights.get_element(0, 0).unwrap(), SCALE - HALF);
    assert_eq!(net.layers[0].biases.get_element(0).unwrap(), HALF - SCALE / 4);
}

#[test]
fn delta_and_weight_gradients_shapes() {
    let net = single_layer(vec![0, 0], 1, 2, vec![0]);
    let e = Vector::from_vec(vec![SCALE, 2 * SCALE]);
    let g = Vector::from_vec(vec![HALF, HALF]);
    let d = net.delta(&e, &g).unwrap();
    assert_eq!(d.get_element(0).unwrap(), HALF);
    assert_eq!(d.get_element(1).unwrap(), SCALE);
    let wg = net.weight_gradients(&Vector::from_vec(vec![SCALE, HALF]), &e, &d);
    assert_eq!(wg.row_count(), 2);
    assert_eq!(wg.col_count(), 2);
    assert_eq!(wg.get_element(0, 0).unwrap(), HALF);
    assert_eq!(wg.get_element(1, 1).unwrap(), HALF);
}

#[test]
fn accessors_copy_parameters() {
    let net = single_layer(vec![7, 8], 1, 2, vec![9]);
    let ws = net.weights();
    let bs = net.biases();
    assert_eq!(ws.len(), 1);
    assert_eq!(bs.len(), 1);
    assert_eq!(ws[0].get_element(0, 1).unwrap(), 8);
    assert_eq!(bs[0].get_element(0).unwrap(), 9);
}

#[test]
fn early_stopping_on_stagnant_validation_loss() {
    let mut net = single_layer(vec![0], 1, 1, vec![0]);
    let ins = vec![Vector::from_vec(vec![SCALE])];
    let ts = vec![Vector::from_vec(vec![0])];
    // The validation target is the untrained prediction, so the
    // validation loss starts at zero and can only get worse.
    let vins = vec![Vector::from_vec(vec![SCALE])];
    let vts = vec![Vector::from_vec(vec![HALF])];
    let lr: i64 = SCALE / 10;
    let (epochs, reason) = net
        .train_until_convergence_with_early_stopping(&ins, &ts, &vins, &vts, lr, 50, 0, 1)
        .unwrap();
    assert_eq!(reason, StopReason::EarlyStopped);
    assert_eq!(epochs, 1);
}

#[test]
fn early_stopping_reports_max_epochs() {
    let mut net = single_layer(vec![0], 1, 1, vec![0]);
    let ins = vec![Vector::from_vec(vec![SCALE])];
    let ts = vec![Vector::from_vec(vec![0])];
    let lr: i64 = SCALE / 10;
    let (epochs, reason) = net
        .train_until_convergence_with_early_stopping(&ins, &ts, &ins.clone(), &ts.clone(), lr, 10, 0, 1000)
        .unwrap();
    assert_eq!(reason, StopReason::MaxEpochsReached);
    assert_eq!(epochs, 10);
}

#[test]
fn early_stopping_reports_convergence() {
    let mut net = single_layer(vec![0], 1, 1, vec![0]);
    let ins = vec![Vector::from_vec(vec![SCALE])];
    let ts = vec![Vector::from_vec(vec![0])];
    let lr: i64 = SCALE / 10;
    let (epochs, reason) = net
        .train_until_convergence_with_early_stopping(
            &ins,
            &ts,
            &ins.clone(),
            &ts.clone(),
            lr,
            10,
            9_223_372_036_854_775_807,
            1000,
        )
        .unwrap();
    assert_eq!(reason, StopReason::Converged);
    assert_eq!(epochs, 0);
}

#[test]
fn update_then_negated_update_restores_parameters() {
    let mut net = single_layer(vec![SCALE / 5, -SCALE / 10], 1, 2, vec![SCALE / 20]);
    let wg = Matrix::from_flat(1, 2, vec![HALF, -SCALE / 4]).unwrap();
    let d = Vector::from_vec(vec![SCALE / 8]);
    let lr: i64 = SCALE / 2;
    net.update(&wg, &d, lr).unwrap();
    net.update(&wg.scalar_multiply(-SCALE), &d.scalar_multiply(-SCALE), lr)
        .unwrap();
    assert_eq!(net.layers[0].weights.get_element(0, 0).unwrap(), SCALE / 5);
    assert_eq!(net.layers[0].weights.get_element(0, 1).unwrap(), -SCALE / 10);
    assert_eq!(net.layers[0].biases.get_element(0).unwrap(), SCALE / 20);
}

#[test]
fn round_trip_of_a_wide_layer() {
    // A layer wider than any fixed cap candidate: 5000 columns.
    let cols = 5000usize;
    let mut w = Vec::new();
    for c in 0..cols {
        w.push((c as i64) * 7 - 3);
    }
    let net = single_layer(w, 1, cols, vec![-HALF]);
    let parsed = Network::from_str(&net.to_string()).unwrap();
    assert_eq!(parsed.layers[0].weights.col_count(), cols);
    for c in 0..cols {
        assert_eq!(
            parsed.layers[0].weights.get_element(0, c).unwrap(),
            (c as i64) * 7 - 3
        );
    }
}
