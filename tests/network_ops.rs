use neuralnet::matrix::{Matrix, ShapeError};
use neuralnet::network::{DataShapeError, Network, TopologyError};
use rand::rngs::StdRng;
use rand::{Rng, SeedableRng};
use std::cell::RefCell;

fn dot(x: Vec<f64>, y: Vec<f64>) -> f64 {
    x.iter().zip(y.iter()).map(|(a, b)| a * b).sum()
}

fn plus(a: f64, b: f64) -> f64 {
    a + b
}

fn minus(a: f64, b: f64) -> f64 {
    a - b
}

fn times(a: f64, b: f64) -> f64 {
    a * b
}

fn sigmoid(x: f64) -> f64 {
    1.0 / (1.0 + (-x).exp())
}

fn sigmoid_derivative(y: f64) -> f64 {
    y * (1.0 - y)
}

fn identity(x: f64) -> f64 {
    x
}

fn one(_: f64) -> f64 {
    1.0
}

fn half() -> f64 {
    0.5
}

#[test]
fn new_rejects_single_layer() {
    let r = Network::new(vec![3], half);
    assert!(matches!(r, Err(TopologyError::TooFewLayers)));
    let r = Network::new(vec![], half);
    assert!(matches!(r, Err(TopologyError::TooFewLayers)));
}

#[test]
fn new_rejects_empty_layer() {
    let r = Network::new(vec![2, 0, 1], half);
    assert!(matches!(r, Err(TopologyError::EmptyLayer)));
}

#[test]
fn fresh_network_has_one_weight_and_bias_per_transition() {
    let layers = vec![4, 5, 6, 2];
    let net = Network::new(layers.clone(), || rand::random::<f64>()).ok().unwrap();
    assert_eq!(net.weights.len(), 3);
    assert_eq!(net.biases.len(), 3);
    for i in 0..3 {
        assert_eq!(net.weights[i].rows, layers[i + 1]);
        assert_eq!(net.weights[i].columns, layers[i]);
        assert_eq!(net.biases[i].rows, layers[i + 1]);
        assert_eq!(net.biases[i].columns, 1);
        assert!(net.weights[i].data.iter().all(|v| *v >= 0.0 && *v < 1.0));
    }
    assert!(net.data.is_empty());
}

#[test]
fn feed_forward_computes_each_layer() {
    let mut net = Network::new(vec![2, 2, 1], half).ok().unwrap();
    let out = net.feed_forward(Matrix::from_vec(vec![1.0, 3.0]), dot, plus, identity).ok().unwrap();
    // hidden: 0.5 * 1 + 0.5 * 3 + 0.5 = 2.5 each; output: 0.5 * 2.5 * 2 + 0.5 = 3.0
    assert_eq!(net.data.len(), 3);
    assert_eq!(net.data[0].data, vec![1.0, 3.0]);
    assert_eq!(net.data[1].data, vec![2.5, 2.5]);
    assert_eq!(out.data, vec![3.0]);
    assert_eq!((out.rows, out.columns), (1, 1));
}

#[test]
fn feed_forward_wrong_length_keeps_data() {
    let mut net = Network::new(vec![2, 3, 1], half).ok().unwrap();
    net.feed_forward(Matrix::from_vec(vec![1.0, 0.0]), dot, plus, sigmoid).ok().unwrap();
    let before: Vec<Vec<f64>> = net.data.iter().map(|m| m.data.clone()).collect();
    let r = net.feed_forward(Matrix::from_vec(vec![1.0, 0.0, 2.0]), dot, plus, sigmoid);
    assert!(matches!(r, Err(ShapeError::Incompatible)));
    let after: Vec<Vec<f64>> = net.data.iter().map(|m| m.data.clone()).collect();
    assert_eq!(before, after);
}

#[test]
fn predict_returns_output_values() {
    let mut net = Network::new(vec![1, 1], half).ok().unwrap();
    assert_eq!(net.predict(vec![2.0], dot, plus, identity).ok().unwrap(), vec![1.5]);
    assert!(matches!(net.predict(vec![2.0, 1.0], dot, plus, identity), Err(ShapeError::Incompatible)));
}

#[test]
fn back_propogate_moves_towards_target() {
    let mut net = Network::new(vec![1, 1], half).ok().unwrap();
    let out = net.feed_forward(Matrix::from_vec(vec![1.0]), dot, plus, identity).ok().unwrap();
    assert_eq!(out.data, vec![1.0]);
    let r = net.back_propogate(out, Matrix::from_vec(vec![2.0]), 0.5, minus, times, one, dot, plus);
    assert!(r.is_ok());
    assert_eq!(net.weights[0].data, vec![1.0]);
    assert_eq!(net.biases[0].data, vec![1.0]);
}

#[test]
fn back_propogate_uses_weights_before_update() {
    let mut net = Network::new(vec![1, 1, 1], half).ok().unwrap();
    let out = net.feed_forward(Matrix::from_vec(vec![1.0]), dot, plus, identity).ok().unwrap();
    // hidden = 1.0, output = 1.0
    assert_eq!(out.data, vec![1.0]);
    net.back_propogate(out, Matrix::from_vec(vec![3.0]), 1.0, minus, times, one, dot, plus).ok().unwrap();
    // last layer: gradient 2, weight 0.5 + 2 * 1 = 2.5, bias 2.5; error carried back 0.5 * 2 = 1
    assert_eq!(net.weights[1].data, vec![2.5]);
    assert_eq!(net.biases[1].data, vec![2.5]);
    // first layer: gradient 1, weight 0.5 + 1 * 1 = 1.5, bias 1.5
    assert_eq!(net.weights[0].data, vec![1.5]);
    assert_eq!(net.biases[0].data, vec![1.5]);
}

#[test]
fn back_propogate_needs_a_forward_pass() {
    let mut net = Network::new(vec![1, 1], half).ok().unwrap();
    let r = net.back_propogate(Matrix::from_vec(vec![1.0]), Matrix::from_vec(vec![2.0]), 0.5, minus, times, one, dot, plus);
    assert!(matches!(r, Err(ShapeError::Incompatible)));
    assert_eq!(net.weights[0].data, vec![0.5]);
}

#[test]
fn back_propogate_rejects_wrong_target_shape() {
    let mut net = Network::new(vec![1, 1], half).ok().unwrap();
    let out = net.feed_forward(Matrix::from_vec(vec![1.0]), dot, plus, identity).ok().unwrap();
    let r = net.back_propogate(out, Matrix::from_vec(vec![2.0, 1.0]), 0.5, minus, times, one, dot, plus);
    assert!(matches!(r, Err(ShapeError::Incompatible)));
    assert_eq!(net.weights[0].data, vec![0.5]);
    assert_eq!(net.biases[0].data, vec![0.5]);
}

#[test]
fn train_rejects_bad_batches() {
    let mut net = Network::new(vec![2, 1], half).ok().unwrap();
    let run = |net: &mut Network<f64>, i: Vec<Vec<f64>>, t: Vec<Vec<f64>>| {
        net.train(i, t, 3, 0.5, minus, times, sigmoid_derivative, dot, plus, sigmoid)
    };
    assert!(matches!(run(&mut net, vec![], vec![]), Err(DataShapeError::Empty)));
    assert!(matches!(run(&mut net, vec![vec![0.0, 1.0]], vec![]), Err(DataShapeError::CountMismatch)));
    assert!(matches!(run(&mut net, vec![vec![0.0]], vec![vec![1.0]]), Err(DataShapeError::InputLength)));
    assert!(matches!(run(&mut net, vec![vec![0.0, 1.0]], vec![vec![1.0, 0.0]]), Err(DataShapeError::TargetLength)));
    assert_eq!(net.weights[0].data, vec![0.5, 0.5]);
}

#[test]
fn train_with_no_epoch_changes_nothing() {
    let mut net = Network::new(vec![2, 1], half).ok().unwrap();
    net.train(vec![vec![1.0, 1.0]], vec![vec![0.0]], 0, 0.5, minus, times, sigmoid_derivative, dot, plus, sigmoid)
        .ok()
        .unwrap();
    assert_eq!(net.weights[0].data, vec![0.5, 0.5]);
    assert!(net.data.is_empty());
}

#[test]
fn xor_training_converges() {
    let rng = RefCell::new(StdRng::seed_from_u64(7));
    let draw = || rng.borrow_mut().gen_range(0.0..1.0);
    let mut net = Network::new(vec![2, 4, 1], draw).ok().unwrap();
    let inputs = vec![vec![0.0, 0.0], vec![1.0, 0.0], vec![0.0, 1.0], vec![1.0, 1.0]];
    let targets = vec![vec![0.0], vec![1.0], vec![1.0], vec![0.0]];
    net.train(inputs.clone(), targets.clone(), 20000, 0.5, minus, times, sigmoid_derivative, dot, plus, sigmoid)
        .ok()
        .unwrap();
    for (i, t) in inputs.iter().zip(targets.iter()) {
        let out = net.predict(i.clone(), dot, plus, sigmoid).ok().unwrap();
        assert!((out[0] - t[0]).abs() < 0.1, "input {:?} gave {}", i, out[0]);
    }
}
