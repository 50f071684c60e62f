use neural_net::{ActivationFunction, Error, Layer, Matrix};

fn b(x: f64) -> u64 {
    x.to_bits()
}

fn f(x: u64) -> f64 {
    f64::from_bits(x)
}

#[test]
fn test_layer_creation() {
    let layer = Layer::new(2, 3, ActivationFunction::ReLU);
    assert_eq!(layer.output_size, 3);
    for &w in layer.weights.data.iter().chain(layer.biases.data.iter()) {
        let x = f(w);
        assert!(x >= -1.0 && x < 1.0);
    }
}

#[test]
fn test_feed_forward() {
    let mut layer = Layer::new(2, 1, ActivationFunction::Sigmoid);

    layer.weights.set(0, 0, b(0.5));
    layer.weights.set(0, 1, b(0.5));
    layer.biases.set(0, 0, b(0.0));

    let input = Matrix::from_array(&[b(1.0), b(1.0)]);
    let output = layer.feed_forward(&input).unwrap();

    assert!((f(output.get(0, 0)) - 0.7310585786300049).abs() < 1e-10);
}

#[test]
fn test_feed_forward_dimension_mismatch() {
    let mut layer = Layer::new(2, 1, ActivationFunction::Sigmoid);
    let input = Matrix::from_array(&[b(1.0), b(1.0), b(1.0)]);
    assert_eq!(layer.feed_forward(&input).unwrap_err(), Error::DimensionMismatch);
}

#[test]
fn test_backpropagate_without_forward() {
    let mut layer = Layer::new(3, 2, ActivationFunction::Sigmoid);
    let weights_before = layer.weights.data.clone();
    let biases_before = layer.biases.data.clone();
    let error = Matrix::from_array(&[b(0.1), b(0.2)]);
    let r = layer.backpropagate(&error, b(0.1));
    assert_eq!(r.unwrap_err(), Error::MissingState);
    assert_eq!(layer.weights.data, weights_before);
    assert_eq!(layer.biases.data, biases_before);
}

#[test]
fn test_backpropagate_updates_weights() {
    let mut layer = Layer::new(1, 1, ActivationFunction::Sigmoid);
    layer.weights.set(0, 0, b(0.5));
    layer.biases.set(0, 0, b(0.0));

    let input = Matrix::from_array(&[b(1.0)]);
    let out = layer.feed_forward(&input).unwrap();
    let y = f(out.get(0, 0));

    // target 1.0, so the output error is 1 - y
    let error = Matrix::from_array(&[b(1.0 - y)]);
    let back = layer.backpropagate(&error, b(0.1)).unwrap();

    // delta = (1 - y) * y * (1 - y); weights += 0.1 * delta * input
    let delta = (1.0 - y) * (y * (1.0 - y));
    let expected_w = 0.5 + 0.1 * delta;
    assert!((f(layer.weights.get(0, 0)) - expected_w).abs() < 1e-12);
    let expected_b = 0.1 * delta;
    assert!((f(layer.biases.get(0, 0)) - expected_b).abs() < 1e-12);
    // propagated error = new_weight * delta
    assert!((f(back.get(0, 0)) - expected_w * delta).abs() < 1e-12);
}
