use neural_net::{ActivationFunction, Error, NeuralNetwork};

fn b(x: f64) -> u64 {
    x.to_bits()
}

fn f(x: u64) -> f64 {
    f64::from_bits(x)
}

#[test]
fn test_neural_network_creation() {
    let nn = NeuralNetwork::new(b(0.1));
    assert_eq!(nn.layers.len(), 0);
    assert_eq!(nn.learning_rate, b(0.1));
}

#[test]
fn test_add_layers() {
    let mut nn = NeuralNetwork::new(b(0.1));

    let result = nn.add_input_layer(2, 3, ActivationFunction::ReLU);
    assert!(result.is_ok());
    assert_eq!(nn.layers.len(), 1);

    let result = nn.add_layer(1, ActivationFunction::Sigmoid);
    assert!(result.is_ok());
    assert_eq!(nn.layers.len(), 2);
}

#[test]
fn test_predict() {
    let mut nn = NeuralNetwork::new(b(0.1));

    nn.add_input_layer(2, 1, ActivationFunction::Sigmoid).unwrap();

    nn.layers[0].weights.set(0, 0, b(0.5));
    nn.layers[0].weights.set(0, 1, b(0.5));
    nn.layers[0].biases.set(0, 0, b(0.0));

    let input = vec![b(1.0), b(1.0)];
    let output = nn.predict(&input).unwrap();

    assert!((f(output[0]) - 0.7310585786300049).abs() < 1e-10);
}

#[test]
fn test_layer_ordering_errors() {
    let mut nn = NeuralNetwork::new(b(0.1));
    assert_eq!(
        nn.add_layer(4, ActivationFunction::ReLU).unwrap_err(),
        Error::NoInputLayer
    );
    nn.add_input_layer(2, 4, ActivationFunction::ReLU).unwrap();
    assert_eq!(
        nn.add_input_layer(2, 4, ActivationFunction::ReLU).unwrap_err(),
        Error::AlreadyInitialized
    );
    assert_eq!(nn.layers.len(), 1);
}

#[test]
fn test_predict_wrong_width() {
    let mut nn = NeuralNetwork::new(b(0.1));
    nn.add_input_layer(2, 1, ActivationFunction::Sigmoid).unwrap();
    let r = nn.predict(&vec![b(1.0), b(1.0), b(1.0)]);
    assert_eq!(r.unwrap_err(), Error::DimensionMismatch);
}

#[test]
fn test_train_target_width_mismatch() {
    let mut nn = NeuralNetwork::new(b(0.1));
    nn.add_input_layer(2, 1, ActivationFunction::Sigmoid).unwrap();
    let r = nn.train(&vec![b(1.0), b(0.0)], &vec![b(1.0), b(0.0)]);
    assert_eq!(r.unwrap_err(), Error::SizeMismatch);
}

#[test]
fn test_fit_invalid_dataset() {
    let mut nn = NeuralNetwork::new(b(0.1));
    nn.add_input_layer(2, 1, ActivationFunction::Sigmoid).unwrap();
    let weights_before = nn.layers[0].weights.data.clone();
    let biases_before = nn.layers[0].biases.data.clone();

    let empty: Vec<Vec<u64>> = Vec::new();
    let one = vec![vec![b(0.0), b(0.0)]];
    let two = vec![vec![b(0.0)], vec![b(1.0)]];

    assert_eq!(nn.fit(&empty, &empty, 5, false).unwrap_err(), Error::InvalidDataset);
    assert_eq!(nn.fit(&one, &empty, 5, false).unwrap_err(), Error::InvalidDataset);
    assert_eq!(nn.fit(&one, &two, 5, false).unwrap_err(), Error::InvalidDataset);

    assert_eq!(nn.layers[0].weights.data, weights_before);
    assert_eq!(nn.layers[0].biases.data, biases_before);
}

#[test]
fn test_calculate_accuracy_invalid_dataset() {
    let mut nn = NeuralNetwork::new(b(0.1));
    nn.add_input_layer(2, 1, ActivationFunction::Sigmoid).unwrap();
    let weights_before = nn.layers[0].weights.data.clone();

    let empty: Vec<Vec<u64>> = Vec::new();
    let one = vec![vec![b(0.0), b(0.0)]];
    let two = vec![vec![b(0.0)], vec![b(1.0)]];

    assert_eq!(
        nn.calculate_accuracy(&empty, &empty).unwrap_err(),
        Error::InvalidDataset
    );
    assert_eq!(nn.calculate_accuracy(&one, &two).unwrap_err(), Error::InvalidDataset);
    assert_eq!(nn.layers[0].weights.data, weights_before);
}

#[test]
fn test_calculate_accuracy_perfect() {
    // One logistic unit pushed far into saturation classifies its two
    // training points exactly.
    let mut nn = NeuralNetwork::new(b(0.1));
    nn.add_input_layer(1, 1, ActivationFunction::Sigmoid).unwrap();
    nn.layers[0].weights.set(0, 0, b(20.0));
    nn.layers[0].biases.set(0, 0, b(-10.0));

    let inputs = vec![vec![b(0.0)], vec![b(1.0)]];
    let targets = vec![vec![b(0.0)], vec![b(1.0)]];
    let acc = nn.calculate_accuracy(&inputs, &targets).unwrap();
    assert_eq!(f(acc), 1.0);
}

#[test]
fn test_fit_xor() {
    let mut nn = NeuralNetwork::new(b(0.1));
    nn.add_input_layer(2, 8, ActivationFunction::ReLU).unwrap();
    nn.add_layer(1, ActivationFunction::Sigmoid).unwrap();

    let inputs = vec![
        vec![b(0.0), b(0.0)],
        vec![b(0.0), b(1.0)],
        vec![b(1.0), b(0.0)],
        vec![b(1.0), b(1.0)],
    ];
    let targets = vec![vec![b(0.0)], vec![b(1.0)], vec![b(1.0)], vec![b(0.0)]];

    nn.fit(&inputs, &targets, 2000, false).unwrap();
    let acc = f(nn.calculate_accuracy(&inputs, &targets).unwrap());
    assert!(acc >= 0.75, "accuracy after training: {}", acc);
}

#[test]
fn test_fit_shuffled_dataset() {
    // Twelve samples put the fit loop on its shuffling path, and verbose
    // mode exercises the periodic progress report.
    let mut nn = NeuralNetwork::new(b(0.5));
    nn.add_input_layer(1, 1, ActivationFunction::Sigmoid).unwrap();

    let mut inputs: Vec<Vec<u64>> = Vec::new();
    let mut targets: Vec<Vec<u64>> = Vec::new();
    for i in 0..12 {
        let x = i as f64 / 11.0;
        inputs.push(vec![b(x)]);
        targets.push(vec![b(if x > 0.5 { 1.0 } else { 0.0 })]);
    }

    nn.fit(&inputs, &targets, 30, true).unwrap();
    let acc = f(nn.calculate_accuracy(&inputs, &targets).unwrap());
    assert!(acc >= 0.0 && acc <= 1.0);
    assert_eq!(nn.layers.len(), 1);
    assert_eq!(nn.layers[0].weights.rows, 1);
    assert_eq!(nn.layers[0].weights.cols, 1);
}

#[test]
fn test_predict_empty_network() {
    let mut nn = NeuralNetwork::new(b(0.1));
    let input = vec![b(1.5), b(-2.0)];
    let output = nn.predict(&input).unwrap();
    assert_eq!(output, input);
}
