use neural_net::{ReLU, Sigmoid, Softmax};

fn b(x: f64) -> u64 {
    x.to_bits()
}

fn f(x: u64) -> f64 {
    f64::from_bits(x)
}

#[test]
fn test_sigmoid() {
    let sigmoid = Sigmoid;
    assert_eq!(f(sigmoid.activate(b(0.0))), 0.5);
    assert!((f(sigmoid.activate(b(2.0))) - 0.8807970779778823).abs() < 1e-10);
    assert!((f(sigmoid.derivative(b(0.5))) - 0.25).abs() < 1e-10);
}

#[test]
fn test_relu() {
    let relu = ReLU;
    assert_eq!(f(relu.activate(b(1.0))), 1.0);
    assert_eq!(f(relu.activate(b(-1.0))), 0.0);
    assert_eq!(f(relu.derivative(b(1.0))), 1.0);
    assert_eq!(f(relu.derivative(b(0.0))), 0.0);
}

#[test]
fn test_softmax() {
    let softmax = Softmax;
    let input = vec![b(2.0), b(1.0), b(0.1)];
    let output = softmax.activate_vec(&input);

    let sum: f64 = output.iter().map(|&x| f(x)).sum();
    assert!((sum - 1.0).abs() < 1e-10);

    assert!(f(output[0]) > f(output[1]));
    assert!(f(output[1]) > f(output[2]));
}

#[test]
fn test_softmax_shift_invariance() {
    let softmax = Softmax;
    let input = vec![b(2.0), b(1.0), b(0.1)];
    let shifted = vec![b(2.0 + 50.0), b(1.0 + 50.0), b(0.1 + 50.0)];
    let out_a = softmax.activate_vec(&input);
    let out_b = softmax.activate_vec(&shifted);
    for j in 0..3 {
        assert!((f(out_a[j]) - f(out_b[j])).abs() < 1e-10);
    }
}

#[test]
fn test_softmax_uniform_on_equal_very_negative() {
    let softmax = Softmax;
    let input = vec![b(-1.0e9), b(-1.0e9), b(-1.0e9), b(-1.0e9)];
    let output = softmax.activate_vec(&input);
    for j in 0..4 {
        assert!((f(output[j]) - 0.25).abs() < 1e-10);
    }
}

#[test]
fn test_softmax_empty() {
    let softmax = Softmax;
    let input: Vec<u64> = Vec::new();
    let output = softmax.activate_vec(&input);
    assert!(output.is_empty());
}

#[test]
fn test_sigmoid_derivative_formula() {
    let sigmoid = Sigmoid;
    for &y in &[0.1, 0.25, 0.5, 0.75, 0.9] {
        let expected = y * (1.0 - y);
        assert_eq!(f(sigmoid.derivative(b(y))), expected);
    }
}

#[test]
fn test_relu_matches_max() {
    let relu = ReLU;
    for &x in &[-3.5, -0.0, 0.0, 0.25, 7.0] {
        let expected: f64 = if x > 0.0 { x } else { 0.0 };
        assert_eq!(f(relu.activate(b(x))), expected);
        let d_expected: f64 = if x > 0.0 { 1.0 } else { 0.0 };
        assert_eq!(f(relu.derivative(b(x))), d_expected);
    }
}

#[test]
fn test_activation_vec_forms() {
    let sigmoid = Sigmoid;
    let relu = ReLU;
    let input = vec![b(-1.0), b(0.0), b(1.0)];
    let sv = sigmoid.activate_vec(&input);
    assert_eq!(f(sv[1]), 0.5);
    let rv = relu.activate_vec(&input);
    assert_eq!(f(rv[0]), 0.0);
    assert_eq!(f(rv[2]), 1.0);
    let dv = relu.derivative_vec(&rv);
    assert_eq!(f(dv[0]), 0.0);
    assert_eq!(f(dv[2]), 1.0);
    let sd = sigmoid.derivative_vec(&vec![b(0.5)]);
    assert_eq!(f(sd[0]), 0.25);
}

#[test]
fn test_softmax_scalar_form_is_logistic() {
    let softmax = Softmax;
    let sigmoid = Sigmoid;
    for &x in &[-2.0, 0.0, 1.5] {
        assert_eq!(softmax.activate(b(x)), sigmoid.activate(b(x)));
        assert_eq!(softmax.derivative(b(0.3)), sigmoid.derivative(b(0.3)));
    }
}
