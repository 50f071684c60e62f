use neural_net::{Error, Matrix};

fn b(x: f64) -> u64 {
    x.to_bits()
}

fn f(x: u64) -> f64 {
    f64::from_bits(x)
}

#[test]
fn test_matrix_creation() {
    let m = Matrix::new(2, 3);
    assert_eq!(m.rows, 2);
    assert_eq!(m.cols, 3);
    assert_eq!(f(m.get(0, 0)), 0.0);
}

#[test]
fn test_from_array() {
    let arr = [b(1.0), b(2.0), b(3.0)];
    let m = Matrix::from_array(&arr);
    assert_eq!(m.rows, 3);
    assert_eq!(m.cols, 1);
    assert_eq!(f(m.get(0, 0)), 1.0);
    assert_eq!(f(m.get(1, 0)), 2.0);
    assert_eq!(f(m.get(2, 0)), 3.0);
}

#[test]
fn test_to_array() {
    let mut m = Matrix::new(2, 2);
    m.set(0, 0, b(1.0));
    m.set(0, 1, b(2.0));
    m.set(1, 0, b(3.0));
    m.set(1, 1, b(4.0));
    let arr = m.to_array();
    assert_eq!(arr, vec![b(1.0), b(2.0), b(3.0), b(4.0)]);
}

#[test]
fn test_dot_product() {
    let mut a = Matrix::new(2, 3);
    a.set(0, 0, b(1.0));
    a.set(0, 1, b(2.0));
    a.set(0, 2, b(3.0));
    a.set(1, 0, b(4.0));
    a.set(1, 1, b(5.0));
    a.set(1, 2, b(6.0));

    let mut bm = Matrix::new(3, 2);
    bm.set(0, 0, b(7.0));
    bm.set(0, 1, b(8.0));
    bm.set(1, 0, b(9.0));
    bm.set(1, 1, b(10.0));
    bm.set(2, 0, b(11.0));
    bm.set(2, 1, b(12.0));

    let result = Matrix::dot(&a, &bm).unwrap();
    assert_eq!(f(result.get(0, 0)), 58.0);
    assert_eq!(f(result.get(0, 1)), 64.0);
    assert_eq!(f(result.get(1, 0)), 139.0);
    assert_eq!(f(result.get(1, 1)), 154.0);
}

#[test]
fn test_parallel_operations() {
    let size = 100;
    let mut a = Matrix::new(size, size);
    let mut bm = Matrix::new(size, size);

    for i in 0..size {
        for j in 0..size {
            a.set(i, j, b(1.0));
            bm.set(i, j, b(2.0));
        }
    }

    let sum = a.add(&bm).unwrap();
    assert_eq!(f(sum.get(50, 50)), 3.0);

    let scaled = a.multiply(b(5.0));
    assert_eq!(f(scaled.get(50, 50)), 5.0);

    let mapped = a.map(|x: u64| (f64::from_bits(x) * 10.0).to_bits());
    assert_eq!(f(mapped.get(50, 50)), 10.0);
}

#[test]
fn test_parallel_dot_matches_sequential_values() {
    // 40 x 40 puts the product on the worker-thread path (1600 entries),
    // while each entry is the same exact sum a sequential loop computes.
    let size = 40;
    let mut a = Matrix::new(size, size);
    let mut bm = Matrix::new(size, size);
    for i in 0..size {
        for j in 0..size {
            a.set(i, j, b(1.0));
            bm.set(i, j, b(0.5));
        }
    }
    let big = Matrix::dot(&a, &bm).unwrap();
    for i in 0..size {
        for j in 0..size {
            assert_eq!(f(big.get(i, j)), 20.0);
        }
    }

    // A small product of the same structure goes through the sequential
    // path and agrees entry for entry.
    let mut c = Matrix::new(2, 2);
    let mut d = Matrix::new(2, 2);
    for i in 0..2 {
        for j in 0..2 {
            c.set(i, j, b(1.0));
            d.set(i, j, b(0.5));
        }
    }
    let small = Matrix::dot(&c, &d).unwrap();
    assert_eq!(f(small.get(0, 0)), 1.0);
    assert_eq!(f(small.get(1, 1)), 1.0);
}

#[test]
fn test_transpose_round_trip() {
    let mut m = Matrix::new(3, 4);
    let mut v = 0.0;
    for i in 0..3 {
        for j in 0..4 {
            m.set(i, j, b(v));
            v += 0.125;
        }
    }
    let t = Matrix::transpose(&m);
    assert_eq!(t.rows, 4);
    assert_eq!(t.cols, 3);
    assert_eq!(f(t.get(2, 1)), f(m.get(1, 2)));
    let tt = Matrix::transpose(&t);
    assert_eq!(tt.rows, m.rows);
    assert_eq!(tt.cols, m.cols);
    assert_eq!(tt.data, m.data);
}

#[test]
fn test_elementwise_shape_mismatch() {
    let a = Matrix::new(2, 3);
    let bm = Matrix::new(3, 2);
    let a_before = a.data.clone();
    let b_before = bm.data.clone();
    assert_eq!(a.add(&bm).unwrap_err(), Error::SizeMismatch);
    assert_eq!(a.subtract(&bm).unwrap_err(), Error::SizeMismatch);
    assert_eq!(Matrix::hadamard(&a, &bm).unwrap_err(), Error::SizeMismatch);
    assert_eq!(a.data, a_before);
    assert_eq!(bm.data, b_before);
}

#[test]
fn test_dot_dimension_mismatch() {
    let a = Matrix::new(2, 3);
    let bm = Matrix::new(2, 3);
    assert_eq!(Matrix::dot(&a, &bm).unwrap_err(), Error::DimensionMismatch);
}

#[test]
fn test_subtract_values() {
    let a = Matrix::from_array(&[b(5.0), b(2.5)]);
    let bm = Matrix::from_array(&[b(1.5), b(4.0)]);
    let d = a.subtract(&bm).unwrap();
    assert_eq!(f(d.get(0, 0)), 3.5);
    assert_eq!(f(d.get(1, 0)), -1.5);
}

#[test]
fn test_hadamard_values() {
    let a = Matrix::from_array(&[b(3.0), b(-2.0)]);
    let bm = Matrix::from_array(&[b(4.0), b(0.5)]);
    let h = Matrix::hadamard(&a, &bm).unwrap();
    assert_eq!(f(h.get(0, 0)), 12.0);
    assert_eq!(f(h.get(1, 0)), -1.0);
}

#[test]
fn test_apply_in_place() {
    let mut m = Matrix::from_array(&[b(1.0), b(-2.0), b(3.0)]);
    m.apply_in_place(|x: u64| (f64::from_bits(x) + 1.0).to_bits());
    assert_eq!(f(m.get(0, 0)), 2.0);
    assert_eq!(f(m.get(1, 0)), -1.0);
    assert_eq!(f(m.get(2, 0)), 4.0);
}

#[test]
fn test_randomize_range_and_shape() {
    let mut m = Matrix::new(8, 9);
    m.randomize();
    assert_eq!(m.rows, 8);
    assert_eq!(m.cols, 9);
    assert_eq!(m.data.len(), 72);
    let mut distinct = false;
    for i in 0..8 {
        for j in 0..9 {
            let x = f(m.get(i, j));
            assert!(x >= -1.0 && x < 1.0);
            if m.get(i, j) != m.get(0, 0) {
                distinct = true;
            }
        }
    }
    // 72 independent uniform draws cannot all coincide
    assert!(distinct);
}
