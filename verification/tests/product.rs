use sparse_solver::arithmetic::Operation;
use sparse_solver::entry::Entry;
use sparse_solver::error::Error;
use sparse_solver::sparse_row_matrix::SparseRowMatrix;
use sparse_solver::sparse_symmetric_matrix::SparseSymmetricMatrix;
use sparse_solver::vector::Vector;

fn ieee_product(op: Operation) -> u64 {
    let f = f64::from_bits;
    match op {
        Operation::MulAdd { acc, a, b } => (f(acc) + f(a) * f(b)).to_bits(),
        Operation::Sub { a, b } => (f(a) - f(b)).to_bits(),
        Operation::Mul { a, b } => (f(a) * f(b)).to_bits(),
        Operation::Div { a, b } => (f(a) / f(b)).to_bits(),
        Operation::Sqrt { a } => f(a).sqrt().to_bits(),
    }
}

fn coefficient(x: usize, y: usize, v: f64) -> Entry {
    Entry { x, y, v: v.to_bits() }
}

fn dense_vector(components: &[f64]) -> Vector {
    Vector(components.iter().map(|c| c.to_bits()).collect())
}

fn as_numbers(v: &Vector) -> Vec<f64> {
    v.0.iter().map(|b| f64::from_bits(*b)).collect()
}

fn dense_of(entries: &[Entry], n: usize) -> Vec<Vec<f64>> {
    let mut seen = vec![vec![false; n]; n];
    let mut dense = vec![vec![0.0; n]; n];
    for e in entries {
        if !seen[e.x][e.y] {
            seen[e.x][e.y] = true;
            seen[e.y][e.x] = true;
            dense[e.x][e.y] = f64::from_bits(e.v);
            dense[e.y][e.x] = f64::from_bits(e.v);
        }
    }
    dense
}

fn dense_product(dense: &[Vec<f64>], x: &[f64]) -> Vec<f64> {
    dense.iter().map(|row| row.iter().zip(x).map(|(a, b)| a * b).sum()).collect()
}

#[test]
fn test_sparse_multiplication() {
    let entries = vec![
        coefficient(0, 0, 1.5),
        coefficient(0, 1, 5.5),
        coefficient(0, 2, 6.5),
        coefficient(1, 1, 2.5),
        coefficient(1, 2, 8.5),
        coefficient(2, 2, 9.5),
    ];
    let m = SparseSymmetricMatrix::new(&entries);
    let srm = SparseRowMatrix::new(&m);
    let v = [3.0, 2.0, 1.0];
    let result = as_numbers(&srm.apply(&dense_vector(&v), &ieee_product).unwrap());
    let reference = dense_product(&dense_of(&entries, 3), &v);
    assert_eq!(reference, vec![22.0, 30.0, 46.0]);
    for i in 0..3 {
        assert!((result[i] - reference[i]).abs() <= 1e-9);
    }
    assert_eq!(result, vec![22.0, 30.0, 46.0]);
}

#[test]
fn product_matches_dense_reference_on_generated_matrices() {
    let mut state: u64 = 2024;
    let mut next = move || {
        state = state.wrapping_mul(6364136223846793005).wrapping_add(1442695040888963407);
        state >> 33
    };
    for _ in 0..40 {
        let n = 1 + (next() % 9) as usize;
        let mut entries = vec![coefficient(n - 1, n - 1, 1.0)];
        for _ in 0..(next() % 30) {
            let x = (next() % n as u64) as usize;
            let y = (next() % n as u64) as usize;
            let v = (next() % 2001) as f64 / 100.0 - 10.0;
            entries.push(coefficient(x, y, v));
        }
        let x: Vec<f64> = (0..n).map(|_| (next() % 2001) as f64 / 50.0 - 20.0).collect();
        let srm = SparseRowMatrix::new(&SparseSymmetricMatrix::new(&entries));
        assert_eq!(srm.len(), n);
        let result = as_numbers(&srm.apply(&dense_vector(&x), &ieee_product).unwrap());
        let reference = dense_product(&dense_of(&entries, n), &x);
        assert_eq!(result.len(), n);
        for i in 0..n {
            assert!((result[i] - reference[i]).abs() <= 1e-9, "{} {}", result[i], reference[i]);
        }
    }
}

#[test]
fn product_sums_each_row_in_column_order() {
    let entries =
        vec![coefficient(0, 2, -1e16), coefficient(0, 1, 1.0), coefficient(0, 0, 1e16)];
    let srm = SparseRowMatrix::new(&SparseSymmetricMatrix::new(&entries));
    let ones = dense_vector(&[1.0, 1.0, 1.0]);
    let result = as_numbers(&srm.apply(&ones, &ieee_product).unwrap());
    assert_eq!(result[0], (1e16f64 + 1.0) + -1e16);
    assert_eq!(result[0], 0.0);
    assert_eq!(result[1], 1.0);
    assert_eq!(result[2], -1e16);
}

#[test]
fn product_of_an_empty_row_is_zero() {
    let srm = SparseRowMatrix::new(&SparseSymmetricMatrix::new(&[
        coefficient(0, 0, 2.0),
        coefficient(2, 2, 3.0),
    ]));
    let result = srm.apply(&dense_vector(&[1.0, 5.0, -1.0]), &ieee_product).unwrap();
    assert_eq!(as_numbers(&result), vec![2.0, 0.0, -3.0]);
    assert_eq!(result.0[1], 0);
}

#[test]
fn product_refuses_wrong_length() {
    let srm = SparseRowMatrix::new(&SparseSymmetricMatrix::new(&[coefficient(0, 1, 2.0)]));
    assert_eq!(srm.apply(&dense_vector(&[1.0]), &ieee_product), Err(Error::DimensionMismatch));
    assert_eq!(
        srm.apply(&dense_vector(&[1.0, 2.0, 3.0]), &ieee_product),
        Err(Error::DimensionMismatch)
    );
    assert!(srm.apply(&dense_vector(&[1.0, 2.0]), &ieee_product).is_ok());
}

#[test]
fn product_refuses_non_finite_coefficients() {
    let srm = SparseRowMatrix::new(&SparseSymmetricMatrix::new(&[
        coefficient(0, 0, 1.0),
        coefficient(0, 1, f64::NAN),
    ]));
    assert_eq!(srm.apply(&dense_vector(&[1.0, 2.0]), &ieee_product), Err(Error::NonFinite));
    assert_eq!(srm.apply(&dense_vector(&[1.0]), &ieee_product), Err(Error::DimensionMismatch));
    let srm = SparseRowMatrix::new(&SparseSymmetricMatrix::new(&[coefficient(
        1,
        1,
        f64::INFINITY,
    )]));
    assert_eq!(srm.apply(&dense_vector(&[1.0, 2.0]), &ieee_product), Err(Error::NonFinite));
}

#[test]
fn multiply_skips_the_checks_but_gives_the_same_product() {
    let srm = SparseRowMatrix::new(&SparseSymmetricMatrix::new(&[
        coefficient(0, 0, 2.0),
        coefficient(0, 1, -1.0),
        coefficient(1, 1, 2.0),
    ]));
    let x = dense_vector(&[1.0, 3.0]);
    assert_eq!(srm.multiply(&x, &ieee_product), srm.apply(&x, &ieee_product).unwrap());
    assert_eq!(as_numbers(&srm.multiply(&x, &ieee_product)), vec![-1.0, 5.0]);
}
