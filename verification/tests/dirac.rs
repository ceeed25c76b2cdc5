use lau_connes_spectral_triple::dirac::DiracOperator;
use nalgebra::DMatrix;
use num_complex::Complex64;
use std::cell::Cell;

fn diagonal(values: &[f64]) -> DMatrix<Complex64> {
    let n = values.len();
    let mut m = DMatrix::zeros(n, n);
    for (i, &v) in values.iter().enumerate() {
        m[(i, i)] = Complex64::new(v, 0.0);
    }
    m
}

fn from_eigenvalues(ev: Vec<f64>) -> DiracOperator<DMatrix<Complex64>, f64> {
    DiracOperator::with_eigenvalues(diagonal(&ev), ev)
}

fn diagonalise(m: &DMatrix<Complex64>) -> Vec<f64> {
    m.symmetric_eigenvalues().iter().copied().collect()
}

#[test]
fn test_dirac_eigenvalues() {
    let mut d = from_eigenvalues(vec![1.0, 2.0, 3.0]);
    let ev = d.eigenvalues(diagonalise);
    assert_eq!(ev[0], 1.0);
    assert_eq!(ev[2], 3.0);
}

#[test]
fn test_kernel_dim() {
    let mut d = from_eigenvalues(vec![0.0, 1.0, 0.0, 2.0]);
    assert_eq!(d.kernel_dim(diagonalise, |l: &f64| l.abs() < 1e-10), 2);
}

#[test]
fn spectrum_is_computed_once_and_cached() {
    let calls = Cell::new(0);
    let compute = |m: &DMatrix<Complex64>| {
        calls.set(calls.get() + 1);
        diagonalise(m)
    };
    let mut d: DiracOperator<DMatrix<Complex64>, f64> = DiracOperator::new(diagonal(&[2.0, -1.0]));
    let first = d.eigenvalues(compute);
    let second = d.eigenvalues(compute);
    assert_eq!(calls.get(), 1);
    assert_eq!(first, second);
    let mut sorted = first.clone();
    sorted.sort_by(|a, b| a.partial_cmp(b).unwrap());
    assert_eq!(sorted, vec![-1.0, 2.0]);
}

#[test]
fn given_spectrum_is_not_recomputed() {
    let mut d = DiracOperator::with_eigenvalues(0u8, vec![5i32, 6]);
    let ev = d.eigenvalues(|_| panic!("the spectrum is known"));
    assert_eq!(ev, vec![5, 6]);
    assert_eq!(*d.as_matrix(), 0u8);
}

#[test]
fn kernel_of_invertible_operator_is_trivial() {
    let mut d: DiracOperator<DMatrix<Complex64>, f64> = DiracOperator::new(diagonal(&[1.0, -2.0, 3.0]));
    assert_eq!(d.kernel_dim(diagonalise, |l: &f64| l.abs() < 1e-10), 0);
}
