use lau_connes_spectral_triple::algebra::CStarAlgebra;
use nalgebra::DMatrix;
use num_complex::Complex64;

fn unit(n: usize, i: usize) -> DMatrix<Complex64> {
    let mut m = DMatrix::zeros(n, n);
    m[(i, i)] = Complex64::new(1.0, 0.0);
    m
}

fn commutes(a: &DMatrix<Complex64>, b: &DMatrix<Complex64>, tol: f64) -> bool {
    (a * b - b * a).norm() < tol
}

#[test]
fn test_commutative_algebra() {
    let alg = CStarAlgebra::commutative(3, unit);
    assert!(alg.is_commutative(|a, b| commutes(a, b, 1e-10)));
}

#[test]
fn test_full_matrix_algebra_dim() {
    let alg: CStarAlgebra<DMatrix<Complex64>> = CStarAlgebra::full_matrix_algebra(5);
    assert_eq!(alg.dim(), 5);
}

#[test]
fn full_matrix_algebra_has_no_generators() {
    let alg: CStarAlgebra<u32> = CStarAlgebra::full_matrix_algebra(4);
    assert_eq!(alg.num_generators(), 0);
    assert!(alg.generators().is_empty());
}

#[test]
fn commutative_generators_are_the_diagonal_units() {
    let alg = CStarAlgebra::commutative(4, |n, i| (n, i));
    assert_eq!(alg.dim(), 4);
    assert_eq!(alg.num_generators(), 4);
    assert_eq!(alg.generators().to_vec(), vec![(4, 0), (4, 1), (4, 2), (4, 3)]);
}

#[test]
fn new_keeps_dimension_and_generators() {
    let alg = CStarAlgebra::new(7, vec![10u8, 20, 30]);
    assert_eq!(alg.dim(), 7);
    assert_eq!(alg.generators(), &[10u8, 20, 30][..]);
}

#[test]
fn noncommuting_generators_are_detected() {
    let mut m1 = DMatrix::zeros(2, 2);
    m1[(0, 0)] = Complex64::new(0.0, 1.0);
    let mut m2 = DMatrix::zeros(2, 2);
    m2[(1, 0)] = Complex64::new(1.0, 0.0);
    let alg = CStarAlgebra::new(2, vec![m1, m2]);
    assert!(!alg.is_commutative(|a, b| commutes(a, b, 1e-10)));
}

#[test]
fn commutativity_checks_each_pair_once_in_order() {
    let alg = CStarAlgebra::new(3, vec![0usize, 1, 2, 3]);
    let seen = std::cell::RefCell::new(Vec::new());
    let all = alg.is_commutative(|a, b| {
        seen.borrow_mut().push((*a, *b));
        true
    });
    assert!(all);
    assert_eq!(seen.into_inner(), vec![(0, 1), (0, 2), (0, 3), (1, 2), (1, 3), (2, 3)]);
}

#[test]
fn commutativity_stops_at_first_failing_pair() {
    let alg = CStarAlgebra::new(3, vec![0usize, 1, 2, 3]);
    let seen = std::cell::RefCell::new(Vec::new());
    let all = alg.is_commutative(|a, b| {
        seen.borrow_mut().push((*a, *b));
        !(*a == 0 && *b == 2)
    });
    assert!(!all);
    assert_eq!(seen.into_inner(), vec![(0, 1), (0, 2)]);
}

#[test]
fn center_element_is_the_identity_of_the_dimension() {
    let alg = CStarAlgebra::commutative(3, unit);
    let c = alg.center_element(|n| DMatrix::<Complex64>::identity(n, n));
    assert_eq!(c, DMatrix::<Complex64>::identity(3, 3));
}
