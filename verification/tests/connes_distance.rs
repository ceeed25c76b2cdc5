use lau_connes_spectral_triple::connes_distance::{
    default_hash, distance, find_basis_index, metric_matrix, random_observable_seeds, verify_symmetry,
    verify_triangle_inequality,
};
use nalgebra::DVector;
use std::collections::hash_map::DefaultHasher;
use std::hash::{Hash, Hasher};
use num_complex::Complex64;

fn flat_spectrum(dim: usize) -> Vec<f64> {
    let half = (dim as f64 - 1.0) / 2.0;
    (0..dim).map(|i| half - i as f64).collect()
}

/// Distance between the basis states |i⟩ and |j⟩ for the diagonal Dirac
/// operator with spectrum `ev`: the shortest chain of steps |λ_a - λ_b|^{-1}
/// (zero for equal eigenvalues) from i to j.
fn basis_distance(ev: &[f64], i: usize, j: usize) -> f64 {
    let n = ev.len();
    let step = |a: usize, b: usize| {
        let diff = (ev[a] - ev[b]).abs();
        if diff < 1e-15 { 0.0 } else { 1.0 / diff }
    };
    let mut dist = vec![f64::INFINITY; n];
    let mut done = vec![false; n];
    dist[i] = 0.0;
    for _ in 0..n {
        let mut next: Option<usize> = None;
        for v in 0..n {
            if !done[v] && next.map_or(true, |w| dist[v] < dist[w]) {
                next = Some(v);
            }
        }
        let u = match next {
            Some(u) => u,
            None => break,
        };
        done[u] = true;
        for v in 0..n {
            let via = dist[u] + step(u, v);
            if via < dist[v] {
                dist[v] = via;
            }
        }
    }
    dist[j]
}

fn large_entries(v: &DVector<Complex64>) -> Vec<bool> {
    v.iter().map(|c| c.norm() > 0.5).collect()
}

fn basis(dim: usize, i: usize) -> DVector<Complex64> {
    let mut v = DVector::zeros(dim);
    v[i] = Complex64::new(1.0, 0.0);
    v
}

/// Distance between states for the diagonal Dirac operator with spectrum `ev`.
fn connes(ev: &[f64], p: &DVector<Complex64>, q: &DVector<Complex64>) -> f64 {
    distance(&large_entries(p), &large_entries(q), |i, j| basis_distance(ev, i, j), || f64::NAN)
}

fn metric(ev: &[f64]) -> Vec<Vec<f64>> {
    let n = ev.len();
    metric_matrix(n, |i, j| connes(ev, &basis(n, i), &basis(n, j)))
}

#[test]
fn test_distance_self() {
    let ev = flat_spectrum(3);
    let p = basis(3, 0);
    assert!(connes(&ev, &p, &p).abs() < 1e-10);
}

#[test]
fn test_distance_symmetry() {
    let ev = flat_spectrum(3);
    let p = basis(3, 0);
    let q = basis(3, 1);
    assert!((connes(&ev, &p, &q) - connes(&ev, &q, &p)).abs() < 1e-10);
}

#[test]
fn test_distance_eigenvalue_gap() {
    // D with eigenvalues 0, 1: distance between |0⟩ and |1⟩ = 1/|0-1| = 1
    let ev = vec![0.0, 1.0];
    let p = basis(2, 0);
    let q = basis(2, 1);
    assert!((connes(&ev, &p, &q) - 1.0).abs() < 1e-10);
}

#[test]
fn non_basis_states_use_the_numerical_estimate() {
    let p = DVector::from_element(2, Complex64::new(1.0 / 2f64.sqrt(), 0.0));
    let q = basis(2, 1);
    let d = distance(&large_entries(&p), &large_entries(&q), |_, _| 1.0, || 7.5);
    assert_eq!(d, 7.5);
    let d = distance(&large_entries(&q), &large_entries(&q), |i, j| (10 * i + j) as f64, || 7.5);
    assert_eq!(d, 11.0);
}

#[test]
fn basis_state_is_found() {
    let mut v = DVector::zeros(4);
    v[2] = Complex64::new(1.0, 0.0);
    assert_eq!(find_basis_index(&large_entries(&v)), Some(2));
}

#[test]
fn superposition_is_not_a_basis_state() {
    let v = DVector::from_element(4, Complex64::new(0.5, 0.0));
    assert_eq!(find_basis_index(&large_entries(&v)), None);
    let w = DVector::from_element(2, Complex64::new(1.0 / 2f64.sqrt(), 0.0));
    assert_eq!(find_basis_index(&large_entries(&w)), None);
}

#[test]
fn zero_vector_is_not_a_basis_state() {
    let v: DVector<Complex64> = DVector::zeros(3);
    assert_eq!(find_basis_index(&large_entries(&v)), None);
    assert_eq!(find_basis_index(&[]), None);
}

#[test]
fn test_metric_matrix() {
    let m = metric(&flat_spectrum(3));
    assert!(m[0][0].abs() < 1e-10);
    assert!(m[1][1].abs() < 1e-10);
}

#[test]
fn test_positive_definiteness() {
    let m = metric(&flat_spectrum(4));
    for i in 0..m.len() {
        for j in 0..m.len() {
            assert!(m[i][j] >= -1e-10);
            if i == j {
                assert!(m[i][j].abs() < 1e-10);
            }
        }
    }
}

#[test]
fn metric_matrix_entries_are_the_distances() {
    let m = metric_matrix(3, |i, j| 10 * i + j);
    assert_eq!(m, vec![vec![0, 1, 2], vec![10, 11, 12], vec![20, 21, 22]]);
}

#[test]
fn test_symmetry_property() {
    let m = metric(&flat_spectrum(4));
    assert!(verify_symmetry(&m, |a: &f64, b: &f64| (a - b).abs() > 1e-10));
}

#[test]
fn asymmetric_table_is_detected() {
    let m = vec![vec![0.0, 1.0], vec![2.0, 0.0]];
    assert!(!verify_symmetry(&m, |a: &f64, b: &f64| (a - b).abs() > 1e-10));
}

#[test]
fn euclidean_distances_satisfy_the_triangle_inequality() {
    let pts: [f64; 4] = [0.0, 1.0, 3.0, 7.0];
    let m = metric_matrix(4, |i, j| (pts[i] - pts[j]).abs());
    assert!(verify_triangle_inequality(&m, |dij: &f64, dik: &f64, dkj: &f64| *dij > dik + dkj + 1e-8));
}

#[test]
fn test_triangle_inequality() {
    let m = metric(&flat_spectrum(4));
    assert!(verify_triangle_inequality(&m, |dij: &f64, dik: &f64, dkj: &f64| *dij > dik + dkj + 1e-8));
}

#[test]
fn triangle_violation_is_detected() {
    let m: Vec<Vec<f64>> = vec![vec![0.0, 3.0, 1.0], vec![3.0, 0.0, 1.0], vec![1.0, 1.0, 0.0]];
    assert!(!verify_triangle_inequality(&m, |dij: &f64, dik: &f64, dkj: &f64| *dij > dik + dkj + 1e-8));
}

#[test]
fn chains_of_steps_shorten_basis_distances() {
    // Flat spectrum (1.5, 0.5, -0.5, -1.5): the direct step from |0⟩ to |1⟩
    // has length 1, the chain through |3⟩ has length 1/3 + 1/2.
    let ev = flat_spectrum(4);
    assert!((connes(&ev, &basis(4, 0), &basis(4, 1)) - (1.0 / 3.0 + 0.5)).abs() < 1e-12);
    assert!((connes(&ev, &basis(4, 0), &basis(4, 3)) - 1.0 / 3.0).abs() < 1e-12);
}

#[test]
fn empty_table_passes_both_checks() {
    let m: Vec<Vec<f64>> = Vec::new();
    assert!(verify_symmetry(&m, |_: &f64, _: &f64| true));
    assert!(verify_triangle_inequality(&m, |_: &f64, _: &f64, _: &f64| true));
}

#[test]
fn observable_seeds_are_symmetric() {
    let n = 5;
    let seeds = random_observable_seeds(n, default_hash);
    assert_eq!(seeds.len(), n * n);
    for i in 0..n {
        for j in 0..n {
            assert_eq!(seeds[i * n + j], seeds[j * n + i]);
        }
    }
}

#[test]
fn observable_seeds_are_low_bits_of_the_default_hash() {
    let n = 3;
    let seeds = random_observable_seeds(n, default_hash);
    for i in 0..n {
        for j in i..n {
            let mut h = DefaultHasher::new();
            (i * n + j + 1).hash(&mut h);
            assert_eq!(seeds[i * n + j] as u64, h.finish() & 0xFFFF);
        }
    }
    assert!(random_observable_seeds(0, default_hash).is_empty());
}

#[test]
fn observable_seeds_hash_the_upper_triangle_keys() {
    let n = 3;
    let seeds = random_observable_seeds(n, |k| k as u64 + 0x1_0000);
    assert_eq!(seeds, vec![1, 2, 3, 2, 5, 6, 3, 6, 9]);
}

#[test]
fn default_hash_hashes_the_native_bytes_of_the_key() {
    let key = 123_456usize;
    let mut h = DefaultHasher::new();
    h.write(&key.to_ne_bytes());
    assert_eq!(default_hash(key), h.finish());
    assert_ne!(default_hash(key), default_hash(key + 1));
}

#[test]
fn default_hash_is_the_hasher_of_the_key() {
    let mut h = DefaultHasher::new();
    42usize.hash(&mut h);
    assert_eq!(default_hash(42), h.finish());
}
