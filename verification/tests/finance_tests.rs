use volesti_rs::finance::copula::{
    copula_counts, in_down_band, in_up_band, slice_index, CRISIS_BAND_WIDTH, CRISIS_PORTFOLIOS,
    CRISIS_SLICES,
};
use volesti_rs::finance::portfolio::{cross_sectional_ranks, PORTFOLIO_BURN_IN, PORTFOLIO_THINNING};
use volesti_rs::ordering::order_key;

fn key(x: f64) -> i64 {
    order_key(x.to_bits()).unwrap()
}

#[test]
fn test_order_key_follows_float_order() {
    let values = [f64::NEG_INFINITY, -3.5, -1e-300, -0.0, 0.0, 1e-310, 0.25, 7.0, f64::INFINITY];
    for a in values {
        for b in values {
            assert_eq!(key(a) <= key(b), a <= b, "{} {}", a, b);
            assert_eq!(key(a) == key(b), a == b, "{} {}", a, b);
        }
    }
    assert_eq!(key(-0.0), 0);
    assert_eq!(order_key(f64::NAN.to_bits()), None);
    assert_eq!(order_key((-f64::NAN).to_bits()), None);
}

#[test]
fn test_slice_index() {
    let boundaries = vec![10, 20, 30];
    assert_eq!(slice_index(5, &boundaries), 0);
    assert_eq!(slice_index(10, &boundaries), 1);
    assert_eq!(slice_index(29, &boundaries), 2);
    assert_eq!(slice_index(30, &boundaries), 3);
    assert_eq!(slice_index(99, &Vec::new()), 0);
}

#[test]
fn test_copula_counts_small() {
    let s1 = vec![3, 1, 2, 4];
    let s2 = vec![10, 40, 20, 30];
    // Two slices, cut at position floor(1 * 0.5 * 4) = 2 of the sorted scores.
    let counts = copula_counts(&s1, &s2, &vec![2], 2, 4);
    assert_eq!(counts, vec![vec![1, 1], vec![1, 1]]);
}

#[test]
fn test_copula_counts_sum_to_sample_count() {
    let n = 1000usize;
    let s1: Vec<i64> = (0..n as i64).map(|i| (i * 7919) % 1009 - 500).collect();
    let s2: Vec<i64> = (0..n as i64).map(|i| (i * 104729) % 997).collect();
    let slices = 10usize;
    let cuts: Vec<usize> = (1..slices).map(|i| i * n / slices).collect();
    let counts = copula_counts(&s1, &s2, &cuts, slices, n);
    assert_eq!(counts.len(), slices);
    let total: usize = counts.iter().flat_map(|r| r.iter()).sum();
    assert_eq!(total, n, "Grid sum = {}", total);
}

#[test]
fn test_copula_counts_only_first_samples() {
    let s1 = vec![1, 2, 3, 4];
    let s2 = vec![1, 2, 3, 4];
    let counts = copula_counts(&s1, &s2, &vec![2], 2, 2);
    assert_eq!(counts, vec![vec![2, 0], vec![0, 0]]);
    let empty = copula_counts(&Vec::new(), &Vec::new(), &Vec::new(), 0, 0);
    assert!(empty.is_empty());
}

#[test]
fn test_bands() {
    // 5 by 5 grid, up diagonal i + j == 4, down diagonal i == j.
    assert!(in_up_band(0, 4, 5, 0));
    assert!(!in_up_band(0, 3, 5, 0));
    assert!(in_up_band(0, 3, 5, 1));
    assert!(in_up_band(4, 4, 5, 4));
    assert!(!in_up_band(4, 4, 5, 3));
    assert!(in_down_band(2, 2, 0));
    assert!(!in_down_band(0, 2, 1));
    assert!(in_down_band(3, 1, 2));
}

#[test]
fn test_constants() {
    assert_eq!(CRISIS_PORTFOLIOS, 10_000);
    assert_eq!(CRISIS_SLICES, 100);
    assert_eq!(CRISIS_BAND_WIDTH, 10);
    assert_eq!(PORTFOLIO_BURN_IN, 500);
    assert_eq!(PORTFOLIO_THINNING, 5);
}

#[test]
fn test_cross_sectional_ranks() {
    let keys = vec![Some(3), Some(1), None, Some(3), Some(-2)];
    assert_eq!(cross_sectional_ranks(&keys), vec![4, 2, 0, 4, 1]);
    let returns = [0.01, 0.02, -0.01, 0.03, 0.005];
    let keys: Vec<Option<i64>> = returns.iter().map(|r: &f64| order_key(r.to_bits())).collect();
    let ranks = cross_sectional_ranks(&keys);
    assert_eq!(ranks, vec![3, 4, 1, 5, 2]);
    for r in ranks {
        let score = r as f64 / returns.len() as f64;
        assert!(score >= 0.0 && score <= 1.0, "Score out of range: {}", score);
    }
}

#[test]
fn test_copula_swap_transposes() {
    let n = 300usize;
    let s1: Vec<i64> = (0..n as i64).map(|i| (i * 7919) % 307 - 150).collect();
    let s2: Vec<i64> = (0..n as i64).map(|i| (i * 104729) % 293).collect();
    let slices = 6usize;
    let cuts: Vec<usize> = (1..slices).map(|i| i * n / slices).collect();
    let forward = copula_counts(&s1, &s2, &cuts, slices, n);
    let swapped = copula_counts(&s2, &s1, &cuts, slices, n);
    for r in 0..slices {
        for c in 0..slices {
            assert_eq!(swapped[r][c], forward[c][r]);
        }
    }
}
