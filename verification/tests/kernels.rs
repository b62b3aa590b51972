use bench_kernels::blur::gaussian_blur;
use bench_kernels::butterfly::butterfly_plan;
use bench_kernels::butterfly::is_pow2;
use bench_kernels::kmeans::k_means_clustering;
use bench_kernels::sieve::prime_sieve;
use bench_kernels::sort::sort_array;

fn is_prime_trial_division(n: usize) -> bool {
    if n < 2 {
        return false;
    }
    let mut d: usize = 2;
    while d < n {
        if n % d == 0 {
            return false;
        }
        d += 1;
    }
    true
}

#[test]
fn sieve_end_to_end_limit_10() {
    let flags = prime_sieve(10);
    assert_eq!(flags, vec![0, 0, 1, 1, 0, 1, 0, 1, 0, 0]);
}

#[test]
fn sieve_matches_trial_division_up_to_10000() {
    let flags = prime_sieve(10_000);
    assert_eq!(flags.len(), 10_000);
    for n in 0..10_000 {
        let expected = if is_prime_trial_division(n) { 1 } else { 0 };
        assert_eq!(flags[n], expected, "index {}", n);
    }
}

#[test]
fn sieve_tiny_limits() {
    assert_eq!(prime_sieve(0), Vec::<u8>::new());
    assert_eq!(prime_sieve(1), vec![0]);
    assert_eq!(prime_sieve(2), vec![0, 0]);
    assert_eq!(prime_sieve(3), vec![0, 0, 1]);
}

#[test]
fn sort_end_to_end_example() {
    let out = sort_array(&vec![5, 3, 8, 1]);
    assert_eq!(out, vec![1, 3, 5, 8]);
}

#[test]
fn sort_empty_returns_empty() {
    let out = sort_array(&Vec::new());
    assert_eq!(out, Vec::<i32>::new());
}

#[test]
fn sort_already_sorted_is_noop() {
    let input = vec![-4, -4, 0, 1, 2, 2, 9];
    let out = sort_array(&input);
    assert_eq!(out, input);
}

#[test]
fn sort_is_idempotent() {
    let input = vec![9, -3, 7, 7, -3, 0, 12, i32::MIN, i32::MAX];
    let once = sort_array(&input);
    let twice = sort_array(&once);
    assert_eq!(twice, once);
}

#[test]
fn sort_keeps_duplicates() {
    let out = sort_array(&vec![2, 1, 2, 1, 2]);
    assert_eq!(out, vec![1, 1, 2, 2, 2]);
}

#[test]
fn kmeans_zero_iterations_returns_first_k_points() {
    let points = vec![3, 4, -5, 6, 7, 8, 9, 10];
    let centroids = k_means_clustering(&points, 3, 0);
    assert_eq!(centroids, vec![3, 4, -5, 6, 7, 8]);
}

#[test]
fn kmeans_end_to_end_example() {
    // The points (0,0), (0,1), (10,10), (10,11) scaled by 2 so that the
    // half-integer means stay exact. The centroids are seeded with the
    // first two points, so round one still lumps (0,1) in with the far
    // cluster's points; round two reaches the true cluster means
    // (0, 0.5) and (10, 10.5), which is (0, 1) and (20, 21) in the
    // doubled coordinates.
    let points = vec![0, 0, 0, 2, 20, 20, 20, 22];
    assert_eq!(k_means_clustering(&points, 2, 1), vec![0, 0, 13, 14]);
    assert_eq!(k_means_clustering(&points, 2, 2), vec![0, 1, 20, 21]);
}

#[test]
fn kmeans_well_separated_clusters_are_stable() {
    let points = vec![0, 0, 0, 2, 20, 20, 20, 22];
    let after_two = k_means_clustering(&points, 2, 2);
    let after_five = k_means_clustering(&points, 2, 5);
    assert_eq!(after_two, vec![0, 1, 20, 21]);
    assert_eq!(after_five, after_two);
}

#[test]
fn kmeans_empty_cluster_keeps_centroid() {
    // Both centroids start at (0,0); ties go to the lower index, so the
    // second cluster receives no points and must keep its position.
    let points = vec![0, 0, 0, 0, 10, 10];
    let centroids = k_means_clustering(&points, 2, 1);
    assert_eq!(centroids, vec![3, 3, 0, 0]);
}

#[test]
fn kmeans_every_point_its_own_cluster() {
    // With k equal to the number of points, every point is nearest the
    // centroid seeded from itself, so the centroids never move.
    let points = vec![1, 2, 30, 40, -5, -6];
    let centroids = k_means_clustering(&points, 3, 4);
    assert_eq!(centroids, points);
}

#[test]
fn kmeans_tie_break_prefers_lowest_index() {
    // The point (5,0) is equally far from (0,0) and (10,0): it joins the
    // first centroid.
    let points = vec![0, 0, 10, 0, 5, 0];
    let centroids = k_means_clustering(&points, 2, 1);
    assert_eq!(centroids, vec![2, 0, 10, 0]);
}

#[test]
fn butterfly_plan_of_one_sample_is_empty() {
    assert_eq!(butterfly_plan(1).len(), 0);
}

#[test]
fn butterfly_plan_of_eight_samples() {
    let plan = butterfly_plan(8);
    assert_eq!(plan.len(), 12);
    let triples: Vec<(usize, usize, usize, usize)> = plan
        .iter()
        .map(|s| (s.stage, s.idx1, s.idx2, s.twiddle_index))
        .collect();
    let expected = vec![
        (1, 0, 1, 0),
        (1, 2, 3, 0),
        (1, 4, 5, 0),
        (1, 6, 7, 0),
        (2, 0, 2, 0),
        (2, 1, 3, 1),
        (2, 4, 6, 0),
        (2, 5, 7, 1),
        (4, 0, 4, 0),
        (4, 1, 5, 1),
        (4, 2, 6, 2),
        (4, 3, 7, 3),
    ];
    assert_eq!(triples, expected);
}

fn run_butterfly(real: &mut Vec<f64>, imag: &mut Vec<f64>) {
    let plan = butterfly_plan(real.len());
    for step in plan.iter() {
        let angle = -2.0 * std::f64::consts::PI * (step.twiddle_index as f64)
            / (2.0 * step.stage as f64);
        let (wr, wi) = (angle.cos(), angle.sin());
        let (r2, i2) = (real[step.idx2], imag[step.idx2]);
        let (tr, ti) = (r2 * wr - i2 * wi, r2 * wi + i2 * wr);
        let (r1, i1) = (real[step.idx1], imag[step.idx1]);
        real[step.idx2] = r1 - tr;
        imag[step.idx2] = i1 - ti;
        real[step.idx1] = r1 + tr;
        imag[step.idx1] = i1 + ti;
    }
}

#[test]
fn butterfly_size_one_leaves_signal_unchanged() {
    let mut real = vec![2.5];
    let mut imag = vec![-1.5];
    run_butterfly(&mut real, &mut imag);
    assert_eq!(real, vec![2.5]);
    assert_eq!(imag, vec![-1.5]);
}

#[test]
fn butterfly_zero_signal_stays_zero() {
    let mut real = vec![0.0; 16];
    let mut imag = vec![0.0; 16];
    run_butterfly(&mut real, &mut imag);
    assert!(real.iter().all(|&v| v == 0.0));
    assert!(imag.iter().all(|&v| v == 0.0));
}

#[test]
fn power_of_two_check() {
    assert!(is_pow2(1));
    assert!(is_pow2(2));
    assert!(is_pow2(1024));
    assert!(!is_pow2(0));
    assert!(!is_pow2(3));
    assert!(!is_pow2(12));
}

#[test]
fn blur_uniform_image_keeps_red_in_interior() {
    // A 4x4 image where every pixel is (100, 7, 9, 33): interior pixels
    // become (100, 100, 100, 255) and border pixels are cleared.
    let mut data = Vec::new();
    for _ in 0..16 {
        data.extend_from_slice(&[100, 7, 9, 33]);
    }
    let out = gaussian_blur(&data, 4, 4);
    assert_eq!(out.len(), data.len());
    for y in 0..4 {
        for x in 0..4 {
            let base = 4 * (y * 4 + x);
            let interior = (1..3).contains(&x) && (1..3).contains(&y);
            if interior {
                assert_eq!(&out[base..base + 4], &[100, 100, 100, 255]);
            } else {
                assert_eq!(&out[base..base + 4], &[0, 0, 0, 0]);
            }
        }
    }
}

#[test]
fn blur_center_weighted_sum() {
    // Red channels 0..9 in a 3x3 image; the center output value is
    // (0 + 2*1 + 2 + 2*3 + 4*4 + 2*5 + 6 + 2*7 + 8) / 16 = 64 / 16 = 4.
    let mut data = Vec::new();
    for r in 0..9 {
        data.extend_from_slice(&[r, 0, 0, 0]);
    }
    let out = gaussian_blur(&data, 3, 3);
    let base = 4 * (1 * 3 + 1);
    assert_eq!(&out[base..base + 4], &[4, 4, 4, 255]);
    for p in 0..36 {
        if !(base..base + 4).contains(&p) {
            assert_eq!(out[p], 0);
        }
    }
}

#[test]
fn blur_image_without_interior_is_all_zero() {
    let data = vec![200u8; 2 * 2 * 4];
    let out = gaussian_blur(&data, 2, 2);
    assert_eq!(out, vec![0u8; 16]);
}
