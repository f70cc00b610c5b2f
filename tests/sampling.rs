use raytracer::sampling::samples_per_worker;

#[test]
fn even_split_gives_equal_shares() {
    let shares = samples_per_worker(1080, 18);
    assert_eq!(shares, vec![60; 18]);
}

#[test]
fn remainder_goes_to_first_workers() {
    assert_eq!(samples_per_worker(10, 4), vec![3, 3, 2, 2]);
    assert_eq!(samples_per_worker(3, 5), vec![1, 1, 1, 0, 0]);
}

#[test]
fn shares_always_sum_to_total() {
    for total in [0u32, 1, 7, 100, 10_000, u32::MAX] {
        for workers in [1u32, 2, 3, 18, 64] {
            let shares = samples_per_worker(total, workers);
            assert_eq!(shares.len(), workers as usize);
            assert_eq!(shares.iter().map(|&s| s as u64).sum::<u64>(), total as u64);
        }
    }
}
