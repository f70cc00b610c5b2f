use raytracer::perlin::{perlin_generate_perm, permute, permute_with, PerlinPermutations, POINT_COUNT};

fn is_permutation_of_lattice(p: &[u32]) -> bool {
    let mut sorted = p.to_vec();
    sorted.sort();
    sorted == (0..POINT_COUNT).collect::<Vec<u32>>()
}

#[test]
fn generated_permutation_holds_each_point_once() {
    for _ in 0..20 {
        let p = perlin_generate_perm();
        assert_eq!(p.len(), 256);
        assert!(is_permutation_of_lattice(&p));
    }
}

#[test]
fn permute_keeps_entries_and_tail() {
    let mut p: Vec<u32> = vec![10, 20, 30, 40, 50, 60];
    permute(&mut p, 4);
    assert_eq!(p[4], 50);
    assert_eq!(p[5], 60);
    let mut head = p[..4].to_vec();
    head.sort();
    assert_eq!(head, vec![10, 20, 30, 40]);
}

#[test]
fn permute_of_zero_or_one_leaves_vector() {
    let mut p: Vec<u32> = vec![3, 1, 2];
    permute(&mut p, 0);
    assert_eq!(p, vec![3, 1, 2]);
    permute(&mut p, 1);
    assert_eq!(p, vec![3, 1, 2]);
}

#[test]
fn hash_combines_low_bits_of_each_coordinate() {
    let perms = PerlinPermutations::new();
    for &(i, j, k) in &[(0, 0, 0), (1, 2, 3), (-1, -2, -3), (256, 511, -256), (i32::MAX, i32::MIN, 77)] {
        let expected = perms.perm_x[(i & 255) as usize]
            ^ perms.perm_y[(j & 255) as usize]
            ^ perms.perm_z[(k & 255) as usize];
        let h = perms.hash(i, j, k);
        assert_eq!(h, expected as usize);
        assert!(h < 256);
    }
}

#[test]
fn hash_with_identity_tables() {
    let id: Vec<u32> = (0..256).collect();
    let perms = PerlinPermutations { perm_x: id.clone(), perm_y: id.clone(), perm_z: id };
    assert_eq!(perms.hash(1, 2, 4), 7);
    assert_eq!(perms.hash(-1, 0, 0), 255);
    assert_eq!(perms.hash(3, 3, 0), 0);
}

#[test]
fn permute_with_applies_swaps_from_the_top() {
    let mut p: Vec<u32> = vec![0, 1, 2, 3];
    permute_with(&mut p, 4, &vec![0, 0, 1, 1]);
    assert_eq!(p, vec![2, 0, 3, 1]);
}

#[test]
fn permute_with_self_targets_is_identity() {
    let mut p: Vec<u32> = vec![5, 6, 7, 8, 9];
    permute_with(&mut p, 5, &vec![0, 1, 2, 3, 4]);
    assert_eq!(p, vec![5, 6, 7, 8, 9]);
}

#[test]
fn permute_with_leaves_entries_past_n() {
    let mut p: Vec<u32> = vec![1, 2, 3, 4];
    permute_with(&mut p, 2, &vec![0, 0]);
    assert_eq!(p, vec![2, 1, 3, 4]);
}

#[test]
fn generated_permutations_are_shuffled() {
    let identity: Vec<u32> = (0..POINT_COUNT).collect();
    let first = perlin_generate_perm();
    let shuffled = (0..5).any(|_| perlin_generate_perm() != identity);
    assert!(shuffled);
    let differ = (0..5).any(|_| perlin_generate_perm() != first);
    assert!(differ);
}
