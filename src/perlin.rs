//! The lattice permutations behind Perlin noise: three random orderings of
//! the lattice points, combined into an index into the table of random
//! values at each lattice corner.
use vstd::prelude::*;
use crate::rt_weekend::random_int;

verus! {

broadcast use {vstd::seq_lib::group_to_multiset_ensures, vstd::multiset::group_multiset_axioms};

pub const POINT_COUNT: u32 = 256;

/// The points `0, 1, ..., n - 1` in order.
pub open spec fn identity_perm(n: nat) -> Seq<u32> {
    Seq::new(n, |k: int| k as u32)
}

/// `p` orders the lattice points `0 .. POINT_COUNT`, each exactly once.
pub open spec fn is_lattice_perm(p: Seq<u32>) -> bool {
    &&& p.len() == POINT_COUNT
    &&& p.to_multiset() == identity_perm(POINT_COUNT as nat).to_multiset()
}

/// The entry that a lattice coordinate selects: its low eight bits.
pub open spec fn wrap(c: i32) -> int {
    (c & 255i32) as int
}

pub struct PerlinPermutations {
    pub perm_x: Vec<u32>,
    pub perm_y: Vec<u32>,
    pub perm_z: Vec<u32>,
}

/// `s` with the entries at `a` and `b` exchanged.
pub open spec fn swap_entries(s: Seq<u32>, a: int, b: int) -> Seq<u32> {
    s.update(a, s[b]).update(b, s[a])
}

/// The Fisher-Yates shuffle of `s` for positions `i, i - 1, ..., 1`: the
/// entry at each position `k` is exchanged with the one at `targets[k]`.
pub open spec fn shuffled(s: Seq<u32>, i: int, targets: Seq<u32>) -> Seq<u32>
    decreases i,
{
    if i <= 0 {
        s
    } else {
        shuffled(swap_entries(s, i, targets[i] as int), i - 1, targets)
    }
}

/// Swaps at positions below `n` keep the entries and leave the rest.
proof fn lemma_shuffled_permutes(s: Seq<u32>, i: int, n: int, targets: Seq<u32>)
    requires
        i < n <= s.len(),
        i < targets.len(),
        forall|k: int| 0 < k <= i ==> #[trigger] targets[k] <= k,
    ensures
        shuffled(s, i, targets).len() == s.len(),
        shuffled(s, i, targets).to_multiset() == s.to_multiset(),
        forall|k: int| n <= k < s.len() ==> #[trigger] shuffled(s, i, targets)[k] == s[k],
    decreases i,
{
    if i > 0 {
        let t = targets[i] as int;
        let s1 = s.update(i, s[t]);
        vstd::seq_lib::to_multiset_update(s, i, s[t]);
        vstd::seq_lib::to_multiset_update(s1, t, s[i]);
        assert(swap_entries(s, i, t).to_multiset() =~= s.to_multiset());
        lemma_shuffled_permutes(swap_entries(s, i, t), i - 1, n, targets);
    }
}

/// Shuffles the first `n` entries of `p` by the swaps that `targets`
/// chooses, position `n - 1` first; other entries stay.
pub fn permute_with(p: &mut Vec<u32>, n: u32, targets: &Vec<u32>)
    requires
        n as int <= old(p).len(),
        n as int <= targets.len(),
        forall|k: int| 0 < k < n ==> #[trigger] targets@[k] <= k,
    ensures
        final(p)@ == shuffled(old(p)@, n - 1, targets@),
{
    if n == 0 {
        return;
    }
    let mut i: u32 = n - 1;
    while i > 0
        invariant
            i < n,
            n as int <= p.len(),
            n as int <= targets.len(),
            forall|k: int| 0 < k < n ==> #[trigger] targets@[k] <= k,
            shuffled(old(p)@, n - 1, targets@) == shuffled(p@, i as int, targets@),
        decreases i,
    {
        let target = targets[i as usize];
        let a = p[i as usize];
        let b = p[target as usize];
        p.set(i as usize, b);
        p.set(target as usize, a);
        i -= 1;
    }
}

/// Shuffles the first `n` entries of `p` in place by random swaps,
/// leaving the others.
pub fn permute(p: &mut Vec<u32>, n: u32)
    requires
        n as int <= old(p).len(),
    ensures
        exists|targets: Seq<u32>|
            targets.len() == n && (forall|k: int| 0 < k < n ==> #[trigger] targets[k] <= k)
                && final(p)@ == shuffled(old(p)@, n - 1, targets),
        final(p).len() == old(p).len(),
        final(p)@.to_multiset() == old(p)@.to_multiset(),
        forall|k: int| n <= k < old(p).len() ==> final(p)@[k] == old(p)@[k],
{
    let mut targets: Vec<u32> = Vec::with_capacity(n as usize);
    let mut i: u32 = 0;
    while i < n
        invariant
            i <= n,
            targets.len() == i,
            forall|k: int| 0 < k < i ==> #[trigger] targets@[k] <= k,
        decreases n - i,
    {
        targets.push(random_int(0, i));
        i += 1;
    }
    let ghost before = p@;
    permute_with(p, n, &targets);
    proof {
        if n > 0 {
            lemma_shuffled_permutes(before, n - 1, n as int, targets@);
        }
    }
}

/// A random ordering of the lattice points.
pub fn perlin_generate_perm() -> (r: Vec<u32>)
    ensures
        is_lattice_perm(r@),
{
    let mut p: Vec<u32> = Vec::with_capacity(POINT_COUNT as usize);
    let mut i: u32 = 0;
    while i < POINT_COUNT
        invariant
            i <= POINT_COUNT,
            p@ == identity_perm(i as nat),
        decreases POINT_COUNT - i,
    {
        p.push(i);
        i += 1;
        assert(p@ =~= identity_perm(i as nat));
    }
    permute(&mut p, POINT_COUNT);
    p
}

/// Every entry of a lattice permutation is a lattice point.
pub proof fn lemma_lattice_perm_bounded(p: Seq<u32>)
    requires
        is_lattice_perm(p),
    ensures
        forall|k: int| 0 <= k < p.len() ==> #[trigger] p[k] < POINT_COUNT,
{
    assert forall|k: int| 0 <= k < p.len() implies #[trigger] p[k] < POINT_COUNT by {
        let id = identity_perm(POINT_COUNT as nat);
        assert(p.contains(p[k]));
        assert(id.to_multiset().count(p[k]) > 0);
        let w = choose|w: int| 0 <= w < id.len() && id[w] == p[k];
        assert(id[w] < POINT_COUNT);
    }
}

impl PerlinPermutations {
    pub open spec fn wf(&self) -> bool {
        &&& is_lattice_perm(self.perm_x@)
        &&& is_lattice_perm(self.perm_y@)
        &&& is_lattice_perm(self.perm_z@)
    }

    pub fn new() -> (r: Self)
        ensures
            r.wf(),
    {
        PerlinPermutations {
            perm_x: perlin_generate_perm(),
            perm_y: perlin_generate_perm(),
            perm_z: perlin_generate_perm(),
        }
    }

    /// The entry of the random-value table for the lattice corner `(i, j, k)`.
    pub fn hash(&self, i: i32, j: i32, k: i32) -> (r: usize)
        requires
            self.wf(),
        ensures
            r == (self.perm_x@[wrap(i)] ^ self.perm_y@[wrap(j)] ^ self.perm_z@[wrap(k)]),
            r < POINT_COUNT,
    {
        proof {
            lemma_lattice_perm_bounded(self.perm_x@);
            lemma_lattice_perm_bounded(self.perm_y@);
            lemma_lattice_perm_bounded(self.perm_z@);
        }
        assert(0 <= (i & 255i32) < 256) by (bit_vector);
        assert(0 <= (j & 255i32) < 256) by (bit_vector);
        assert(0 <= (k & 255i32) < 256) by (bit_vector);
        let a = self.perm_x[(i & 255) as usize];
        let b = self.perm_y[(j & 255) as usize];
        let c = self.perm_z[(k & 255) as usize];
        assert(a < 256 && b < 256 && c < 256 ==> (a ^ b ^ c) < 256) by (bit_vector);
        (a ^ b ^ c) as usize
    }
}

} // verus!
