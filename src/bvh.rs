//! Layout of a bounding volume hierarchy over a list of primitives.
//!
//! Each primitive is known here by its index and by the order keys of the
//! minimum corner of its bounding box, one per axis. The layout is an arena
//! of nodes, each built after its children, so a child's index is below its
//! parent's and the root is the last node.
use vstd::prelude::*;
use std::cmp::Ordering;
use crate::rt_weekend::random_int;

verus! {

broadcast use {vstd::seq_lib::group_to_multiset_ensures, vstd::multiset::group_multiset_axioms};

/// Whether the bits of a double have the sign bit set.
pub open spec fn is_negative(bits: u64) -> bool {
    bits >= 0x8000_0000_0000_0000u64
}

/// The position in the order of doubles of the value that `bits` encode,
/// for any bits that do not encode NaN: the magnitude bits, negated for a
/// negative sign. Both zeros sit at 0.
pub open spec fn float_order(bits: u64) -> int {
    if is_negative(bits) {
        0x8000_0000_0000_0000int - bits
    } else {
        bits as int
    }
}

/// The key of the bits of a double: its position in the order of doubles,
/// shifted to be unsigned. Both zeros get the same key.
pub open spec fn float_key(bits: u64) -> int {
    float_order(bits) + 0x8000_0000_0000_0000int
}

/// An unsigned key that orders the bits of doubles as their values are
/// ordered, equal values getting equal keys.
pub fn order_key(bits: u64) -> (r: u64)
    ensures
        r == float_key(bits),
{
    if bits >= 0x8000_0000_0000_0000u64 {
        0x8000_0000_0000_0000u64 - (bits - 0x8000_0000_0000_0000u64)
    } else {
        bits + 0x8000_0000_0000_0000u64
    }
}

/// Keys order the values exactly: a smaller value has a smaller key, and
/// equal values have equal keys.
pub proof fn lemma_order_key_monotone(a: u64, b: u64)
    ensures
        float_order(a) < float_order(b) <==> float_key(a) < float_key(b),
        float_order(a) == float_order(b) <==> float_key(a) == float_key(b),
{
}

/// Three-way comparison of two keys.
pub open spec fn compare_keys(a: u64, b: u64) -> Ordering {
    if a < b {
        Ordering::Less
    } else if a == b {
        Ordering::Equal
    } else {
        Ordering::Greater
    }
}

/// Compares two boxes by the keys of their minimum corners along `axis`.
pub fn box_compare(a: &[u64; 3], b: &[u64; 3], axis: u32) -> (r: Ordering)
    requires
        axis < 3,
    ensures
        r == compare_keys(a@[axis as int], b@[axis as int]),
{
    let ka = a[axis as usize];
    let kb = b[axis as usize];
    if ka < kb {
        Ordering::Less
    } else if ka == kb {
        Ordering::Equal
    } else {
        Ordering::Greater
    }
}

pub fn box_x_compare(a: &[u64; 3], b: &[u64; 3]) -> (r: Ordering)
    ensures
        r == compare_keys(a@[0], b@[0]),
{
    box_compare(a, b, 0)
}

pub fn box_y_compare(a: &[u64; 3], b: &[u64; 3]) -> (r: Ordering)
    ensures
        r == compare_keys(a@[1], b@[1]),
{
    box_compare(a, b, 1)
}

pub fn box_z_compare(a: &[u64; 3], b: &[u64; 3]) -> (r: Ordering)
    ensures
        r == compare_keys(a@[2], b@[2]),
{
    box_compare(a, b, 2)
}

/// One side of a node: a primitive, or a node of the same arena.
#[derive(Clone, Copy, Debug, PartialEq, Eq)]
pub enum BvhChild {
    Primitive(usize),
    Node(usize),
}

/// A node of the hierarchy: two sides and the axis its primitives were
/// ordered along. A node over a single primitive has it on both sides.
#[derive(Clone, Copy, Debug)]
pub struct BvhNode {
    pub left: BvhChild,
    pub right: BvhChild,
    pub axis: u32,
}

/// The primitives at or below side `c` of the node at index `parent`.
pub open spec fn child_leaves(nodes: Seq<BvhNode>, c: BvhChild, parent: int) -> Set<usize>
    decreases parent, 0int,
{
    match c {
        BvhChild::Primitive(p) => set![p],
        BvhChild::Node(m) => if m < parent {
            node_leaves(nodes, m as int)
        } else {
            Set::empty()
        },
    }
}

/// The primitives below the node at index `m`.
pub open spec fn node_leaves(nodes: Seq<BvhNode>, m: int) -> Set<usize>
    decreases m, 1int,
{
    if 0 <= m < nodes.len() {
        child_leaves(nodes, nodes[m].left, m).union(child_leaves(nodes, nodes[m].right, m))
    } else {
        Set::empty()
    }
}

/// Node `m` stands for a single primitive, which it holds on both sides.
pub open spec fn is_single(nodes: Seq<BvhNode>, m: int) -> bool {
    nodes[m].left == nodes[m].right && nodes[m].left is Primitive
}

/// How many primitives side `c` of the node at index `parent` holds.
pub open spec fn child_size(nodes: Seq<BvhNode>, c: BvhChild, parent: int) -> nat
    decreases parent, 0int,
{
    match c {
        BvhChild::Primitive(_) => 1,
        BvhChild::Node(m) => if m < parent {
            node_size(nodes, m as int)
        } else {
            0
        },
    }
}

/// How many primitives the node at index `m` holds.
pub open spec fn node_size(nodes: Seq<BvhNode>, m: int) -> nat
    decreases m, 1int,
{
    if 0 <= m < nodes.len() {
        if is_single(nodes, m) {
            1
        } else {
            child_size(nodes, nodes[m].left, m) + child_size(nodes, nodes[m].right, m)
        }
    } else {
        0
    }
}

/// The left side of node `m` holds the lower half of its primitives, the
/// right side the rest.
pub open spec fn node_halved(nodes: Seq<BvhNode>, m: int) -> bool {
    node_size(nodes, m) >= 2 ==> child_size(nodes, nodes[m].left, m) == node_size(nodes, m) / 2
}

/// A node over exactly two primitives holds both directly, the one with the
/// smaller key along its axis on the left.
pub open spec fn node_pair_direct(nodes: Seq<BvhNode>, keys: Seq<[u64; 3]>, m: int) -> bool {
    node_size(nodes, m) == 2 ==> match (nodes[m].left, nodes[m].right) {
        (BvhChild::Primitive(p), BvhChild::Primitive(q)) => key_of(keys, p, nodes[m].axis)
            <= key_of(keys, q, nodes[m].axis),
        _ => false,
    }
}

/// Side `c` of node `m` names one of `n` primitives or an earlier node.
pub open spec fn child_ok(c: BvhChild, m: int, n: nat) -> bool {
    match c {
        BvhChild::Primitive(p) => p < n,
        BvhChild::Node(d) => d < m,
    }
}

/// The key of primitive `p` along `axis`.
pub open spec fn key_of(keys: Seq<[u64; 3]>, p: usize, axis: u32) -> u64 {
    keys[p as int]@[axis as int]
}

/// Along its axis, no primitive on the left of node `m` has a larger key
/// than one on its right.
pub open spec fn node_split(nodes: Seq<BvhNode>, keys: Seq<[u64; 3]>, m: int) -> bool {
    forall|p: usize, q: usize|
        #![trigger child_leaves(nodes, nodes[m].left, m).contains(p), child_leaves(nodes, nodes[m].right, m).contains(q)]
        child_leaves(nodes, nodes[m].left, m).contains(p) && child_leaves(
            nodes,
            nodes[m].right,
            m,
        ).contains(q) ==> key_of(keys, p, nodes[m].axis) <= key_of(keys, q, nodes[m].axis)
}

/// Every node refers to primitives among `keys` and to earlier nodes, and
/// splits its primitives into halves along its axis; a node over two
/// primitives holds them directly.
pub open spec fn layout_wf(nodes: Seq<BvhNode>, keys: Seq<[u64; 3]>) -> bool {
    forall|m: int|
        0 <= m < nodes.len() ==> {
            &&& child_ok(#[trigger] nodes[m].left, m, keys.len())
            &&& child_ok(nodes[m].right, m, keys.len())
            &&& nodes[m].axis < 3
            &&& node_split(nodes, keys, m)
            &&& node_halved(nodes, m)
            &&& node_pair_direct(nodes, keys, m)
        }
}

/// The values at positions `lo .. hi` of `s`.
pub open spec fn span_set(s: Seq<usize>, lo: int, hi: int) -> Set<usize> {
    Set::new(|p: usize| exists|k: int| lo <= k < hi && s[k] == p)
}

/// Appending nodes leaves what lies below an existing node unchanged.
proof fn lemma_leaves_frame(a: Seq<BvhNode>, b: Seq<BvhNode>, m: int)
    requires
        0 <= m < a.len() <= b.len(),
        a == b.subrange(0, a.len() as int),
    ensures
        node_leaves(b, m) == node_leaves(a, m),
        child_leaves(b, b[m].left, m) == child_leaves(a, a[m].left, m),
        child_leaves(b, b[m].right, m) == child_leaves(a, a[m].right, m),
        node_size(b, m) == node_size(a, m),
        child_size(b, b[m].left, m) == child_size(a, a[m].left, m),
        child_size(b, b[m].right, m) == child_size(a, a[m].right, m),
    decreases m,
{
    assert(a[m] == b[m]);
    match a[m].left {
        BvhChild::Node(d) => if d < m {
            lemma_leaves_frame(a, b, d as int);
        },
        _ => {},
    }
    match a[m].right {
        BvhChild::Node(d) => if d < m {
            lemma_leaves_frame(a, b, d as int);
        },
        _ => {},
    }
}

/// Appending nodes to a well-formed layout keeps the earlier nodes well formed.
proof fn lemma_wf_frame(a: Seq<BvhNode>, b: Seq<BvhNode>, keys: Seq<[u64; 3]>)
    requires
        a.len() <= b.len(),
        a == b.subrange(0, a.len() as int),
        layout_wf(a, keys),
    ensures
        forall|m: int|
            0 <= m < a.len() ==> {
                &&& child_ok(#[trigger] b[m].left, m, keys.len())
                &&& child_ok(b[m].right, m, keys.len())
                &&& b[m].axis < 3
                &&& node_split(b, keys, m)
                &&& node_halved(b, m)
                &&& node_pair_direct(b, keys, m)
            },
{
    assert forall|m: int| 0 <= m < a.len() implies {
        &&& child_ok(#[trigger] b[m].left, m, keys.len())
        &&& child_ok(b[m].right, m, keys.len())
        &&& b[m].axis < 3
        &&& node_split(b, keys, m)
        &&& node_halved(b, m)
        &&& node_pair_direct(b, keys, m)
    } by {
        assert(a[m] == b[m]);
        lemma_leaves_frame(a, b, m);
        assert(node_split(a, keys, m));
        assert(node_halved(a, m));
        assert(node_pair_direct(a, keys, m));
    }
}

/// Lexicographic order of (key, primitive) pairs.
pub open spec fn pair_le(a: (u64, usize), b: (u64, usize)) -> bool {
    a.0 < b.0 || (a.0 == b.0 && a.1 <= b.1)
}

/// Relies on slice::sort (std, through Vec's deref) on (key, primitive)
/// pairs: the result holds the same pairs in ascending order, and tuples
/// compare lexicographically.
#[verifier::external_body]
fn sort_pairs(v: &mut Vec<(u64, usize)>)
    ensures
        final(v)@.to_multiset() == old(v)@.to_multiset(),
        forall|a: int, b: int|
            0 <= a < b < final(v).len() ==> pair_le(#[trigger] final(v)@[a], #[trigger] final(v)@[b]),
{
    v.sort();
}

/// The (key, primitive) pairs of positions `lo .. hi` of `s` along `axis`.
pub open spec fn span_pairs(keys: Seq<[u64; 3]>, s: Seq<usize>, lo: int, hi: int, axis: u32) -> Seq<
    (u64, usize),
> {
    Seq::new((hi - lo) as nat, |k: int| (key_of(keys, s[lo + k], axis), s[lo + k]))
}

fn collect_pairs(keys: &Vec<[u64; 3]>, order: &Vec<usize>, start: usize, end: usize, axis: u32) -> (r:
    Vec<(u64, usize)>)
    requires
        start <= end <= order.len(),
        axis < 3,
        forall|k: int| 0 <= k < order.len() ==> order@[k] < keys.len(),
    ensures
        r@ == span_pairs(keys@, order@, start as int, end as int, axis),
{
    let ghost all = span_pairs(keys@, order@, start as int, end as int, axis);
    let mut pairs: Vec<(u64, usize)> = Vec::with_capacity(end - start);
    let mut k: usize = start;
    while k < end
        invariant
            start <= k <= end <= order.len(),
            axis < 3,
            forall|i: int| 0 <= i < order.len() ==> order@[i] < keys.len(),
            all == span_pairs(keys@, order@, start as int, end as int, axis),
            pairs@ == all.subrange(0, k - start),
        decreases end - k,
    {
        let p = order[k];
        let key = keys[p][axis as usize];
        assert(key == key_of(keys@, order@[k as int], axis));
        pairs.push((key, p));
        k += 1;
        assert(pairs@ =~= all.subrange(0, k - start));
    }
    assert(pairs@ =~= all);
    pairs
}

/// What a sorted copy of the pairs of a span holds.
proof fn lemma_sorted_pairs(keys: Seq<[u64; 3]>, s: Seq<usize>, lo: int, hi: int, axis: u32, sorted: Seq<
    (u64, usize),
>)
    requires
        0 <= lo <= hi <= s.len(),
        sorted.to_multiset() == span_pairs(keys, s, lo, hi, axis).to_multiset(),
    ensures
        sorted.len() == hi - lo,
        forall|i: int|
            0 <= i < sorted.len() ==> {
                &&& (#[trigger] sorted[i]).0 == key_of(keys, sorted[i].1, axis)
                &&& span_set(s, lo, hi).contains(sorted[i].1)
            },
        forall|p: usize|
            #[trigger] span_set(s, lo, hi).contains(p) ==> exists|i: int|
                0 <= i < sorted.len() && sorted[i].1 == p,
{
    let all = span_pairs(keys, s, lo, hi, axis);
    assert(sorted.len() == sorted.to_multiset().len());
    assert(all.len() == all.to_multiset().len());
    assert forall|i: int| 0 <= i < sorted.len() implies {
        &&& (#[trigger] sorted[i]).0 == key_of(keys, sorted[i].1, axis)
        &&& span_set(s, lo, hi).contains(sorted[i].1)
    } by {
        assert(sorted.contains(sorted[i]));
        assert(sorted.to_multiset().count(sorted[i]) > 0);
        assert(all.contains(sorted[i]));
        let w = choose|w: int| 0 <= w < all.len() && all[w] == sorted[i];
        assert(s[lo + w] == sorted[i].1);
    }
    assert forall|p: usize| #[trigger] span_set(s, lo, hi).contains(p) implies exists|i: int|
        0 <= i < sorted.len() && sorted[i].1 == p by {
        let j = choose|j: int| lo <= j < hi && s[j] == p;
        assert(all[j - lo] == (key_of(keys, s[j], axis), s[j]));
        assert(all.contains(all[j - lo]));
        assert(all.to_multiset().count(all[j - lo]) > 0);
        assert(sorted.contains(all[j - lo]));
    }
}

/// A sorted copy of the pairs of a span without repeated primitives repeats
/// no primitive either.
proof fn lemma_sorted_pairs_distinct(
    keys: Seq<[u64; 3]>,
    s: Seq<usize>,
    lo: int,
    hi: int,
    axis: u32,
    sorted: Seq<(u64, usize)>,
)
    requires
        0 <= lo <= hi <= s.len(),
        s.no_duplicates(),
        sorted.to_multiset() == span_pairs(keys, s, lo, hi, axis).to_multiset(),
        forall|i: int|
            0 <= i < sorted.len() ==> (#[trigger] sorted[i]).0 == key_of(keys, sorted[i].1, axis),
    ensures
        forall|i: int, j: int|
            0 <= i < sorted.len() && 0 <= j < sorted.len() && i != j ==> (#[trigger] sorted[i]).1
                != (#[trigger] sorted[j]).1,
{
    let all = span_pairs(keys, s, lo, hi, axis);
    assert(all.no_duplicates()) by {
        assert forall|i: int, j: int| 0 <= i < all.len() && 0 <= j < all.len() && i != j implies all[i]
            != all[j] by {
            assert(s[lo + i] != s[lo + j]);
        }
    }
    all.lemma_multiset_has_no_duplicates();
    sorted.lemma_multiset_has_no_duplicates_conv();
    assert forall|i: int, j: int|
        0 <= i < sorted.len() && 0 <= j < sorted.len() && i != j implies (#[trigger] sorted[i]).1
        != (#[trigger] sorted[j]).1 by {
        if sorted[i].1 == sorted[j].1 {
            assert(sorted[i] == sorted[j]);
        }
    }
}

/// Orders positions `start .. end` of `order` by the keys of their
/// primitives along `axis`, ties by primitive, leaving other positions.
fn sort_span(keys: &Vec<[u64; 3]>, order: &mut Vec<usize>, start: usize, end: usize, axis: u32)
    requires
        start <= end <= old(order).len(),
        axis < 3,
        forall|k: int| 0 <= k < old(order).len() ==> old(order)@[k] < keys.len(),
        old(order)@.no_duplicates(),
    ensures
        final(order).len() == old(order).len(),
        forall|k: int| 0 <= k < final(order).len() ==> final(order)@[k] < keys.len(),
        final(order)@.no_duplicates(),
        forall|k: int|
            0 <= k < old(order).len() && !(start <= k < end) ==> final(order)@[k] == old(order)@[k],
        span_set(final(order)@, start as int, end as int) == span_set(
            old(order)@,
            start as int,
            end as int,
        ),
        forall|a: int, b: int|
            start <= a < b < end ==> key_of(keys@, #[trigger] final(order)@[a], axis) <= key_of(
                keys@,
                #[trigger] final(order)@[b],
                axis,
            ),
{
    let ghost orig = order@;
    let mut pairs = collect_pairs(keys, order, start, end, axis);
    sort_pairs(&mut pairs);
    let ghost sorted = pairs@;
    proof {
        lemma_sorted_pairs(keys@, orig, start as int, end as int, axis, sorted);
        lemma_sorted_pairs_distinct(keys@, orig, start as int, end as int, axis, sorted);
    }
    let mut k: usize = 0;
    while k < end - start
        invariant
            start <= end <= orig.len(),
            sorted.len() == end - start,
            pairs@ == sorted,
            k <= end - start,
            order.len() == orig.len(),
            forall|i: int| 0 <= i < orig.len() && !(start <= i < start + k) ==> order@[i] == orig[i],
            forall|i: int| 0 <= i < k ==> order@[start + i] == (#[trigger] sorted[i]).1,
        decreases end - start - k,
    {
        order.set(start + k, pairs[k].1);
        k += 1;
    }
    assert forall|i: int| 0 <= i < order.len() implies order@[i] < keys.len() by {
        if start <= i < end {
            let x = sorted[i - start];
            assert(order@[start + (i - start)] == x.1);
            assert(order@[i] == x.1);
            assert(span_set(orig, start as int, end as int).contains(x.1));
            let j = choose|j: int| start <= j < end && orig[j] == x.1;
            assert(orig[j] < keys.len());
        } else {
            assert(order@[i] == orig[i]);
        }
    }
    assert forall|a: int, b: int|
        0 <= a < order.len() && 0 <= b < order.len() && a != b implies order@[a] != order@[b] by {
        if start <= a < end {
            let x = sorted[a - start];
            assert(order@[start + (a - start)] == x.1);
            if start <= b < end {
                assert(order@[start + (b - start)] == sorted[b - start].1);
            } else {
                assert(span_set(orig, start as int, end as int).contains(x.1));
                let j = choose|j: int| start <= j < end && orig[j] == x.1;
                assert(order@[b] == orig[b]);
                assert(orig[j] != orig[b]);
            }
        } else if start <= b < end {
            let y = sorted[b - start];
            assert(order@[start + (b - start)] == y.1);
            assert(span_set(orig, start as int, end as int).contains(y.1));
            let j = choose|j: int| start <= j < end && orig[j] == y.1;
            assert(order@[a] == orig[a]);
            assert(orig[j] != orig[a]);
        } else {
            assert(order@[a] == orig[a]);
            assert(order@[b] == orig[b]);
        }
    }
    assert forall|a: int, b: int| start <= a < b < end implies key_of(
        keys@,
        #[trigger] order@[a],
        axis,
    ) <= key_of(keys@, #[trigger] order@[b], axis) by {
        assert(order@[start + (a - start)] == sorted[a - start].1);
        assert(order@[start + (b - start)] == sorted[b - start].1);
        assert(pair_le(sorted[a - start], sorted[b - start]));
    }
    assert(span_set(order@, start as int, end as int) =~= span_set(orig, start as int, end as int))
        by {
        assert forall|p: usize| span_set(order@, start as int, end as int).contains(p) implies span_set(
            orig,
            start as int,
            end as int,
        ).contains(p) by {
            let j = choose|j: int| start <= j < end && order@[j] == p;
            assert(order@[start + (j - start)] == sorted[j - start].1);
        }
        assert forall|p: usize| span_set(orig, start as int, end as int).contains(p) implies span_set(
            order@,
            start as int,
            end as int,
        ).contains(p) by {
            let i = choose|i: int| 0 <= i < sorted.len() && sorted[i].1 == p;
            assert(order@[start + i] == sorted[i].1);
        }
    }
}

/// A node that holds primitive `p` on both sides keeps the layout well formed.
proof fn lemma_push_single(n0: Seq<BvhNode>, nodes: Seq<BvhNode>, keys: Seq<[u64; 3]>, p: usize, axis: u32)
    requires
        nodes == n0.push(BvhNode { left: BvhChild::Primitive(p), right: BvhChild::Primitive(p), axis }),
        layout_wf(n0, keys),
        p < keys.len(),
        axis < 3,
    ensures
        layout_wf(nodes, keys),
        node_leaves(nodes, n0.len() as int) == set![p],
        node_size(nodes, n0.len() as int) == 1,
{
    let m = n0.len() as int;
    assert(n0 =~= nodes.subrange(0, m));
    lemma_wf_frame(n0, nodes, keys);
    assert(is_single(nodes, m));
    assert(child_leaves(nodes, nodes[m].left, m) == set![p]);
    assert(node_leaves(nodes, m) =~= set![p]);
}

/// A node over two distinct primitives, the one with the smaller key on the
/// left, keeps the layout well formed.
proof fn lemma_push_pair(
    n0: Seq<BvhNode>,
    nodes: Seq<BvhNode>,
    keys: Seq<[u64; 3]>,
    first: usize,
    second: usize,
    axis: u32,
)
    requires
        nodes == n0.push(
            BvhNode { left: BvhChild::Primitive(first), right: BvhChild::Primitive(second), axis },
        ),
        layout_wf(n0, keys),
        first < keys.len(),
        second < keys.len(),
        first != second,
        axis < 3,
        key_of(keys, first, axis) <= key_of(keys, second, axis),
    ensures
        layout_wf(nodes, keys),
        node_leaves(nodes, n0.len() as int) == set![first, second],
        node_size(nodes, n0.len() as int) == 2,
{
    let m = n0.len() as int;
    assert(n0 =~= nodes.subrange(0, m));
    lemma_wf_frame(n0, nodes, keys);
    assert(!is_single(nodes, m));
    assert(child_leaves(nodes, nodes[m].left, m) == set![first]);
    assert(child_leaves(nodes, nodes[m].right, m) == set![second]);
    assert(node_leaves(nodes, m) =~= set![first, second]);
}

/// A node over two earlier subtrees, the first with the lower half of the
/// primitives and no larger keys along `axis`, keeps the layout well formed.
proof fn lemma_push_inner(
    n1: Seq<BvhNode>,
    n2: Seq<BvhNode>,
    nodes: Seq<BvhNode>,
    keys: Seq<[u64; 3]>,
    l: usize,
    r: usize,
    axis: u32,
)
    requires
        nodes == n2.push(BvhNode { left: BvhChild::Node(l), right: BvhChild::Node(r), axis }),
        l < n1.len() <= r < n2.len(),
        n1 == n2.subrange(0, n1.len() as int),
        layout_wf(n2, keys),
        axis < 3,
        node_size(n1, l as int) == (node_size(n1, l as int) + node_size(n2, r as int)) / 2,
        node_size(n1, l as int) + node_size(n2, r as int) >= 3,
        forall|p: usize, q: usize|
            node_leaves(n1, l as int).contains(p) && node_leaves(n2, r as int).contains(q) ==> key_of(
                keys,
                p,
                axis,
            ) <= key_of(keys, q, axis),
    ensures
        layout_wf(nodes, keys),
        node_leaves(nodes, n2.len() as int) == node_leaves(n1, l as int).union(
            node_leaves(n2, r as int),
        ),
        node_size(nodes, n2.len() as int) == node_size(n1, l as int) + node_size(n2, r as int),
{
    let m = n2.len() as int;
    assert(n2 =~= nodes.subrange(0, m));
    assert(n1 =~= nodes.subrange(0, n1.len() as int));
    lemma_wf_frame(n2, nodes, keys);
    lemma_leaves_frame(n1, nodes, l as int);
    lemma_leaves_frame(n2, nodes, r as int);
    assert(!is_single(nodes, m));
    assert(node_split(nodes, keys, m));
}

/// Builds the nodes over positions `start .. end` of `order` and appends
/// them to `nodes`. Returns the index of their root, the last node appended.
fn build_span(
    keys: &Vec<[u64; 3]>,
    order: &mut Vec<usize>,
    start: usize,
    end: usize,
    nodes: &mut Vec<BvhNode>,
) -> (r: usize)
    requires
        start < end <= old(order).len(),
        forall|k: int| 0 <= k < old(order).len() ==> old(order)@[k] < keys.len(),
        old(order)@.no_duplicates(),
        layout_wf(old(nodes)@, keys@),
    ensures
        final(order).len() == old(order).len(),
        forall|k: int| 0 <= k < final(order).len() ==> final(order)@[k] < keys.len(),
        final(order)@.no_duplicates(),
        forall|k: int|
            0 <= k < old(order).len() && !(start <= k < end) ==> final(order)@[k] == old(order)@[k],
        old(nodes).len() < final(nodes).len() <= old(nodes).len() + 2 * (end - start) - 1,
        old(nodes)@ == final(nodes)@.subrange(0, old(nodes).len() as int),
        r == final(nodes).len() - 1,
        layout_wf(final(nodes)@, keys@),
        node_leaves(final(nodes)@, r as int) == span_set(old(order)@, start as int, end as int),
        node_size(final(nodes)@, r as int) == end - start,
    decreases end - start,
{
    let ghost n0 = nodes@;
    let ghost o0 = order@;
    let axis = random_int(0, 2);
    let span = end - start;
    if span == 1 {
        let p = order[start];
        nodes.push(BvhNode { left: BvhChild::Primitive(p), right: BvhChild::Primitive(p), axis });
        proof {
            lemma_push_single(n0, nodes@, keys@, p, axis);
            assert(nodes@.subrange(0, n0.len() as int) =~= n0);
            assert(span_set(o0, start as int, end as int) =~= set![p]);
        }
    } else if span == 2 {
        let a = order[start];
        let b = order[start + 1];
        let (first, second) = match box_compare(&keys[a], &keys[b], axis) {
            Ordering::Greater => (b, a),
            _ => (a, b),
        };
        nodes.push(
            BvhNode { left: BvhChild::Primitive(first), right: BvhChild::Primitive(second), axis },
        );
        proof {
            lemma_push_pair(n0, nodes@, keys@, first, second, axis);
            assert(nodes@.subrange(0, n0.len() as int) =~= n0);
            assert(span_set(o0, start as int, end as int) =~= set![first, second]) by {
                assert(o0[start as int] == a);
                assert(o0[start + 1] == b);
            }
        }
    } else {
        sort_span(keys, order, start, end, axis);
        let ghost o1 = order@;
        let mid = start + span / 2;
        let l = build_span(keys, order, start, mid, nodes);
        let ghost n1 = nodes@;
        let ghost o2 = order@;
        let r = build_span(keys, order, mid, end, nodes);
        let ghost n2 = nodes@;
        nodes.push(BvhNode { left: BvhChild::Node(l), right: BvhChild::Node(r), axis });
        proof {
            assert(n1 =~= n2.subrange(0, n1.len() as int));
            assert(span_set(o2, mid as int, end as int) =~= span_set(o1, mid as int, end as int));
            assert forall|p: usize, q: usize|
                node_leaves(n1, l as int).contains(p) && node_leaves(n2, r as int).contains(
                    q,
                ) implies key_of(keys@, p, axis) <= key_of(keys@, q, axis) by {
                let ka = choose|ka: int| start <= ka < mid && o1[ka] == p;
                let kb = choose|kb: int| mid <= kb < end && o1[kb] == q;
                assert(key_of(keys@, o1[ka], axis) <= key_of(keys@, o1[kb], axis));
            }
            lemma_push_inner(n1, n2, nodes@, keys@, l, r, axis);
            assert(nodes@.subrange(0, n0.len() as int) =~= n0);
            assert(span_set(o1, start as int, end as int) =~= span_set(
                o1,
                start as int,
                mid as int,
            ).union(span_set(o1, mid as int, end as int)));
        }
    }
    nodes.len() - 1
}

/// A bounding volume hierarchy over primitives `0 .. n`, as an arena of
/// nodes whose last one is the root.
pub struct BvhLayout {
    nodes: Vec<BvhNode>,
}

impl View for BvhLayout {
    type V = Seq<BvhNode>;

    closed spec fn view(&self) -> Seq<BvhNode> {
        self.nodes@
    }
}

impl BvhLayout {
    /// The primitives reachable from the root.
    pub open spec fn primitives(&self) -> Set<usize> {
        node_leaves(self@, self@.len() - 1)
    }

    /// How many primitives the root holds.
    pub open spec fn size(&self) -> nat {
        node_size(self@, self@.len() - 1)
    }

    /// Builds the hierarchy over the primitives whose minimum-corner keys are
    /// `keys`. Each node picks a random axis, orders its primitives by their
    /// keys along it and hands the lower half to its left side, the rest to
    /// its right; a node over one primitive holds it on both sides.
    pub fn construct(keys: &Vec<[u64; 3]>) -> (r: Self)
        requires
            keys.len() > 0,
        ensures
            layout_wf(r@, keys@),
            0 < r@.len() <= 2 * keys.len() - 1,
            r.primitives() == Set::new(|p: usize| p < keys.len()),
            r.size() == keys.len(),
    {
        let n = keys.len();
        let mut order: Vec<usize> = Vec::with_capacity(n);
        let mut i: usize = 0;
        while i < n
            invariant
                i <= n == keys.len(),
                order.len() == i,
                forall|k: int| 0 <= k < i ==> order@[k] == k,
            decreases n - i,
        {
            order.push(i);
            i += 1;
        }
        let mut nodes: Vec<BvhNode> = Vec::new();
        let ghost o0 = order@;
        let root = build_span(keys, &mut order, 0, n, &mut nodes);
        let r = BvhLayout { nodes };
        assert(span_set(o0, 0, n as int) =~= Set::new(|p: usize| p < keys.len())) by {
            assert forall|p: usize| p < keys.len() implies span_set(o0, 0, n as int).contains(p) by {
                assert(o0[p as int] == p);
            }
        }
        r
    }

    pub fn node_count(&self) -> (r: usize)
        ensures
            r == self@.len(),
    {
        self.nodes.len()
    }

    pub fn node(&self, m: usize) -> (r: BvhNode)
        requires
            m < self@.len(),
        ensures
            r == self@[m as int],
    {
        self.nodes[m]
    }

    pub fn root(&self) -> (r: usize)
        requires
            self@.len() > 0,
        ensures
            r == self@.len() - 1,
    {
        self.nodes.len() - 1
    }
}

} // verus!
