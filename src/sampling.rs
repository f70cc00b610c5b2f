//! Division of a pixel's samples among parallel workers.
use vstd::prelude::*;

verus! {

/// The sum of the entries of `s`.
pub open spec fn seq_sum(s: Seq<u32>) -> int
    decreases s.len(),
{
    if s.len() == 0 {
        0
    } else {
        seq_sum(s.drop_last()) + s.last()
    }
}

/// How many of `total` samples each of `workers` workers draws: all draw
/// the same number, and the first `total % workers` one more, so that
/// together they draw exactly `total`.
pub fn samples_per_worker(total: u32, workers: u32) -> (r: Vec<u32>)
    requires
        workers > 0,
    ensures
        r.len() == workers,
        seq_sum(r@) == total,
        forall|k: int|
            0 <= k < workers ==> #[trigger] r@[k] == total / workers + (if k < total % workers {
                1int
            } else {
                0int
            }),
{
    let base = total / workers;
    let extra = total % workers;
    assert(base * workers + extra == total) by (nonlinear_arith)
        requires
            base == total / workers,
            extra == total % workers,
            workers > 0,
    ;
    let mut r: Vec<u32> = Vec::with_capacity(workers as usize);
    let mut i: u32 = 0;
    while i < workers
        invariant
            i <= workers,
            base == total / workers,
            extra == total % workers,
            base * workers + extra == total,
            extra < workers,
            r.len() == i,
            seq_sum(r@) == i * base + (if i < extra {
                i as int
            } else {
                extra as int
            }),
            forall|k: int|
                0 <= k < i ==> #[trigger] r@[k] == base + (if k < extra {
                    1int
                } else {
                    0int
                }),
        decreases workers - i,
    {
        assert(extra > 0 ==> base + 1 <= total) by (nonlinear_arith)
            requires
                base * workers + extra == total,
                extra < workers,
        ;
        let n: u32 = if i < extra { base + 1 } else { base };
        let ghost before = r@;
        r.push(n);
        assert(r@.drop_last() =~= before);
        assert((i + 1) * base == i * base + base) by (nonlinear_arith);
        i += 1;
    }
    assert(workers * base + extra == total) by (nonlinear_arith)
        requires
            base == total / workers,
            extra == total % workers,
            workers > 0,
    ;
    r
}

} // verus!
