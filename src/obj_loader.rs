//! Grouping of a triangle mesh's vertex indices into triangles.
use vstd::prelude::*;

verus! {

/// Every index of a whole triangle in `indices` names one of `point_count`
/// vertices; a trailing partial triangle is not looked at.
pub open spec fn indices_in_range(indices: Seq<u32>, point_count: usize) -> bool {
    forall|k: int| 0 <= k < 3 * (indices.len() / 3) ==> #[trigger] indices[k] < point_count
}

/// The vertex indices of triangles `0, 1, ...` of a mesh, three per
/// triangle; `None` where an index names no vertex.
pub fn triangle_indices(indices: &Vec<u32>, point_count: usize) -> (r: Option<Vec<[usize; 3]>>)
    ensures
        r.is_some() <==> indices_in_range(indices@, point_count),
        r.is_some() ==> r.unwrap().len() == indices.len() / 3,
        r.is_some() ==> forall|t: int|
            0 <= t < indices.len() / 3 ==> (#[trigger] r.unwrap()@[t])@ == seq![
                indices@[3 * t] as usize,
                indices@[3 * t + 1] as usize,
                indices@[3 * t + 2] as usize,
            ],
{
    let count = indices.len() / 3;
    let mut triangles: Vec<[usize; 3]> = Vec::with_capacity(count);
    let mut t: usize = 0;
    while t < count
        invariant
            count == indices.len() / 3,
            t <= count,
            triangles.len() == t,
            forall|k: int| 0 <= k < 3 * t ==> #[trigger] indices@[k] < point_count,
            forall|s: int|
                0 <= s < t ==> (#[trigger] triangles@[s])@ == seq![
                    indices@[3 * s] as usize,
                    indices@[3 * s + 1] as usize,
                    indices@[3 * s + 2] as usize,
                ],
        decreases count - t,
    {
        let a = indices[3 * t] as usize;
        let b = indices[3 * t + 1] as usize;
        let c = indices[3 * t + 2] as usize;
        if a >= point_count || b >= point_count || c >= point_count {
            assert(!indices_in_range(indices@, point_count)) by {
                assert(3 * t + 2 < 3 * count);
                assert(3 * count <= 3 * (indices.len() / 3));
            }
            return None;
        }
        let tri: [usize; 3] = [a, b, c];
        assert(tri@ =~= seq![a, b, c]);
        triangles.push(tri);
        t += 1;
    }
    Some(triangles)
}

} // verus!
