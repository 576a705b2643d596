use vstd::prelude::*;

verus! {

/// Offset in a mesh's flat coordinate arrays (three numbers per vertex) of the
/// first coordinate of corner `k` of face `f`.
pub open spec fn corner_offset(indices: Seq<u32>, f: int, k: int) -> int {
    3 * indices[3 * f + k]
}

/// Face `f` can be read: the three coordinates of each corner lie within the
/// positions, and those of the first corner within the normals too (the face's
/// normal is read at the first corner's offset).
pub open spec fn face_in_range(indices: Seq<u32>, f: int, n_positions: int, n_normals: int) -> bool {
    &&& forall|k: int| 0 <= k < 3 ==> #[trigger] corner_offset(indices, f, k) + 2 < n_positions
    &&& corner_offset(indices, f, 0) + 2 < n_normals
}

/// `c` holds the corner offsets of face `f`, in corner order.
pub open spec fn corner_offsets_are(c: (usize, usize, usize), indices: Seq<u32>, f: int) -> bool {
    &&& c.0 == corner_offset(indices, f, 0)
    &&& c.1 == corner_offset(indices, f, 1)
    &&& c.2 == corner_offset(indices, f, 2)
}

/// Number of whole triangular faces in an index list.
pub open spec fn face_count(indices: Seq<u32>) -> int {
    indices.len() as int / 3
}

/// Resolves the faces of an indexed triangle mesh into the offsets of their
/// corners in the flat position array (three numbers per vertex): entry `f` is
/// `(3 * indices[3f], 3 * indices[3f + 1], 3 * indices[3f + 2])`. Trailing
/// indices that do not make a whole face are ignored. Returns `None` when a
/// face would read past the end of the positions or, for its normal, of the
/// normals.
pub fn face_offsets(indices: &Vec<u32>, n_positions: usize, n_normals: usize) -> (r: Option<
    Vec<(usize, usize, usize)>,
>)
    ensures
        r is Some <==> forall|f: int|
            0 <= f < face_count(indices@) ==> #[trigger] face_in_range(
                indices@,
                f,
                n_positions as int,
                n_normals as int,
            ),
        r matches Some(v) ==> {
            &&& v@.len() == face_count(indices@)
            &&& forall|f: int|
                0 <= f < v@.len() ==> corner_offsets_are(#[trigger] v@[f], indices@, f)
        },
{
    let n: usize = indices.len();
    let faces: usize = n / 3;
    assert(3 * faces <= indices@.len());
    let mut out: Vec<(usize, usize, usize)> = Vec::new();
    let mut f: usize = 0;
    while f < faces
        invariant
            faces == face_count(indices@),
            n == indices@.len(),
            3 * faces <= n,
            f <= faces,
            out@.len() == f,
            forall|g: int|
                0 <= g < f ==> #[trigger] face_in_range(
                    indices@,
                    g,
                    n_positions as int,
                    n_normals as int,
                ),
            forall|g: int|
                0 <= g < f ==> corner_offsets_are(#[trigger] out@[g], indices@, g),
        decreases faces - f,
    {
        assert(3 * f + 2 < indices@.len());
        let base: usize = 3 * f;
        let a: u64 = 3 * (indices[base] as u64);
        let b: u64 = 3 * (indices[base + 1] as u64);
        let c: u64 = 3 * (indices[base + 2] as u64);
        let np: u64 = n_positions as u64;
        if a + 2 >= np || b + 2 >= np || c + 2 >= np || a + 2 >= n_normals as u64 {
            proof {
                assert(!face_in_range(indices@, f as int, n_positions as int, n_normals as int)) by {
                    assert(corner_offset(indices@, f as int, 0) == a);
                    assert(corner_offset(indices@, f as int, 1) == b);
                    assert(corner_offset(indices@, f as int, 2) == c);
                }
            }
            return None;
        }
        proof {
            assert(face_in_range(indices@, f as int, n_positions as int, n_normals as int)) by {
                assert(corner_offset(indices@, f as int, 0) == a);
                assert(corner_offset(indices@, f as int, 1) == b);
                assert(corner_offset(indices@, f as int, 2) == c);
            }
        }
        out.push((a as usize, b as usize, c as usize));
        f = f + 1;
    }
    Some(out)
}

} // verus!
