use vstd::prelude::*;

verus! {

/// The byte rows of an image as sequences.
pub open spec fn rows_view(rows: Seq<Vec<u8>>) -> Seq<Seq<u8>> {
    rows.map_values(|row: Vec<u8>| row@)
}

/// The image's rows in output order: the top row, `height - 1`, first and
/// row `0` last, so that the image is written top to bottom.
pub fn row_order(height: usize) -> (r: Vec<usize>)
    ensures
        r@.len() == height,
        forall|k: int| 0 <= k < height ==> #[trigger] r@[k] == height - 1 - k,
{
    let mut r: Vec<usize> = Vec::new();
    let mut j: usize = height;
    while j > 0
        invariant
            j <= height,
            r@.len() == height - j,
            forall|k: int| 0 <= k < height - j ==> #[trigger] r@[k] == height - 1 - k,
        decreases j,
    {
        j = j - 1;
        r.push(j);
    }
    r
}

/// Concatenates rows of bytes, each computed on its own, into one buffer in
/// the rows' order, whatever order they were finished in.
pub fn assemble_rows(rows: &Vec<Vec<u8>>) -> (r: Vec<u8>)
    ensures
        r@ == rows_view(rows@).flatten(),
{
    let mut out: Vec<u8> = Vec::new();
    let mut k: usize = 0;
    while k < rows.len()
        invariant
            k <= rows@.len(),
            out@ == rows_view(rows@.take(k as int)).flatten(),
        decreases rows@.len() - k,
    {
        let row = &rows[k];
        let ghost before = out@;
        let mut o: usize = 0;
        while o < row.len()
            invariant
                o <= row@.len(),
                out@ == before + row@.take(o as int),
            decreases row@.len() - o,
        {
            out.push(row[o]);
            o = o + 1;
            proof {
                assert(out@ =~= before + row@.take(o as int));
            }
        }
        proof {
            assert(row@.take(o as int) =~= row@);
            let done = rows_view(rows@.take(k as int));
            assert(rows_view(rows@.take(k + 1)) =~= done.push(row@));
            done.lemma_flatten_push(row@);
        }
        k = k + 1;
    }
    proof {
        assert(rows@.take(k as int) =~= rows@);
    }
    out
}

/// Row-major layout: when every row holds `row_len` bytes, the buffer holds
/// `rows.len() * row_len` bytes and byte `o` of row `k` stands at
/// `k * row_len + o`.
pub proof fn lemma_row_major_layout(rows: Seq<Seq<u8>>, row_len: nat, k: int, o: int)
    requires
        forall|i: int| 0 <= i < rows.len() ==> (#[trigger] rows[i]).len() == row_len,
        0 <= k < rows.len(),
        0 <= o < row_len,
    ensures
        rows.flatten().len() == rows.len() * row_len,
        rows.flatten()[k * row_len + o] == rows[k][o],
    decreases rows.len(),
{
    let rest = rows.drop_first();
    assert(rows.flatten() == rows[0] + rest.flatten());
    if k == 0 {
        if rest.len() > 0 {
            lemma_row_major_layout(rest, row_len, 0, o);
        } else {
            assert(rest.flatten().len() == 0);
        }
        assert(rows.len() * row_len == row_len + rest.len() * row_len) by (nonlinear_arith)
            requires
                rest.len() == rows.len() - 1,
        ;
    } else {
        lemma_row_major_layout(rest, row_len, k - 1, o);
        let m = (k - 1) * row_len + o;
        assert(k * row_len + o == row_len + m) by (nonlinear_arith)
            requires
                m == (k - 1) * row_len + o,
        ;
        assert(m < rest.len() * row_len) by (nonlinear_arith)
            requires
                m == (k - 1) * row_len + o,
                0 <= k - 1 < rest.len(),
                0 <= o < row_len,
        ;
        assert(rest[k - 1] == rows[k]);
        assert(rows.flatten()[row_len + m] == rest.flatten()[m]);
        assert(rows.len() * row_len == row_len + rest.len() * row_len) by (nonlinear_arith)
            requires
                rest.len() == rows.len() - 1,
        ;
    }
}

} // verus!
