//! Arithmetic facts about the layout of interleaved samples.
use vstd::prelude::*;

verus! {

/// A channel index inside a sample lies inside the whole buffer of samples.
pub proof fn lemma_sample_index(k: int, n: int, c: int, i: int)
    requires
        0 <= k < n,
        0 <= i < c,
    ensures
        0 <= k * c,
        k * c + i < n * c,
        k * c + c <= n * c,
        (k + 1) * c == k * c + c,
{
    assert(0 <= k * c) by (nonlinear_arith)
        requires 0 <= k, 0 <= c;
    assert(k * c + c <= n * c) by (nonlinear_arith)
        requires k + 1 <= n, 0 <= c;
    assert((k + 1) * c == k * c + c) by (nonlinear_arith);
}

/// A row-major position `row * stride + offset` stays below the end of the last row.
pub proof fn lemma_row_index(row: int, rows: int, stride: int, offset: int, row_len: int)
    requires
        0 <= row < rows,
        0 <= offset < row_len,
        0 <= stride,
    ensures
        0 <= row * stride,
        row * stride + offset < (rows - 1) * stride + row_len,
{
    assert(0 <= row * stride) by (nonlinear_arith)
        requires 0 <= row, 0 <= stride;
    assert(row * stride <= (rows - 1) * stride) by (nonlinear_arith)
        requires row <= rows - 1, 0 <= stride;
}

} // verus!
