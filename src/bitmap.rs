use vstd::prelude::*;

verus! {

/// A set of board cells, one bit per cell, indexed row-major: the cell at
/// column `x` and row `y` of a board of size `n` is bit `y * n + x`.
pub type Bitmap = u64;

/// Whether bit `i` of `b` is set.
pub open spec fn has_bit(b: Bitmap, i: int) -> bool {
    0 <= i < 64 && (b >> (i as u64)) & 1u64 == 1u64
}

pub open spec fn cell_index(n: int, x: int, y: int) -> int {
    y * n + x
}

pub proof fn lemma_set_bit(b: u64, i: u64, j: u64)
    requires
        i < 64,
        j < 64,
    ensures
        ((b | (1u64 << i)) >> j) & 1u64 == 1u64 <==> (i == j || (b >> j) & 1u64 == 1u64),
{
    assert(((b | (1u64 << i)) >> j) & 1u64 == 1u64 <==> (i == j || (b >> j) & 1u64 == 1u64))
        by (bit_vector)
        requires
            i < 64,
            j < 64,
    ;
}

pub proof fn lemma_clear_bit(b: u64, i: u64, j: u64)
    requires
        i < 64,
        j < 64,
    ensures
        ((b & !(1u64 << i)) >> j) & 1u64 == 1u64 <==> (i != j && (b >> j) & 1u64 == 1u64),
{
    assert(((b & !(1u64 << i)) >> j) & 1u64 == 1u64 <==> (i != j && (b >> j) & 1u64 == 1u64))
        by (bit_vector)
        requires
            i < 64,
            j < 64,
    ;
}

pub proof fn lemma_or_bit(a: u64, b: u64, j: u64)
    requires
        j < 64,
    ensures
        ((a | b) >> j) & 1u64 == 1u64 <==> ((a >> j) & 1u64 == 1u64 || (b >> j) & 1u64 == 1u64),
{
    assert(((a | b) >> j) & 1u64 == 1u64 <==> ((a >> j) & 1u64 == 1u64 || (b >> j) & 1u64
        == 1u64)) by (bit_vector);
}

pub proof fn lemma_and_not_bit(a: u64, b: u64, j: u64)
    requires
        j < 64,
    ensures
        ((a & !b) >> j) & 1u64 == 1u64 <==> ((a >> j) & 1u64 == 1u64 && !((b >> j) & 1u64
            == 1u64)),
{
    assert(((a & !b) >> j) & 1u64 == 1u64 <==> ((a >> j) & 1u64 == 1u64 && !((b >> j) & 1u64
        == 1u64))) by (bit_vector);
}

pub proof fn lemma_zero_bit(j: u64)
    requires
        j < 64,
    ensures
        !((0u64 >> j) & 1u64 == 1u64),
{
    assert(!((0u64 >> j) & 1u64 == 1u64)) by (bit_vector);
}

/// Whether cell `i` is in `b`.
pub fn test_bit(b: Bitmap, i: usize) -> (r: bool)
    requires
        i < 64,
    ensures
        r == has_bit(b, i as int),
{
    (b >> (i as u64)) & 1u64 == 1u64
}

/// `b` with cell `i` added.
pub fn set_bit(b: Bitmap, i: usize) -> (r: Bitmap)
    requires
        i < 64,
    ensures
        forall|j: int| has_bit(r, j) <==> (j == i || has_bit(b, j)),
{
    let r = b | (1u64 << (i as u64));
    assert forall|j: int| has_bit(r, j) <==> (j == i || has_bit(b, j)) by {
        if 0 <= j < 64 {
            lemma_set_bit(b, i as u64, j as u64);
        }
    }
    r
}

/// `b` with cell `i` removed.
pub fn clear_bit(b: Bitmap, i: usize) -> (r: Bitmap)
    requires
        i < 64,
    ensures
        forall|j: int| has_bit(r, j) <==> (j != i && has_bit(b, j)),
{
    let r = b & !(1u64 << (i as u64));
    assert forall|j: int| has_bit(r, j) <==> (j != i && has_bit(b, j)) by {
        if 0 <= j < 64 {
            lemma_clear_bit(b, i as u64, j as u64);
        }
    }
    r
}

/// The cells of `a` that are not in `b`.
pub fn difference(a: Bitmap, b: Bitmap) -> (r: Bitmap)
    ensures
        forall|j: int| has_bit(r, j) <==> (has_bit(a, j) && !has_bit(b, j)),
{
    let r = a & !b;
    assert forall|j: int| has_bit(r, j) <==> (has_bit(a, j) && !has_bit(b, j)) by {
        if 0 <= j < 64 {
            lemma_and_not_bit(a, b, j as u64);
        }
    }
    r
}

/// The cells in `a` or in `b`.
pub fn union(a: Bitmap, b: Bitmap) -> (r: Bitmap)
    ensures
        forall|j: int| has_bit(r, j) <==> (has_bit(a, j) || has_bit(b, j)),
{
    let r = a | b;
    assert forall|j: int| has_bit(r, j) <==> (has_bit(a, j) || has_bit(b, j)) by {
        if 0 <= j < 64 {
            lemma_or_bit(a, b, j as u64);
        }
    }
    r
}

pub proof fn lemma_empty_bitmap()
    ensures
        forall|j: int| !has_bit(0u64, j),
{
    assert forall|j: int| !has_bit(0u64, j) by {
        if 0 <= j < 64 {
            lemma_zero_bit(j as u64);
        }
    }
}

} // verus!

verus! {

/// Distinct cells of a board have distinct bit indices.
pub proof fn lemma_cell_injective(n: int, x1: int, y1: int, x2: int, y2: int)
    requires
        0 <= x1 < n,
        0 <= y1 < n,
        0 <= x2 < n,
        0 <= y2 < n,
        y1 * n + x1 == y2 * n + x2,
    ensures
        x1 == x2 && y1 == y2,
{
    if y1 < y2 {
        assert(y1 * n + n <= y2 * n) by (nonlinear_arith)
            requires
                y1 < y2,
                n > 0,
        ;
    } else if y2 < y1 {
        assert(y2 * n + n <= y1 * n) by (nonlinear_arith)
            requires
                y2 < y1,
                n > 0,
        ;
    }
}

} // verus!
