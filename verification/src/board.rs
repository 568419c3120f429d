//! The packed board: sixteen 4-bit fields in one u64, most significant
//! nibble = cell 0 (top left, row major), least significant = cell 15.
use vstd::prelude::*;

use crate::model::{solved_seq, target_col, target_row};

verus! {

/// The canonical solved board: value i + 1 in cell i, blank in cell 15.
pub const SOLVED_BOARD: u64 = 0x123456789abcdef0;

/// The 4-bit field of cell `i` in a packed board.
pub open spec fn nib(b: u64, i: u64) -> u64
    recommends
        i < 16,
{
    (b >> (((15 - i) * 4) as u64)) & 0xf
}

/// A packed board, fully unpacked into its 16 tile values.
pub open spec fn unpack(b: u64) -> Seq<u8> {
    Seq::new(16, |i: int| nib(b, i as u64) as u8)
}

/// Every field of a packed board is a tile value below 16.
pub proof fn lemma_nib_bound(b: u64, i: u64)
    by (bit_vector)
    ensures
        nib(b, i) < 16,
{
}

/// The fields of the solved board, one by one.
pub proof fn lemma_solved_nibbles()
    by (bit_vector)
    ensures
        forall|i: u64| i < 15 ==> nib(0x123456789abcdef0u64, i) == i + 1,
        nib(0x123456789abcdef0u64, 15) == 0,
{
}

/// Boards that agree on all sixteen fields are equal.
pub proof fn lemma_nib_ext(a: u64, b: u64)
    by (bit_vector)
    requires
        nib(a, 0) as u8 == nib(b, 0) as u8,
        nib(a, 1) as u8 == nib(b, 1) as u8,
        nib(a, 2) as u8 == nib(b, 2) as u8,
        nib(a, 3) as u8 == nib(b, 3) as u8,
        nib(a, 4) as u8 == nib(b, 4) as u8,
        nib(a, 5) as u8 == nib(b, 5) as u8,
        nib(a, 6) as u8 == nib(b, 6) as u8,
        nib(a, 7) as u8 == nib(b, 7) as u8,
        nib(a, 8) as u8 == nib(b, 8) as u8,
        nib(a, 9) as u8 == nib(b, 9) as u8,
        nib(a, 10) as u8 == nib(b, 10) as u8,
        nib(a, 11) as u8 == nib(b, 11) as u8,
        nib(a, 12) as u8 == nib(b, 12) as u8,
        nib(a, 13) as u8 == nib(b, 13) as u8,
        nib(a, 14) as u8 == nib(b, 14) as u8,
        nib(a, 15) as u8 == nib(b, 15) as u8,
    ensures
        a == b,
{
}

/// Boards that unpack to the same arrangement are equal.
pub proof fn lemma_unpack_injective(a: u64, b: u64)
    requires
        unpack(a) == unpack(b),
    ensures
        a == b,
{
    assert forall|k: u64| k < 16 implies nib(a, k) as u8 == nib(b, k) as u8 by {
        assert(((k as int) as u64) == k);
        assert(unpack(a)[k as int] == nib(a, k) as u8);
        assert(unpack(b)[k as int] == nib(b, k) as u8);
        assert(unpack(a)[k as int] == unpack(b)[k as int]);
    }
    assert(nib(a, 0) as u8 == nib(b, 0) as u8);
    assert(nib(a, 1) as u8 == nib(b, 1) as u8);
    assert(nib(a, 2) as u8 == nib(b, 2) as u8);
    assert(nib(a, 3) as u8 == nib(b, 3) as u8);
    assert(nib(a, 4) as u8 == nib(b, 4) as u8);
    assert(nib(a, 5) as u8 == nib(b, 5) as u8);
    assert(nib(a, 6) as u8 == nib(b, 6) as u8);
    assert(nib(a, 7) as u8 == nib(b, 7) as u8);
    assert(nib(a, 8) as u8 == nib(b, 8) as u8);
    assert(nib(a, 9) as u8 == nib(b, 9) as u8);
    assert(nib(a, 10) as u8 == nib(b, 10) as u8);
    assert(nib(a, 11) as u8 == nib(b, 11) as u8);
    assert(nib(a, 12) as u8 == nib(b, 12) as u8);
    assert(nib(a, 13) as u8 == nib(b, 13) as u8);
    assert(nib(a, 14) as u8 == nib(b, 14) as u8);
    assert(nib(a, 15) as u8 == nib(b, 15) as u8);
    lemma_nib_ext(a, b);
}

/// The solved board unpacks to the canonical solved arrangement.
pub proof fn lemma_solved_board_seq()
    ensures
        unpack(0x123456789abcdef0u64) == solved_seq(),
{
    lemma_solved_nibbles();
    assert(unpack(0x123456789abcdef0u64) =~= solved_seq());
}

/// Every field of an all-zero board is zero.
pub proof fn lemma_nib_zero()
    by (bit_vector)
    ensures
        forall|i: u64| nib(0u64, i) == 0,
{
}

/// Writing tile `n` into the empty field of cell `k` changes that field
/// alone.
pub proof fn lemma_set_nibble(acc: u64, n: u64, k: u64, sh: u64, r: u64)
    by (bit_vector)
    requires
        k < 16,
        n < 16,
        sh == 60 - 4 * k,
        nib(acc, k) == 0,
        r == acc | (n << sh),
    ensures
        forall|i: u64| i < 16 && i != k ==> nib(r, i) == nib(acc, i),
        nib(r, k) == n,
{
}

/// A blank at cell `zl` (row below 3) swaps with the tile one row below:
/// that tile's field moves up 16 bits into the blank's field.
pub proof fn lemma_slide_down(b: u64, zl: u64, sh: u64, nb: u64)
    by (bit_vector)
    requires
        zl < 12,
        sh == 44 - 4 * zl,
        nib(b, zl) == 0,
        nb == b & (0xfu64 << sh),
    ensures
        nb <= b,
        b - nb + (nb << 16) <= u64::MAX,
        nb >> sh == nib(b, (zl + 4) as u64),
        nib((b - nb + (nb << 16)) as u64, zl) == nib(b, (zl + 4) as u64),
        nib((b - nb + (nb << 16)) as u64, (zl + 4) as u64) == 0,
        forall|j: u64| j < 16 && j != zl && j != zl + 4 ==> nib((b - nb + (nb << 16)) as u64, j)
            == nib(b, j),
{
}

/// A blank at cell `zl` (row above 0) swaps with the tile one row above:
/// that tile's field moves down 16 bits into the blank's field.
pub proof fn lemma_slide_up(b: u64, zl: u64, sh: u64, nb: u64)
    by (bit_vector)
    requires
        4 <= zl < 16,
        sh == 76 - 4 * zl,
        nib(b, zl) == 0,
        nb == b & (0xfu64 << sh),
    ensures
        nb <= b,
        b - nb + (nb >> 16) <= u64::MAX,
        nb >> sh == nib(b, (zl - 4) as u64),
        nib((b - nb + (nb >> 16)) as u64, zl) == nib(b, (zl - 4) as u64),
        nib((b - nb + (nb >> 16)) as u64, (zl - 4) as u64) == 0,
        forall|j: u64| j < 16 && j != zl && j != zl - 4 ==> nib((b - nb + (nb >> 16)) as u64, j)
            == nib(b, j),
{
}

/// A blank at cell `zl` (column below 3) swaps with the tile one column to
/// the right: that tile's field moves up 4 bits into the blank's field.
pub proof fn lemma_slide_right(b: u64, zl: u64, sh: u64, nb: u64)
    by (bit_vector)
    requires
        zl < 16,
        zl % 4 < 3,
        sh == 56 - 4 * zl,
        nib(b, zl) == 0,
        nb == b & (0xfu64 << sh),
    ensures
        nb <= b,
        b - nb + (nb << 4) <= u64::MAX,
        nb >> sh == nib(b, (zl + 1) as u64),
        nib((b - nb + (nb << 4)) as u64, zl) == nib(b, (zl + 1) as u64),
        nib((b - nb + (nb << 4)) as u64, (zl + 1) as u64) == 0,
        forall|j: u64| j < 16 && j != zl && j != zl + 1 ==> nib((b - nb + (nb << 4)) as u64, j)
            == nib(b, j),
{
}

/// A blank at cell `zl` (column above 0) swaps with the tile one column to
/// the left: that tile's field moves down 4 bits into the blank's field.
pub proof fn lemma_slide_left(b: u64, zl: u64, sh: u64, nb: u64)
    by (bit_vector)
    requires
        zl < 16,
        zl % 4 > 0,
        sh == 64 - 4 * zl,
        nib(b, zl) == 0,
        nb == b & (0xfu64 << sh),
    ensures
        nb <= b,
        b - nb + (nb >> 4) <= u64::MAX,
        nb >> sh == nib(b, (zl - 1) as u64),
        nib((b - nb + (nb >> 4)) as u64, zl) == nib(b, (zl - 1) as u64),
        nib((b - nb + (nb >> 4)) as u64, (zl - 1) as u64) == 0,
        forall|j: u64| j < 16 && j != zl && j != zl - 1 ==> nib((b - nb + (nb >> 4)) as u64, j)
            == nib(b, j),
{
}

/// Row and column of a cell index built as `4 * row + col`.
pub proof fn lemma_rc(r: u8, c: u8)
    by (nonlinear_arith)
    requires
        r < 4,
        c < 4,
    ensures
        (4 * (r as int) + (c as int)) / 4 == r as int,
        (4 * (r as int) + (c as int)) % 4 == c as int,
{
}

/// Target row of a tile value in the solved board.
pub fn desired_row(v: u8) -> (r: u8)
    requires
        v < 16,
    ensures
        r == target_row(v as u64),
{
    if v == 0 {
        3
    } else {
        (v - 1) / 4
    }
}

/// Target column of a tile value in the solved board.
pub fn desired_col(v: u8) -> (r: u8)
    requires
        v < 16,
    ensures
        r == target_col(v as u64),
{
    if v == 0 {
        3
    } else {
        (v - 1) % 4
    }
}

/// Pack an arrangement into a board, most significant nibble first.
pub fn pack_tiles(tiles: &Vec<u8>) -> (b: u64)
    requires
        tiles@.len() == 16,
        forall|i: int| 0 <= i < 16 ==> tiles@[i] < 16,
    ensures
        unpack(b) == tiles@,
{
    let mut acc: u64 = 0;
    let mut k: usize = 0;
    proof {
        lemma_nib_zero();
    }
    while k < 16
        invariant
            tiles@.len() == 16,
            forall|i: int| 0 <= i < 16 ==> tiles@[i] < 16,
            k <= 16,
            forall|i: u64| i < k ==> nib(acc, i) == tiles@[i as int],
            forall|i: u64| k <= i < 16 ==> nib(acc, i) == 0,
        decreases 16 - k,
    {
        let n: u64 = tiles[k] as u64;
        let sh: u64 = (15 - (k as u64)) * 4;
        proof {
            lemma_set_nibble(acc, n, k as u64, sh, acc | (n << sh));
        }
        acc = acc | (n << sh);
        k += 1;
    }
    proof {
        assert(unpack(acc) =~= tiles@);
    }
    acc
}

/// Fully unpack a packed board into its 16 tile values, cell 0 first.
pub fn decode_board(b: u64) -> (r: Vec<u8>)
    ensures
        r@ == unpack(b),
{
    let mut r: Vec<u8> = Vec::new();
    let mut i: u64 = 0;
    while i < 16
        invariant
            i <= 16,
            r@.len() == i,
            forall|j: int| 0 <= j < i ==> r@[j] == unpack(b)[j],
        decreases 16 - i,
    {
        let sh: u64 = (15 - i) * 4;
        let v: u64 = (b >> sh) & 0xf;
        proof {
            lemma_nib_bound(b, i);
        }
        r.push(v as u8);
        i += 1;
    }
    proof {
        assert(r@ =~= unpack(b));
    }
    r
}

} // verus!
