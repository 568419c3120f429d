//! Mathematical model of the puzzle: arrangements as sequences of tile
//! values, the solvability condition, and the meaning of the four move tags.
use vstd::prelude::*;

verus! {

/// An arrangement: exactly 16 tile values, each value 0..15 exactly once.
pub open spec fn is_perm16(s: Seq<u8>) -> bool {
    &&& s.len() == 16
    &&& forall|i: int| 0 <= i < 16 ==> s[i] < 16
    &&& forall|i: int, j: int| 0 <= i < j < 16 ==> s[i] != s[j]
    &&& forall|v: u8| v < 16 ==> s.contains(v)
}

/// The cell holding the blank (value 0); unique in a valid arrangement.
pub open spec fn blank_idx(s: Seq<u8>) -> int {
    choose|i: int| 0 <= i < 16 && s[i] == 0
}

/// Ascending pairs with first index `i`, second index running from `j` up:
/// pairs where the earlier tile is not the blank and the later value is greater.
pub open spec fn asc_inner(s: Seq<u8>, i: int, j: int) -> nat
    decreases s.len() - j,
{
    if j < 0 || j >= s.len() || i < 0 || i >= s.len() {
        0
    } else {
        (if s[i] != 0 && s[j] > s[i] { 1nat } else { 0nat }) + asc_inner(s, i, j + 1)
    }
}

/// Ascending pairs whose first index is `i` or later.
pub open spec fn asc_outer(s: Seq<u8>, i: int) -> nat
    decreases s.len() - i,
{
    if i < 0 || i >= s.len() {
        0
    } else {
        asc_inner(s, i, i + 1) + asc_outer(s, i + 1)
    }
}

/// Number of ordered pairs (i, j), i < j, with s[i] != 0 and s[j] > s[i].
pub open spec fn asc_pairs(s: Seq<u8>) -> nat {
    asc_outer(s, 0)
}

/// The parity invariant: ascending-pair parity equals the blank's row parity.
pub open spec fn parity_ok(s: Seq<u8>) -> bool {
    asc_pairs(s) % 2 == (blank_idx(s) / 4) % 2
}

/// An arrangement is solvable iff it is a permutation of 0..15 and
/// satisfies the parity invariant.
pub open spec fn solvable(s: Seq<u8>) -> bool {
    is_perm16(s) && parity_ok(s)
}

/// The canonical solved arrangement: value i + 1 at cell i, blank last.
pub open spec fn solved_seq() -> Seq<u8> {
    Seq::new(
        16,
        |i: int|
            if i == 15 {
                0u8
            } else {
                (i + 1) as u8
            },
    )
}

/// Target row of a tile value in the solved arrangement.
pub open spec fn target_row(v: u64) -> int {
    if v == 0 {
        3
    } else {
        (v - 1) / 4
    }
}

/// Target column of a tile value in the solved arrangement.
pub open spec fn target_col(v: u64) -> int {
    if v == 0 {
        3
    } else {
        (v - 1) % 4
    }
}

/// In the solved arrangement, the pairs with first index `i < 15` and second
/// index `j` onward are all ascending except the final blank.
proof fn lemma_solved_inner(i: int, j: int)
    requires
        0 <= i < 15,
        i < j <= 15,
    ensures
        asc_inner(solved_seq(), i, j) == 15 - j,
    decreases 15 - j,
{
    let s = solved_seq();
    if j == 15 {
        assert(asc_inner(s, i, 16) == 0);
    } else {
        lemma_solved_inner(i, j + 1);
        assert(s[j] == j + 1 && s[i] == i + 1);
    }
}

/// Twice the ascending-pair count of the solved arrangement from index `i`
/// on is `(14 - i) * (15 - i)`.
proof fn lemma_solved_outer(i: int)
    requires
        0 <= i <= 15,
    ensures
        2 * asc_outer(solved_seq(), i) == (14 - i) * (15 - i),
    decreases 15 - i,
{
    let s = solved_seq();
    if i == 15 {
        assert(asc_inner(s, 15, 16) == 0);
        assert(asc_outer(s, 16) == 0);
    } else {
        lemma_solved_inner(i, i + 1);
        lemma_solved_outer(i + 1);
        assert(2 * (14 - i) + (13 - i) * (14 - i) == (14 - i) * (15 - i)) by (nonlinear_arith);
    }
}

/// The canonical solved arrangement is itself solvable: it is a permutation,
/// its ascending-pair count is 105 (odd), and its blank sits in row 3 (odd).
pub proof fn lemma_solved_solvable()
    ensures
        solvable(solved_seq()),
        blank_idx(solved_seq()) == 15,
{
    let s = solved_seq();
    assert forall|v: u8| v < 16 implies s.contains(v) by {
        if v == 0 {
            assert(s[15] == v);
        } else {
            assert(s[v - 1] == v);
        }
    }
    assert(is_perm16(s));
    assert(s[15] == 0u8);
    assert(s[blank_idx(s)] == 0 && 0 <= blank_idx(s) < 16);
    assert(blank_idx(s) == 15);
    lemma_solved_outer(0);
    assert(asc_pairs(s) == 105);
}

/// A blank in cell `i` contributes no ascending pair as the earlier element.
pub proof fn lemma_asc_inner_blank(s: Seq<u8>, i: int, j: int)
    requires
        0 <= i < s.len(),
        s[i] == 0,
        0 <= j,
    ensures
        asc_inner(s, i, j) == 0,
    decreases s.len() - j,
{
    if j < s.len() {
        lemma_asc_inner_blank(s, i, j + 1);
    }
}

/// The contribution of the pair (i, j) to the ascending-pair count.
pub open spec fn pc(s: Seq<u8>, i: int, j: int) -> nat {
    if s[i] != 0 && s[j] > s[i] {
        1nat
    } else {
        0nat
    }
}

/// `s2` is `s` with the values of cells `p` and `q` exchanged.
pub open spec fn swapped_at(s: Seq<u8>, s2: Seq<u8>, p: int, q: int) -> bool {
    &&& s.len() == s2.len()
    &&& 0 <= p < q < s.len()
    &&& s2[p] == s[q]
    &&& s2[q] == s[p]
    &&& forall|r: int| 0 <= r < s.len() && r != p && r != q ==> s2[r] == s[r]
}

/// Two first elements of equal value see the same ascending pairs over a
/// common tail.
proof fn lemma_inner_shift(s: Seq<u8>, s2: Seq<u8>, i: int, i2: int, j: int)
    requires
        s.len() == s2.len(),
        0 <= i < s.len(),
        0 <= i2 < s2.len(),
        s2[i2] == s[i],
        0 <= j,
        forall|r: int| j <= r < s.len() ==> s2[r] == s[r],
    ensures
        asc_inner(s2, i2, j) == asc_inner(s, i, j),
    decreases s.len() - j,
{
    if j < s.len() {
        lemma_inner_shift(s, s2, i, i2, j + 1);
    }
}

/// After a swap of `p` and `q`, counting from inside the swapped span only
/// the term at `q` changes.
proof fn lemma_inner_mid(s: Seq<u8>, s2: Seq<u8>, p: int, q: int, i: int, j: int)
    requires
        swapped_at(s, s2, p, q),
        0 <= i < s.len(),
        s2[i] == s[i],
        p < j <= q,
    ensures
        asc_inner(s2, i, j) + pc(s, i, q) == asc_inner(s, i, j) + pc(s2, i, q),
    decreases q - j,
{
    if j == q {
        assert forall|r: int| q + 1 <= r < s.len() implies s2[r] == s[r] by {}
        lemma_inner_shift(s, s2, i, i, q + 1);
    } else {
        lemma_inner_mid(s, s2, p, q, i, j + 1);
    }
}

/// After a swap of `p` and `q`, counting from before the swapped span the
/// total is unchanged: the terms at `p` and `q` trade places.
proof fn lemma_inner_low(s: Seq<u8>, s2: Seq<u8>, p: int, q: int, i: int, j: int)
    requires
        swapped_at(s, s2, p, q),
        0 <= i < s.len(),
        s2[i] == s[i],
        0 <= j <= p,
    ensures
        asc_inner(s2, i, j) == asc_inner(s, i, j),
    decreases p - j,
{
    if j == p {
        lemma_inner_mid(s, s2, p, q, i, p + 1);
        assert(pc(s2, i, p) == pc(s, i, q));
        assert(pc(s2, i, q) == pc(s, i, p));
    } else {
        lemma_inner_low(s, s2, p, q, i, j + 1);
    }
}

/// Pairs lying entirely after a swapped span are unchanged by the swap.
proof fn lemma_outer_tail(s: Seq<u8>, s2: Seq<u8>, p: int, q: int, i: int)
    requires
        swapped_at(s, s2, p, q),
        q < i,
    ensures
        asc_outer(s2, i) == asc_outer(s, i),
    decreases s.len() - i,
{
    if q < i < s.len() {
        assert forall|r: int| i + 1 <= r < s.len() implies s2[r] == s[r] by {}
        lemma_inner_shift(s, s2, i, i, i + 1);
        lemma_outer_tail(s, s2, p, q, i + 1);
    }
}

/// Below the swapped span the outer counts differ by the same amount as at
/// the start of the span.
proof fn lemma_outer_low(s: Seq<u8>, s2: Seq<u8>, p: int, q: int, i: int)
    requires
        swapped_at(s, s2, p, q),
        0 <= i <= p,
    ensures
        asc_outer(s2, i) + asc_outer(s, p) == asc_outer(s, i) + asc_outer(s2, p),
    decreases p - i,
{
    if i < p {
        lemma_inner_low(s, s2, p, q, i, i + 1);
        lemma_outer_low(s, s2, p, q, i + 1);
    }
}

/// Swapping the blank with a neighbour in the same row leaves the
/// ascending-pair count unchanged.
proof fn lemma_swap_adjacent_blank(s: Seq<u8>, s2: Seq<u8>, p: int)
    requires
        swapped_at(s, s2, p, p + 1),
        s[p] == 0,
    ensures
        asc_pairs(s2) == asc_pairs(s),
{
    let q = p + 1;
    lemma_outer_tail(s, s2, p, q, q + 1);
    lemma_asc_inner_blank(s, p, p + 1);
    lemma_asc_inner_blank(s2, q, q + 1);
    assert forall|r: int| q + 1 <= r < s.len() implies s2[r] == s[r] by {}
    lemma_inner_shift(s, s2, q, p, q + 1);
    assert(asc_inner(s2, p, q) == pc(s2, p, q) + asc_inner(s2, p, q + 1));
    assert(pc(s2, p, q) == 0);
    assert(asc_outer(s2, p) == asc_inner(s2, p, p + 1) + asc_outer(s2, q));
    assert(asc_outer(s2, q) == asc_inner(s2, q, q + 1) + asc_outer(s2, q + 1));
    assert(asc_outer(s, p) == asc_inner(s, p, p + 1) + asc_outer(s, q));
    assert(asc_outer(s, q) == asc_inner(s, q, q + 1) + asc_outer(s, q + 1));
    assert(asc_outer(s2, p) == asc_outer(s, p));
    lemma_outer_low(s, s2, p, q, 0);
}

/// Swapping the blank with the cell one row below flips the parity of the
/// ascending-pair count: each of the three tiles in between trades exactly
/// one ascending pair with the moved tile.
proof fn lemma_swap_vertical_blank(s: Seq<u8>, s2: Seq<u8>, p: int)
    requires
        swapped_at(s, s2, p, p + 4),
        s[p] == 0,
        is_perm16(s),
    ensures
        asc_pairs(s2) % 2 != asc_pairs(s) % 2,
{
    let q = p + 4;
    let v = s[q];
    assert(v != 0);
    assert(s[p + 1] != 0 && s[p + 1] != v);
    assert(s[p + 2] != 0 && s[p + 2] != v);
    assert(s[p + 3] != 0 && s[p + 3] != v);
    lemma_outer_tail(s, s2, p, q, q + 1);
    lemma_asc_inner_blank(s, p, p + 1);
    lemma_asc_inner_blank(s2, q, q + 1);
    assert forall|r: int| q + 1 <= r < s.len() implies s2[r] == s[r] by {}
    lemma_inner_shift(s, s2, q, p, q + 1);
    // The moved tile, now first at p, sees the three middles and the tail.
    assert(asc_inner(s2, p, p + 1) == pc(s2, p, p + 1) + asc_inner(s2, p, p + 2));
    assert(asc_inner(s2, p, p + 2) == pc(s2, p, p + 2) + asc_inner(s2, p, p + 3));
    assert(asc_inner(s2, p, p + 3) == pc(s2, p, p + 3) + asc_inner(s2, p, p + 4));
    assert(asc_inner(s2, p, q) == pc(s2, p, q) + asc_inner(s2, p, q + 1));
    assert(pc(s2, p, q) == 0);
    // Each middle, as a first element, loses or gains the pair with `q`.
    lemma_inner_mid(s, s2, p, q, p + 1, p + 2);
    lemma_inner_mid(s, s2, p, q, p + 2, p + 3);
    lemma_inner_mid(s, s2, p, q, p + 3, p + 4);
    assert(pc(s2, p + 1, q) == 0 && pc(s2, p + 2, q) == 0 && pc(s2, p + 3, q) == 0);
    let x1 = pc(s, p + 1, q);
    let x2 = pc(s, p + 2, q);
    let x3 = pc(s, p + 3, q);
    let y1 = pc(s2, p, p + 1);
    let y2 = pc(s2, p, p + 2);
    let y3 = pc(s2, p, p + 3);
    assert(x1 + y1 == 1);
    assert(x2 + y2 == 1);
    assert(x3 + y3 == 1);
    // Sum the five outer terms of the span on both sides.
    assert(asc_outer(s2, p) == asc_inner(s2, p, p + 1) + asc_outer(s2, p + 1));
    assert(asc_outer(s2, p + 1) == asc_inner(s2, p + 1, p + 2) + asc_outer(s2, p + 2));
    assert(asc_outer(s2, p + 2) == asc_inner(s2, p + 2, p + 3) + asc_outer(s2, p + 3));
    assert(asc_outer(s2, p + 3) == asc_inner(s2, p + 3, p + 4) + asc_outer(s2, q));
    assert(asc_outer(s2, q) == asc_inner(s2, q, q + 1) + asc_outer(s2, q + 1));
    assert(asc_outer(s, p) == asc_inner(s, p, p + 1) + asc_outer(s, p + 1));
    assert(asc_outer(s, p + 1) == asc_inner(s, p + 1, p + 2) + asc_outer(s, p + 2));
    assert(asc_outer(s, p + 2) == asc_inner(s, p + 2, p + 3) + asc_outer(s, p + 3));
    assert(asc_outer(s, p + 3) == asc_inner(s, p + 3, p + 4) + asc_outer(s, q));
    assert(asc_outer(s, q) == asc_inner(s, q, q + 1) + asc_outer(s, q + 1));
    assert(asc_outer(s2, p) + x1 + x2 + x3 == asc_outer(s, p) + y1 + y2 + y3);
    lemma_outer_low(s, s2, p, q, 0);
    assert(asc_pairs(s2) + x1 + x2 + x3 == asc_pairs(s) + y1 + y2 + y3);
    assert(asc_pairs(s2) + 2 * (x1 + x2 + x3) == asc_pairs(s) + 3);
}

/// Swapping two cells of a permutation of 0..15 gives a permutation again.
proof fn lemma_swap_perm(s: Seq<u8>, s2: Seq<u8>, p: int, q: int)
    requires
        is_perm16(s),
        swapped_at(s, s2, p, q),
    ensures
        is_perm16(s2),
{
    assert forall|i: int, j: int| 0 <= i < j < 16 implies s2[i] != s2[j] by {
        let a: int = if i == p {
            q
        } else if i == q {
            p
        } else {
            i
        };
        let b: int = if j == p {
            q
        } else if j == q {
            p
        } else {
            j
        };
        assert(s2[i] == s[a] && s2[j] == s[b] && a != b);
        if a < b {
            assert(s[a] != s[b]);
        } else {
            assert(s[b] != s[a]);
        }
    }
    assert forall|v: u8| v < 16 implies s2.contains(v) by {
        assert(s.contains(v));
        let w = choose|i: int| 0 <= i < 16 && s[i] == v;
        let w2: int = if w == p {
            q
        } else if w == q {
            p
        } else {
            w
        };
        assert(s2[w2] == v);
    }
}

/// A legal blank slide carries a solvable arrangement to a solvable one:
/// the parity invariant that the solvability check tests is preserved by
/// every legal move.
pub proof fn lemma_slide_preserves_solvable(s: Seq<u8>, t: char)
    requires
        solvable(s),
        tag_legal(blank_idx(s), t),
    ensures
        solvable(slide(s, blank_idx(s), t)),
        blank_idx(slide(s, blank_idx(s), t)) == blank_idx(s) + tag_delta(t),
{
    let b = blank_idx(s);
    assert(exists|i: int| 0 <= i < 16 && s[i] == 0) by {
        assert(s.contains(0u8));
        let w = choose|i: int| 0 <= i < 16 && s[i] == 0u8;
        assert(s[w] == 0);
    }
    assert(0 <= b < 16 && s[b] == 0);
    let d = tag_delta(t);
    let m = b + d;
    let s2 = slide(s, b, t);
    vstd::arithmetic::div_mod::lemma_fundamental_div_mod(b, 4);
    assert(0 <= m < 16) by {
        if t == 'r' || t == 'l' {
            assert(4 * (b / 4) <= b - b % 4 + 3);
        }
    }
    let p: int = if d > 0 {
        b
    } else {
        m
    };
    let q: int = if d > 0 {
        m
    } else {
        b
    };
    assert(swapped_at(s, s2, p, q));
    lemma_swap_perm(s, s2, p, q);
    assert(blank_idx(s2) == m) by {
        assert(s2[m] == 0);
        let c = blank_idx(s2);
        assert(0 <= c < 16 && s2[c] == 0);
        if c != m {
            if c < m {
                assert(s2[c] != s2[m]);
            } else {
                assert(s2[m] != s2[c]);
            }
        }
    }
    if t == 'd' {
        lemma_swap_vertical_blank(s, s2, b);
        assert(m / 4 == b / 4 + 1) by {
            vstd::arithmetic::div_mod::lemma_fundamental_div_mod_converse(m, 4, b / 4 + 1, b % 4);
        }
    } else if t == 'u' {
        assert(swapped_at(s2, s, m, b));
        assert(is_perm16(s2));
        lemma_swap_vertical_blank(s2, s, m);
        assert(b / 4 == m / 4 + 1) by {
            vstd::arithmetic::div_mod::lemma_fundamental_div_mod(m, 4);
            vstd::arithmetic::div_mod::lemma_fundamental_div_mod_converse(b, 4, m / 4 + 1, m % 4);
        }
    } else if t == 'r' {
        lemma_swap_adjacent_blank(s, s2, b);
        assert(m / 4 == b / 4) by {
            vstd::arithmetic::div_mod::lemma_fundamental_div_mod_converse(m, 4, b / 4, b % 4 + 1);
        }
    } else {
        assert(swapped_at(s2, s, m, b));
        lemma_swap_adjacent_blank(s2, s, m);
        assert(b / 4 == m / 4) by {
            vstd::arithmetic::div_mod::lemma_fundamental_div_mod(m, 4);
            vstd::arithmetic::div_mod::lemma_fundamental_div_mod_converse(b, 4, m / 4, m % 4 + 1);
        }
    }
}

/// Legal slides keep an arrangement solvable along a whole tag sequence.
proof fn lemma_slides_preserve_solvable(s: Seq<u8>, tags: Seq<char>)
    requires
        solvable(s),
        slides_ok(s, blank_idx(s), tags),
    ensures
        solvable(slide_all(s, blank_idx(s), tags)),
    decreases tags.len(),
{
    if tags.len() > 0 {
        lemma_slide_preserves_solvable(s, tags[0]);
        lemma_slides_preserve_solvable(slide(s, blank_idx(s), tags[0]), tags.drop_first());
    }
}

/// Every arrangement reachable from the canonical solved arrangement by a
/// sequence of legal blank slides passes the solvability check. (This is
/// one direction of the classical parity theorem; the converse, that every
/// accepted arrangement is reachable, is not proved here.)
pub proof fn lemma_reachable_is_solvable(tags: Seq<char>)
    requires
        slides_ok(solved_seq(), 15, tags),
    ensures
        solvable(slide_all(solved_seq(), 15, tags)),
{
    lemma_solved_solvable();
    lemma_slides_preserve_solvable(solved_seq(), tags);
}

/// The four move tags, named by the direction the blank travels.
pub open spec fn is_tag(c: char) -> bool {
    c == 'd' || c == 'u' || c == 'r' || c == 'l'
}

/// Two tags that undo one another.
pub open spec fn inverse_tag(a: char, b: char) -> bool {
    ||| (a == 'd' && b == 'u')
    ||| (a == 'u' && b == 'd')
    ||| (a == 'r' && b == 'l')
    ||| (a == 'l' && b == 'r')
}

/// No move is immediately undone anywhere in a tag sequence.
pub open spec fn no_adjacent_inverses(tags: Seq<char>) -> bool {
    forall|i: int| #![trigger tags[i]] 0 <= i && i + 1 < tags.len() ==> !inverse_tag(
        tags[i],
        tags[i + 1],
    )
}

/// How the blank's cell index changes under a tag.
pub open spec fn tag_delta(t: char) -> int {
    if t == 'd' {
        4
    } else if t == 'u' {
        -4
    } else if t == 'r' {
        1
    } else if t == 'l' {
        -1
    } else {
        0
    }
}

/// A tag is legal when the blank, at cell `b`, is not on the matching edge.
pub open spec fn tag_legal(b: int, t: char) -> bool {
    &&& 0 <= b < 16
    &&& if t == 'd' {
        b / 4 < 3
    } else if t == 'u' {
        b / 4 > 0
    } else if t == 'r' {
        b % 4 < 3
    } else if t == 'l' {
        b % 4 > 0
    } else {
        false
    }
}

/// One blank slide: the adjacent tile moves into the blank's cell and
/// leaves the blank behind.
pub open spec fn slide(s: Seq<u8>, b: int, t: char) -> Seq<u8> {
    s.update(b, s[b + tag_delta(t)]).update(b + tag_delta(t), 0u8)
}

/// The 0/1 cost of a slide: 1 when the move carries the displaced tile away
/// from its target along the move's own axis.
pub open spec fn slide_cost(s: Seq<u8>, b: int, t: char) -> int {
    if t == 'd' {
        if b / 4 < target_row(s[b + 4] as u64) {
            1
        } else {
            0
        }
    } else if t == 'u' {
        if b / 4 > target_row(s[b - 4] as u64) {
            1
        } else {
            0
        }
    } else if t == 'r' {
        if b % 4 < target_col(s[b + 1] as u64) {
            1
        } else {
            0
        }
    } else {
        if b % 4 > target_col(s[b - 1] as u64) {
            1
        } else {
            0
        }
    }
}

/// Every tag in the sequence is legal when applied in order from `(s, b)`.
pub open spec fn slides_ok(s: Seq<u8>, b: int, tags: Seq<char>) -> bool
    decreases tags.len(),
{
    if tags.len() == 0 {
        true
    } else {
        &&& tag_legal(b, tags[0])
        &&& slides_ok(slide(s, b, tags[0]), b + tag_delta(tags[0]), tags.drop_first())
    }
}

/// The arrangement reached by applying the whole tag sequence in order.
pub open spec fn slide_all(s: Seq<u8>, b: int, tags: Seq<char>) -> Seq<u8>
    decreases tags.len(),
{
    if tags.len() == 0 {
        s
    } else {
        slide_all(slide(s, b, tags[0]), b + tag_delta(tags[0]), tags.drop_first())
    }
}

/// The total of the 0/1 bad-move increments over a whole tag sequence.
pub open spec fn slide_cost_sum(s: Seq<u8>, b: int, tags: Seq<char>) -> int
    decreases tags.len(),
{
    if tags.len() == 0 {
        0
    } else {
        slide_cost(s, b, tags[0]) + slide_cost_sum(
            slide(s, b, tags[0]),
            b + tag_delta(tags[0]),
            tags.drop_first(),
        )
    }
}

/// The accumulated cost stays within the limit at every node the search must
/// step through: after every move except the last, since the goal test
/// precedes the cost test.
pub open spec fn prefix_costs_ok(s: Seq<u8>, b: int, c: int, limit: int, tags: Seq<char>) -> bool
    decreases tags.len(),
{
    if tags.len() <= 1 {
        true
    } else {
        &&& c + slide_cost(s, b, tags[0]) <= limit
        &&& prefix_costs_ok(
            slide(s, b, tags[0]),
            b + tag_delta(tags[0]),
            c + slide_cost(s, b, tags[0]),
            limit,
            tags.drop_first(),
        )
    }
}

/// A winning continuation for the bounded search at a node: a nonempty legal
/// slide sequence that never immediately reverses a move (nor the node's own
/// last move `last`), keeps every intermediate accumulated cost within the
/// limit, and ends at the solved arrangement.
pub open spec fn wins(s: Seq<u8>, b: int, last: char, c: int, limit: int, tags: Seq<char>) -> bool {
    &&& tags.len() >= 1
    &&& slides_ok(s, b, tags)
    &&& !inverse_tag(last, tags[0])
    &&& no_adjacent_inverses(tags)
    &&& slide_all(s, b, tags) == solved_seq()
    &&& prefix_costs_ok(s, b, c, limit, tags)
}

/// No winning continuation exists for the bounded search at this node.
pub open spec fn no_win(s: Seq<u8>, b: int, last: char, c: int, limit: int) -> bool {
    !(exists|tags: Seq<char>| wins(s, b, last, c, limit, tags))
}

/// The trace of a search branch cut off by the path capacity rather than by
/// the rules: legal, never-reversing slides that stay within the cost limit
/// at every node and never reach the solved arrangement.
pub open spec fn deep_run(
    s: Seq<u8>,
    b: int,
    last: char,
    c: int,
    limit: int,
    tags: Seq<char>,
) -> bool
    decreases tags.len(),
{
    if tags.len() == 0 {
        true
    } else {
        &&& tag_legal(b, tags[0])
        &&& !inverse_tag(last, tags[0])
        &&& slide(s, b, tags[0]) != solved_seq()
        &&& c + slide_cost(s, b, tags[0]) <= limit
        &&& deep_run(
            slide(s, b, tags[0]),
            b + tag_delta(tags[0]),
            tags[0],
            c + slide_cost(s, b, tags[0]),
            limit,
            tags.drop_first(),
        )
    }
}

/// One more legal, in-limit, unsolved step in front of a deep run gives a
/// deep run one move longer.
pub proof fn lemma_deep_run_prepend(
    s: Seq<u8>,
    b: int,
    last: char,
    c: int,
    limit: int,
    t: char,
    tags: Seq<char>,
)
    requires
        tag_legal(b, t),
        !inverse_tag(last, t),
        slide(s, b, t) != solved_seq(),
        c + slide_cost(s, b, t) <= limit,
        deep_run(slide(s, b, t), b + tag_delta(t), t, c + slide_cost(s, b, t), limit, tags),
    ensures
        deep_run(s, b, last, c, limit, seq![t] + tags),
        (seq![t] + tags).len() == tags.len() + 1,
{
    let w = seq![t] + tags;
    assert(w[0] == t);
    assert(w.drop_first() =~= tags);
}

/// A winning continuation of more than one move stays winning after its
/// first move is taken.
pub proof fn lemma_wins_tail(s: Seq<u8>, b: int, last: char, c: int, limit: int, tags: Seq<char>)
    requires
        wins(s, b, last, c, limit, tags),
        tags.len() > 1,
    ensures
        wins(
            slide(s, b, tags[0]),
            b + tag_delta(tags[0]),
            tags[0],
            c + slide_cost(s, b, tags[0]),
            limit,
            tags.drop_first(),
        ),
{
    let t2 = tags.drop_first();
    assert(t2[0] == tags[1]);
    assert(!inverse_tag(tags[0], tags[1]));
    assert forall|i: int| #![trigger t2[i]] 0 <= i && i + 1 < t2.len() implies !inverse_tag(
        t2[i],
        t2[i + 1],
    ) by {
        assert(t2[i] == tags[i + 1] && t2[i + 1] == tags[i + 2]);
        assert(!inverse_tag(tags[i + 1], tags[i + 2]));
    }
}

} // verus!
