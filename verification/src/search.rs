//! The bounded depth-first search: a preallocated path of search nodes, four
//! move operators over the packed board, and an outer loop that raises the
//! accumulated-cost limit until the solved board is reached.
use vstd::prelude::*;

use crate::board::{
    desired_col, desired_row, lemma_nib_bound, lemma_rc, lemma_slide_down, lemma_slide_left,
    lemma_slide_right, lemma_slide_up, lemma_solved_board_seq, lemma_unpack_injective, nib,
    pack_tiles, unpack, SOLVED_BOARD,
};
use crate::model::{
    blank_idx, deep_run, inverse_tag, is_perm16, is_tag, lemma_deep_run_prepend, lemma_wins_tail,
    no_adjacent_inverses, no_win, slide, slide_all, slide_cost, slide_cost_sum, slides_ok,
    solved_seq, tag_delta, tag_legal, wins,
};

verus! {

/// Fixed capacity of the search path, root included: the depth ceiling.
pub const MAX_DEPTH: usize = 150;

/// Message returned when the search would exceed the path capacity.
pub open spec fn depth_msg() -> Seq<char> {
    "Search depth exceeded"@
}

/// Cell coordinates of the blank: row and column, each 0..3.
#[derive(Clone, Copy)]
pub struct Position {
    pub row: u8,
    pub col: u8,
}

/// One search node: a packed board, the blank's position, the tag of the
/// move that produced it, and the accumulated 0/1 move costs.
#[derive(Clone, Copy)]
pub struct State {
    pub zero_pos: Position,
    pub board: u64,
    pub step: char,
    pub path_cost: u32,
}

/// The blank's cell index, 0..15, row major.
pub open spec fn blank_of(st: State) -> int {
    4 * (st.zero_pos.row as int) + (st.zero_pos.col as int)
}

/// A node is well formed when the blank position is on the grid and the
/// board's field at that cell really holds the blank.
pub open spec fn node_wf(st: State) -> bool {
    &&& st.zero_pos.row < 4
    &&& st.zero_pos.col < 4
    &&& nib(st.board, blank_of(st) as u64) == 0
}

/// `c` is the node reached from `p` by the legal, non-reversing move `c.step`.
#[verifier::opaque]
pub open spec fn succ_of(p: State, c: State) -> bool {
    &&& is_tag(c.step)
    &&& !inverse_tag(p.step, c.step)
    &&& tag_legal(blank_of(p), c.step)
    &&& blank_of(c) == blank_of(p) + tag_delta(c.step)
    &&& c.zero_pos.row < 4
    &&& c.zero_pos.col < 4
    &&& unpack(c.board) == slide(unpack(p.board), blank_of(p), c.step)
    &&& c.path_cost == p.path_cost + slide_cost(unpack(p.board), blank_of(p), c.step)
}

/// The tags recorded along the path from node `a` (exclusive) to node `k`.
pub open spec fn tags_of(sts: Seq<State>, a: int, k: int) -> Seq<char> {
    Seq::new((k - a) as nat, |j: int| sts[a + 1 + j].step)
}

/// Outcome of one depth-first step.
pub enum Outcome {
    /// The solved board was reached; the path up to the current index is the answer.
    Found,
    /// Every allowed continuation was tried within the cost limit, without success.
    Exhausted,
    /// A continuation would have needed a node beyond the path capacity.
    TooDeep,
}

/// A well-formed chain of nodes is a legal slide sequence: applying the
/// recorded tags in order carries the first board to the last.
pub proof fn lemma_chain(sts: Seq<State>, a: int, k: int)
    requires
        0 <= a <= k < sts.len(),
        forall|i: int| a <= i < k ==> succ_of(#[trigger] sts[i], sts[i + 1]),
        forall|i: int| a <= i <= k ==> node_wf(#[trigger] sts[i]),
    ensures
        slides_ok(unpack(sts[a].board), blank_of(sts[a]), tags_of(sts, a, k)),
        slide_all(unpack(sts[a].board), blank_of(sts[a]), tags_of(sts, a, k)) == unpack(
            sts[k].board,
        ),
        sts[k].path_cost == sts[a].path_cost + slide_cost_sum(
            unpack(sts[a].board),
            blank_of(sts[a]),
            tags_of(sts, a, k),
        ),
    decreases k - a,
{
    if a == k {
        assert(tags_of(sts, a, k) =~= Seq::<char>::empty());
    } else {
        reveal(crate::search::succ_of);
        assert(succ_of(sts[a], sts[a + 1]));
        lemma_chain(sts, a + 1, k);
        let tags = tags_of(sts, a, k);
        assert(tags[0] == sts[a + 1].step);
        assert(tags.drop_first() =~= tags_of(sts, a + 1, k));
        assert(slide(unpack(sts[a].board), blank_of(sts[a]), tags[0]) == unpack(sts[a + 1].board));
        assert(blank_of(sts[a]) + tag_delta(tags[0]) == blank_of(sts[a + 1]));
    }
}

/// What a failed probe of direction `t` from node `st` means at the
/// arrangement level: the successor is not the solved arrangement, and
/// either its accumulated cost breaks the limit or no winning continuation
/// exists from it.
spec fn probe_failed(st: State, t: char, limit: u32) -> bool {
    &&& slide(unpack(st.board), blank_of(st), t) != solved_seq()
    &&& (st.path_cost + slide_cost(unpack(st.board), blank_of(st), t) > limit || no_win(
        slide(unpack(st.board), blank_of(st), t),
        blank_of(st) + tag_delta(t),
        t,
        st.path_cost + slide_cost(unpack(st.board), blank_of(st), t),
        limit as int,
    ))
}

/// Convert what `check` reports about the freshly written successor node
/// into a failed probe of its direction.
proof fn lemma_branch_fact(st: State, ch: State, t: char, limit: u32)
    requires
        succ_of(st, ch),
        ch.step == t,
        ch.board != SOLVED_BOARD,
        ch.path_cost > limit || no_win(
            unpack(ch.board),
            blank_of(ch),
            ch.step,
            ch.path_cost as int,
            limit as int,
        ),
    ensures
        probe_failed(st, t, limit),
{
    reveal(crate::search::succ_of);
    if slide(unpack(st.board), blank_of(st), t) == solved_seq() {
        lemma_solved_board_seq();
        lemma_unpack_injective(ch.board, SOLVED_BOARD);
    }
    if st.path_cost + slide_cost(unpack(st.board), blank_of(st), t) <= limit {
        assert(ch.path_cost <= limit);
        assert(unpack(ch.board) == slide(unpack(st.board), blank_of(st), t));
        assert(blank_of(ch) == blank_of(st) + tag_delta(t));
        assert(ch.path_cost as int == st.path_cost + slide_cost(unpack(st.board), blank_of(st), t));
        assert(no_win(
            slide(unpack(st.board), blank_of(st), t),
            blank_of(st) + tag_delta(t),
            t,
            st.path_cost + slide_cost(unpack(st.board), blank_of(st), t),
            limit as int,
        ));
    }
}

/// Convert a capacity cutoff that `check` reports below a freshly written
/// successor into a deep run one move longer from the node itself.
proof fn lemma_branch_deep(st: State, ch: State, t: char, limit: u32, tags: Seq<char>)
    requires
        succ_of(st, ch),
        ch.step == t,
        ch.board != SOLVED_BOARD,
        ch.path_cost <= limit,
        deep_run(unpack(ch.board), blank_of(ch), ch.step, ch.path_cost as int, limit as int, tags),
    ensures
        deep_run(
            unpack(st.board),
            blank_of(st),
            st.step,
            st.path_cost as int,
            limit as int,
            seq![t] + tags,
        ),
        (seq![t] + tags).len() == tags.len() + 1,
{
    reveal(crate::search::succ_of);
    if slide(unpack(st.board), blank_of(st), t) == solved_seq() {
        lemma_solved_board_seq();
        lemma_unpack_injective(ch.board, SOLVED_BOARD);
    }
    lemma_deep_run_prepend(
        unpack(st.board),
        blank_of(st),
        st.step,
        st.path_cost as int,
        limit as int,
        t,
        tags,
    );
}

/// When every direction that the edge and no-reversal rules allow has been
/// probed without success, no winning continuation exists at the node: any
/// candidate tag sequence would have to start with one of the four probed
/// moves.
proof fn lemma_exhausted_no_win(st: State, limit: u32)
    requires
        node_wf(st),
        st.zero_pos.row != 3 && st.step != 'u' ==> probe_failed(st, 'd', limit),
        st.zero_pos.row != 0 && st.step != 'd' ==> probe_failed(st, 'u', limit),
        st.zero_pos.col != 3 && st.step != 'l' ==> probe_failed(st, 'r', limit),
        st.zero_pos.col != 0 && st.step != 'r' ==> probe_failed(st, 'l', limit),
    ensures
        no_win(unpack(st.board), blank_of(st), st.step, st.path_cost as int, limit as int),
{
    let s0 = unpack(st.board);
    let b0 = blank_of(st);
    let c0 = st.path_cost as int;
    let l0 = limit as int;
    lemma_rc(st.zero_pos.row, st.zero_pos.col);
    if exists|tags: Seq<char>| wins(s0, b0, st.step, c0, l0, tags) {
        let w = choose|tags: Seq<char>| wins(s0, b0, st.step, c0, l0, tags);
        let t0 = w[0];
        assert(tag_legal(b0, t0));
        assert(!inverse_tag(st.step, t0));
        if w.len() == 1 {
            assert(w.drop_first().len() == 0);
            assert(slide_all(slide(s0, b0, t0), b0 + tag_delta(t0), w.drop_first()) == slide(
                s0,
                b0,
                t0,
            ));
            assert(slide_all(s0, b0, w) == slide(s0, b0, t0));
        } else {
            lemma_wins_tail(s0, b0, st.step, c0, l0, w);
        }
        if t0 == 'd' {
            assert(st.zero_pos.row != 3 && st.step != 'u');
            assert(false);
        } else if t0 == 'u' {
            assert(st.zero_pos.row != 0 && st.step != 'd');
            assert(false);
        } else if t0 == 'r' {
            assert(st.zero_pos.col != 3 && st.step != 'l');
            assert(false);
        } else if t0 == 'l' {
            assert(st.zero_pos.col != 0 && st.step != 'r');
            assert(false);
        } else {
            assert(false);
        }
    }
}

/// Relies on String::push: it appends exactly one character at the end.
#[verifier::external_body]
fn push_char(s: &mut String, c: char)
    ensures
        final(s)@ == old(s)@.push(c),
{
    s.push(c);
}

impl State {
    /// The root node for an arrangement: the packed board, the blank's
    /// position, no move tag yet, and cost zero.
    pub fn new(tiles: Vec<u8>) -> (st: State)
        requires
            is_perm16(tiles@),
        ensures
            node_wf(st),
            unpack(st.board) == tiles@,
            blank_of(st) == blank_idx(tiles@),
            st.step == '0',
            st.path_cost == 0,
    {
        let mut zi: usize = 0;
        while tiles[zi] != 0
            invariant
                is_perm16(tiles@),
                zi < 16,
                forall|i: int| 0 <= i < zi ==> tiles@[i] != 0,
            decreases 16 - zi,
        {
            proof {
                assert(tiles@.contains(0u8));
                let w = choose|i: int| 0 <= i < 16 && tiles@[i] == 0u8;
                assert(w > zi);
            }
            zi += 1;
        }
        proof {
            let c = blank_idx(tiles@);
            assert(0 <= c < 16 && tiles@[c] == 0);
            if c != zi as int {
                assert(tiles@[c] != tiles@[zi as int]);
            }
        }
        let board = pack_tiles(&tiles);
        let row: u8 = (zi / 4) as u8;
        let col: u8 = (zi % 4) as u8;
        let st = State {
            zero_pos: Position { row, col },
            board,
            step: '0',
            path_cost: 0,
        };
        proof {
            assert(4 * ((zi as int) / 4) + (zi as int) % 4 == zi as int) by (nonlinear_arith);
            assert(blank_of(st) == zi as int);
            assert(unpack(st.board)[zi as int] == tiles@[zi as int]);
            lemma_nib_bound(st.board, zi as u64);
            assert(nib(st.board, zi as u64) == 0);
        }
        st
    }
}

/// The search driver: a preallocated path of nodes, the index of the current
/// node, and the accumulated-cost limit of the current outer iteration.
pub struct PathExplorer {
    pub states: Vec<State>,
    pub index: usize,
    pub path_cost_limit: u32,
}

impl PathExplorer {
    /// The path is well formed: nodes 0..=index form a chain of legal,
    /// non-reversing moves from a well-formed root with no tag and cost 0.
    pub open spec fn wf(self) -> bool {
        &&& self.states@.len() == MAX_DEPTH
        &&& self.index < MAX_DEPTH
        &&& self.states@[0].step == '0'
        &&& self.states@[0].path_cost == 0
        &&& forall|i: int|
            0 <= i < self.index ==> succ_of(#[trigger] self.states@[i], self.states@[i + 1])
        &&& forall|i: int|
            0 <= i <= self.index ==> node_wf(#[trigger] self.states@[i])
                && self.states@[i].path_cost <= i
    }

    /// A fresh driver whose root node encodes the given arrangement.
    pub fn new(tiles: Vec<u8>) -> (pe: PathExplorer)
        requires
            is_perm16(tiles@),
        ensures
            pe.wf(),
            pe.index == 0,
            pe.path_cost_limit == 0,
            unpack(pe.states@[0].board) == tiles@,
            blank_of(pe.states@[0]) == blank_idx(tiles@),
    {
        let root = State::new(tiles);
        let states: Vec<State> = vec![root; MAX_DEPTH];
        PathExplorer { states, index: 0, path_cost_limit: 0 }
    }

    /// The node the search currently stands on.
    pub fn curr_state(&self) -> (st: &State)
        requires
            self.index < self.states@.len(),
        ensures
            *st == self.states@[self.index as int],
    {
        &self.states[self.index]
    }

    /// Slide the tile below the blank up into the blank's cell: the blank
    /// moves down one row. Writes the successor at the next path slot.
    pub fn move_d(&mut self)
        requires
            old(self).wf(),
            old(self).index + 1 < MAX_DEPTH,
            old(self).states@[old(self).index as int].zero_pos.row != 3,
            old(self).states@[old(self).index as int].step != 'u',
        ensures
            final(self).wf(),
            final(self).index == old(self).index,
            final(self).path_cost_limit == old(self).path_cost_limit,
            final(self).states@.len() == MAX_DEPTH,
            forall|i: int|
                0 <= i < MAX_DEPTH && i != old(self).index + 1 ==> final(self).states@[i] == old(
                    self,
                ).states@[i],
            succ_of(
                old(self).states@[old(self).index as int],
                final(self).states@[old(self).index + 1],
            ),
            node_wf(final(self).states@[old(self).index + 1]),
            final(self).states@[old(self).index + 1].path_cost <= old(self).index + 1,
            final(self).states@[old(self).index + 1].step == 'd',
    {
        let st: State = self.states[self.index];
        proof {
            lemma_rc(st.zero_pos.row, st.zero_pos.col);
        }
        let zl: u64 = (st.zero_pos.row as u64) * 4 + (st.zero_pos.col as u64);
        let sh: u64 = 44 - 4 * zl;
        let nb: u64 = st.board & (0xfu64 << sh);
        proof {
            assert(zl == blank_of(st) as u64);
            lemma_slide_down(st.board, zl, sh, nb);
            lemma_nib_bound(st.board, (zl + 4) as u64);
        }
        let tile: u64 = nb >> sh;
        let bad: bool = st.zero_pos.row < desired_row(tile as u8);
        let cost: u32 = st.path_cost + if bad {
            1
        } else {
            0
        };
        let nb2: u64 = st.board - nb + (nb << 16);
        let ns = State {
            zero_pos: Position { row: st.zero_pos.row + 1, col: st.zero_pos.col },
            board: nb2,
            step: 'd',
            path_cost: cost,
        };
        self.states.set(self.index + 1, ns);
        proof {
            reveal(crate::search::succ_of);
            assert(unpack(ns.board) =~= slide(unpack(st.board), blank_of(st), 'd')) by {
                assert forall|j: int| 0 <= j < 16 implies unpack(ns.board)[j] == slide(
                    unpack(st.board),
                    blank_of(st),
                    'd',
                )[j] by {
                    if j != zl as int && j != zl as int + 4 {
                        assert(nib(nb2, j as u64) == nib(st.board, j as u64));
                    }
                }
            }
            assert(unpack(st.board)[blank_of(st) + 4] == tile);
            assert(succ_of(st, ns));
        }
    }

    /// Slide the tile above the blank down into the blank's cell: the blank
    /// moves up one row. Writes the successor at the next path slot.
    pub fn move_u(&mut self)
        requires
            old(self).wf(),
            old(self).index + 1 < MAX_DEPTH,
            old(self).states@[old(self).index as int].zero_pos.row != 0,
            old(self).states@[old(self).index as int].step != 'd',
        ensures
            final(self).wf(),
            final(self).index == old(self).index,
            final(self).path_cost_limit == old(self).path_cost_limit,
            final(self).states@.len() == MAX_DEPTH,
            forall|i: int|
                0 <= i < MAX_DEPTH && i != old(self).index + 1 ==> final(self).states@[i] == old(
                    self,
                ).states@[i],
            succ_of(
                old(self).states@[old(self).index as int],
                final(self).states@[old(self).index + 1],
            ),
            node_wf(final(self).states@[old(self).index + 1]),
            final(self).states@[old(self).index + 1].path_cost <= old(self).index + 1,
            final(self).states@[old(self).index + 1].step == 'u',
    {
        let st: State = self.states[self.index];
        proof {
            lemma_rc(st.zero_pos.row, st.zero_pos.col);
        }
        let zl: u64 = (st.zero_pos.row as u64) * 4 + (st.zero_pos.col as u64);
        let sh: u64 = 76 - 4 * zl;
        let nb: u64 = st.board & (0xfu64 << sh);
        proof {
            assert(zl == blank_of(st) as u64);
            lemma_slide_up(st.board, zl, sh, nb);
            lemma_nib_bound(st.board, (zl - 4) as u64);
        }
        let tile: u64 = nb >> sh;
        let bad: bool = st.zero_pos.row > desired_row(tile as u8);
        let cost: u32 = st.path_cost + if bad {
            1
        } else {
            0
        };
        let nb2: u64 = st.board - nb + (nb >> 16);
        let ns = State {
            zero_pos: Position { row: st.zero_pos.row - 1, col: st.zero_pos.col },
            board: nb2,
            step: 'u',
            path_cost: cost,
        };
        self.states.set(self.index + 1, ns);
        proof {
            reveal(crate::search::succ_of);
            assert(unpack(ns.board) =~= slide(unpack(st.board), blank_of(st), 'u')) by {
                assert forall|j: int| 0 <= j < 16 implies unpack(ns.board)[j] == slide(
                    unpack(st.board),
                    blank_of(st),
                    'u',
                )[j] by {
                    if j != zl as int && j != zl as int - 4 {
                        assert(nib(nb2, j as u64) == nib(st.board, j as u64));
                    }
                }
            }
            assert(unpack(st.board)[blank_of(st) - 4] == tile);
            assert(succ_of(st, ns));
        }
    }

    /// Slide the tile right of the blank left into the blank's cell: the
    /// blank moves right one column. Writes the successor at the next slot.
    pub fn move_r(&mut self)
        requires
            old(self).wf(),
            old(self).index + 1 < MAX_DEPTH,
            old(self).states@[old(self).index as int].zero_pos.col != 3,
            old(self).states@[old(self).index as int].step != 'l',
        ensures
            final(self).wf(),
            final(self).index == old(self).index,
            final(self).path_cost_limit == old(self).path_cost_limit,
            final(self).states@.len() == MAX_DEPTH,
            forall|i: int|
                0 <= i < MAX_DEPTH && i != old(self).index + 1 ==> final(self).states@[i] == old(
                    self,
                ).states@[i],
            succ_of(
                old(self).states@[old(self).index as int],
                final(self).states@[old(self).index + 1],
            ),
            node_wf(final(self).states@[old(self).index + 1]),
            final(self).states@[old(self).index + 1].path_cost <= old(self).index + 1,
            final(self).states@[old(self).index + 1].step == 'r',
    {
        let st: State = self.states[self.index];
        proof {
            lemma_rc(st.zero_pos.row, st.zero_pos.col);
        }
        let zl: u64 = (st.zero_pos.row as u64) * 4 + (st.zero_pos.col as u64);
        let sh: u64 = 56 - 4 * zl;
        let nb: u64 = st.board & (0xfu64 << sh);
        proof {
            assert(zl == blank_of(st) as u64);
            lemma_slide_right(st.board, zl, sh, nb);
            lemma_nib_bound(st.board, (zl + 1) as u64);
        }
        let tile: u64 = nb >> sh;
        let bad: bool = st.zero_pos.col < desired_col(tile as u8);
        let cost: u32 = st.path_cost + if bad {
            1
        } else {
            0
        };
        let nb2: u64 = st.board - nb + (nb << 4);
        let ns = State {
            zero_pos: Position { row: st.zero_pos.row, col: st.zero_pos.col + 1 },
            board: nb2,
            step: 'r',
            path_cost: cost,
        };
        self.states.set(self.index + 1, ns);
        proof {
            reveal(crate::search::succ_of);
            assert(unpack(ns.board) =~= slide(unpack(st.board), blank_of(st), 'r')) by {
                assert forall|j: int| 0 <= j < 16 implies unpack(ns.board)[j] == slide(
                    unpack(st.board),
                    blank_of(st),
                    'r',
                )[j] by {
                    if j != zl as int && j != zl as int + 1 {
                        assert(nib(nb2, j as u64) == nib(st.board, j as u64));
                    }
                }
            }
            assert(unpack(st.board)[blank_of(st) + 1] == tile);
            assert(succ_of(st, ns));
        }
    }

    /// Slide the tile left of the blank right into the blank's cell: the
    /// blank moves left one column. Writes the successor at the next slot.
    pub fn move_l(&mut self)
        requires
            old(self).wf(),
            old(self).index + 1 < MAX_DEPTH,
            old(self).states@[old(self).index as int].zero_pos.col != 0,
            old(self).states@[old(self).index as int].step != 'r',
        ensures
            final(self).wf(),
            final(self).index == old(self).index,
            final(self).path_cost_limit == old(self).path_cost_limit,
            final(self).states@.len() == MAX_DEPTH,
            forall|i: int|
                0 <= i < MAX_DEPTH && i != old(self).index + 1 ==> final(self).states@[i] == old(
                    self,
                ).states@[i],
            succ_of(
                old(self).states@[old(self).index as int],
                final(self).states@[old(self).index + 1],
            ),
            node_wf(final(self).states@[old(self).index + 1]),
            final(self).states@[old(self).index + 1].path_cost <= old(self).index + 1,
            final(self).states@[old(self).index + 1].step == 'l',
    {
        let st: State = self.states[self.index];
        proof {
            lemma_rc(st.zero_pos.row, st.zero_pos.col);
        }
        let zl: u64 = (st.zero_pos.row as u64) * 4 + (st.zero_pos.col as u64);
        let sh: u64 = 64 - 4 * zl;
        let nb: u64 = st.board & (0xfu64 << sh);
        proof {
            assert(zl == blank_of(st) as u64);
            lemma_slide_left(st.board, zl, sh, nb);
            lemma_nib_bound(st.board, (zl - 1) as u64);
        }
        let tile: u64 = nb >> sh;
        let bad: bool = st.zero_pos.col > desired_col(tile as u8);
        let cost: u32 = st.path_cost + if bad {
            1
        } else {
            0
        };
        let nb2: u64 = st.board - nb + (nb >> 4);
        let ns = State {
            zero_pos: Position { row: st.zero_pos.row, col: st.zero_pos.col - 1 },
            board: nb2,
            step: 'l',
            path_cost: cost,
        };
        self.states.set(self.index + 1, ns);
        proof {
            reveal(crate::search::succ_of);
            assert(unpack(ns.board) =~= slide(unpack(st.board), blank_of(st), 'l')) by {
                assert forall|j: int| 0 <= j < 16 implies unpack(ns.board)[j] == slide(
                    unpack(st.board),
                    blank_of(st),
                    'l',
                )[j] by {
                    if j != zl as int && j != zl as int - 1 {
                        assert(nib(nb2, j as u64) == nib(st.board, j as u64));
                    }
                }
            }
            assert(unpack(st.board)[blank_of(st) - 1] == tile);
            assert(succ_of(st, ns));
        }
    }

    /// Step onto the freshly written successor: succeed if it is the solved
    /// board, recurse while within the cost limit, and back off otherwise.
    /// A solved successor is always reported as found, even when its cost
    /// exceeds the limit: the goal test precedes the cost test.
    pub fn check(&mut self) -> (o: Outcome)
        requires
            old(self).wf(),
            old(self).index + 1 < MAX_DEPTH,
            succ_of(
                old(self).states@[old(self).index as int],
                old(self).states@[old(self).index + 1],
            ),
            node_wf(old(self).states@[old(self).index + 1]),
            old(self).states@[old(self).index + 1].path_cost <= old(self).index + 1,
        ensures
            final(self).wf(),
            final(self).path_cost_limit == old(self).path_cost_limit,
            final(self).states@.len() == MAX_DEPTH,
            forall|i: int|
                0 <= i <= old(self).index ==> final(self).states@[i] == old(self).states@[i],
            !(o matches Outcome::Found) ==> final(self).index == old(self).index,
            o matches Outcome::Found ==> final(self).index > old(self).index
                && final(self).states@[final(self).index as int].board == SOLVED_BOARD
                && unpack(final(self).states@[final(self).index as int].board) == solved_seq(),
            old(self).states@[old(self).index + 1].board == SOLVED_BOARD ==> (o
                matches Outcome::Found),
            o matches Outcome::Exhausted ==> ({
                let ch = old(self).states@[old(self).index + 1];
                &&& ch.board != SOLVED_BOARD
                &&& (ch.path_cost > old(self).path_cost_limit || no_win(
                    unpack(ch.board),
                    blank_of(ch),
                    ch.step,
                    ch.path_cost as int,
                    old(self).path_cost_limit as int,
                ))
            }),
            o matches Outcome::TooDeep ==> ({
                let ch = old(self).states@[old(self).index + 1];
                &&& ch.board != SOLVED_BOARD
                &&& ch.path_cost <= old(self).path_cost_limit
                &&& exists|tags: Seq<char>|
                    #[trigger] deep_run(
                        unpack(ch.board),
                        blank_of(ch),
                        ch.step,
                        ch.path_cost as int,
                        old(self).path_cost_limit as int,
                        tags,
                    ) && tags.len() == MAX_DEPTH - 2 - old(self).index
            }),
        decreases MAX_DEPTH - self.index, 0int,
    {
        self.index += 1;
        let st: State = self.states[self.index];
        if st.board == SOLVED_BOARD {
            proof {
                lemma_solved_board_seq();
            }
            return Outcome::Found;
        }
        if st.path_cost <= self.path_cost_limit {
            let o = self.explore();
            match o {
                Outcome::Found => {
                    return Outcome::Found;
                },
                Outcome::TooDeep => {
                    self.index -= 1;
                    return Outcome::TooDeep;
                },
                Outcome::Exhausted => {},
            }
        }
        self.index -= 1;
        Outcome::Exhausted
    }

    /// One depth-first step: try the four directions in the fixed order
    /// down, up, right, left, skipping a direction that leaves the grid or
    /// undoes the move that led here. Exhaustion is complete: it is reported
    /// only when no winning continuation exists at the node within the
    /// current cost limit, and a capacity cutoff only with a capacity-length
    /// run as evidence.
    #[verifier::rlimit(100)]
    #[verifier::spinoff_prover]
    pub fn explore(&mut self) -> (o: Outcome)
        requires
            old(self).wf(),
        ensures
            final(self).wf(),
            final(self).path_cost_limit == old(self).path_cost_limit,
            final(self).states@.len() == MAX_DEPTH,
            forall|i: int|
                0 <= i <= old(self).index ==> final(self).states@[i] == old(self).states@[i],
            !(o matches Outcome::Found) ==> final(self).index == old(self).index,
            o matches Outcome::Found ==> final(self).index > old(self).index
                && final(self).states@[final(self).index as int].board == SOLVED_BOARD
                && unpack(final(self).states@[final(self).index as int].board) == solved_seq(),
            o matches Outcome::Exhausted ==> ({
                let cur = old(self).states@[old(self).index as int];
                no_win(
                    unpack(cur.board),
                    blank_of(cur),
                    cur.step,
                    cur.path_cost as int,
                    old(self).path_cost_limit as int,
                )
            }),
            o matches Outcome::TooDeep ==> ({
                let cur = old(self).states@[old(self).index as int];
                exists|tags: Seq<char>|
                    #[trigger] deep_run(
                        unpack(cur.board),
                        blank_of(cur),
                        cur.step,
                        cur.path_cost as int,
                        old(self).path_cost_limit as int,
                        tags,
                    ) && tags.len() == MAX_DEPTH - 1 - old(self).index
            }),
        decreases MAX_DEPTH - self.index, 1int,
    {
        if self.index + 1 >= MAX_DEPTH {
            // The next node would not fit in the preallocated path.
            proof {
                let cur = self.states@[self.index as int];
                assert(deep_run(
                    unpack(cur.board),
                    blank_of(cur),
                    cur.step,
                    cur.path_cost as int,
                    self.path_cost_limit as int,
                    Seq::<char>::empty(),
                ));
            }
            return Outcome::TooDeep;
        }
        let st: State = self.states[self.index];
        if st.zero_pos.row != 3 && st.step != 'u' {
            self.move_d();
            let ghost ch = self.states@[self.index + 1];
            match self.check() {
                Outcome::Found => {
                    return Outcome::Found;
                },
                Outcome::TooDeep => {
                    proof {
                        let w = choose|tags: Seq<char>|
                            #[trigger] deep_run(
                                unpack(ch.board),
                                blank_of(ch),
                                ch.step,
                                ch.path_cost as int,
                                self.path_cost_limit as int,
                                tags,
                            ) && tags.len() == MAX_DEPTH - 2 - self.index;
                        lemma_branch_deep(st, ch, 'd', self.path_cost_limit, w);
                    }
                    return Outcome::TooDeep;
                },
                Outcome::Exhausted => {
                    proof {
                        lemma_branch_fact(st, ch, 'd', self.path_cost_limit);
                    }
                },
            }
        }
        if st.zero_pos.row != 0 && st.step != 'd' {
            self.move_u();
            let ghost ch = self.states@[self.index + 1];
            match self.check() {
                Outcome::Found => {
                    return Outcome::Found;
                },
                Outcome::TooDeep => {
                    proof {
                        let w = choose|tags: Seq<char>|
                            #[trigger] deep_run(
                                unpack(ch.board),
                                blank_of(ch),
                                ch.step,
                                ch.path_cost as int,
                                self.path_cost_limit as int,
                                tags,
                            ) && tags.len() == MAX_DEPTH - 2 - self.index;
                        lemma_branch_deep(st, ch, 'u', self.path_cost_limit, w);
                    }
                    return Outcome::TooDeep;
                },
                Outcome::Exhausted => {
                    proof {
                        lemma_branch_fact(st, ch, 'u', self.path_cost_limit);
                    }
                },
            }
        }
        if st.zero_pos.col != 3 && st.step != 'l' {
            self.move_r();
            let ghost ch = self.states@[self.index + 1];
            match self.check() {
                Outcome::Found => {
                    return Outcome::Found;
                },
                Outcome::TooDeep => {
                    proof {
                        let w = choose|tags: Seq<char>|
                            #[trigger] deep_run(
                                unpack(ch.board),
                                blank_of(ch),
                                ch.step,
                                ch.path_cost as int,
                                self.path_cost_limit as int,
                                tags,
                            ) && tags.len() == MAX_DEPTH - 2 - self.index;
                        lemma_branch_deep(st, ch, 'r', self.path_cost_limit, w);
                    }
                    return Outcome::TooDeep;
                },
                Outcome::Exhausted => {
                    proof {
                        lemma_branch_fact(st, ch, 'r', self.path_cost_limit);
                    }
                },
            }
        }
        if st.zero_pos.col != 0 && st.step != 'r' {
            self.move_l();
            let ghost ch = self.states@[self.index + 1];
            match self.check() {
                Outcome::Found => {
                    return Outcome::Found;
                },
                Outcome::TooDeep => {
                    proof {
                        let w = choose|tags: Seq<char>|
                            #[trigger] deep_run(
                                unpack(ch.board),
                                blank_of(ch),
                                ch.step,
                                ch.path_cost as int,
                                self.path_cost_limit as int,
                                tags,
                            ) && tags.len() == MAX_DEPTH - 2 - self.index;
                        lemma_branch_deep(st, ch, 'l', self.path_cost_limit, w);
                    }
                    return Outcome::TooDeep;
                },
                Outcome::Exhausted => {
                    proof {
                        lemma_branch_fact(st, ch, 'l', self.path_cost_limit);
                    }
                },
            }
        }
        proof {
            lemma_exhausted_no_win(st, self.path_cost_limit);
        }
        Outcome::Exhausted
    }

    /// Run explorations with a rising cost limit until the solved board is
    /// found, and return the recorded move tags in path order. An already
    /// solved root yields the empty sequence. The limit starts at 0, rises
    /// in steps of 2, and on success is minimal: no smaller even limit
    /// admits a winning continuation from the root. When the search would
    /// exceed the path capacity, report that instead of overrunning.
    pub fn solve(&mut self) -> (r: Result<String, String>)
        requires
            old(self).wf(),
            old(self).index == 0,
            old(self).path_cost_limit == 0,
        ensures
            r matches Ok(tags) ==> {
                let s0 = unpack(old(self).states@[0].board);
                let b0 = blank_of(old(self).states@[0]);
                &&& slides_ok(s0, b0, tags@)
                &&& slide_all(s0, b0, tags@) == solved_seq()
                &&& no_adjacent_inverses(tags@)
            },
            r matches Ok(tags) ==> {
                let s0 = unpack(old(self).states@[0].board);
                let b0 = blank_of(old(self).states@[0]);
                &&& final(self).wf()
                &&& tags@.len() == final(self).index
                &&& tags@ == tags_of(final(self).states@, 0, final(self).index as int)
                &&& final(self).states@[final(self).index as int].board == SOLVED_BOARD
                &&& final(self).states@[final(self).index as int].path_cost == slide_cost_sum(
                    s0,
                    b0,
                    tags@,
                )
            },
            r matches Ok(tags) ==> final(self).path_cost_limit % 2 == 0 && (forall|l2: int|
                0 <= l2 < final(self).path_cost_limit && l2 % 2 == 0 ==> no_win(
                    unpack(old(self).states@[0].board),
                    blank_of(old(self).states@[0]),
                    '0',
                    0,
                    l2,
                )),
            r matches Err(e) ==> e@ == depth_msg(),
            r matches Err(e) ==> ({
                let s0 = unpack(old(self).states@[0].board);
                let b0 = blank_of(old(self).states@[0]);
                ||| (exists|tags: Seq<char>|
                    #[trigger] deep_run(s0, b0, '0', 0, final(self).path_cost_limit as int, tags)
                        && tags.len() == MAX_DEPTH - 1)
                ||| (final(self).path_cost_limit >= MAX_DEPTH && no_win(
                    s0,
                    b0,
                    '0',
                    0,
                    final(self).path_cost_limit as int,
                ))
            }),
            unpack(old(self).states@[0].board) == solved_seq() ==> (r matches Ok(tags)
                && tags@.len() == 0),
    {
        if self.states[0].board == SOLVED_BOARD {
            proof {
                lemma_solved_board_seq();
                assert(tags_of(self.states@, 0, 0) =~= Seq::<char>::empty());
            }
            return Ok(String::new());
        }
        proof {
            // An unsolved root board differs from the solved one in some field.
            if unpack(self.states@[0].board) == solved_seq() {
                lemma_solved_board_seq();
                lemma_unpack_injective(self.states@[0].board, SOLVED_BOARD);
            }
        }
        loop
            invariant
                self.wf(),
                self.index == 0,
                self.path_cost_limit <= MAX_DEPTH,
                self.path_cost_limit % 2 == 0,
                self.states@[0] == old(self).states@[0],
                unpack(old(self).states@[0].board) != solved_seq(),
                forall|l2: int|
                    0 <= l2 < self.path_cost_limit && l2 % 2 == 0 ==> no_win(
                        unpack(old(self).states@[0].board),
                        blank_of(old(self).states@[0]),
                        '0',
                        0,
                        l2,
                    ),
            decreases MAX_DEPTH - self.path_cost_limit,
        {
            let o = self.explore();
            match o {
                Outcome::Found => {
                    proof {
                        lemma_chain(self.states@, 0, self.index as int);
                    }
                    let mut out = String::new();
                    let mut i: usize = 1;
                    while i <= self.index
                        invariant
                            self.wf(),
                            1 <= i <= self.index + 1,
                            self.index < MAX_DEPTH,
                            out@ =~= tags_of(self.states@, 0, i - 1),
                        decreases self.index + 1 - i,
                    {
                        push_char(&mut out, self.states[i].step);
                        proof {
                            assert(out@ =~= tags_of(self.states@, 0, i as int));
                        }
                        i += 1;
                    }
                    proof {
                        assert(out@ =~= tags_of(self.states@, 0, self.index as int));
                        assert forall|x: int| #![trigger out@[x]] 0 <= x && x + 1
                            < out@.len() implies !inverse_tag(out@[x], out@[x + 1]) by {
                            reveal(crate::search::succ_of);
                            assert(succ_of(self.states@[x + 1], self.states@[x + 2]));
                        }
                    }
                    return Ok(out);
                },
                Outcome::TooDeep => {
                    return Err("Search depth exceeded".to_owned());
                },
                Outcome::Exhausted => {
                    proof {
                        assert(no_win(
                            unpack(old(self).states@[0].board),
                            blank_of(old(self).states@[0]),
                            '0',
                            0,
                            self.path_cost_limit as int,
                        ));
                    }
                    if self.path_cost_limit >= MAX_DEPTH as u32 {
                        // Costs along a path never exceed its depth, and the
                        // depth never exceeds the capacity, so a limit this
                        // high no longer prunes anything: raising it further
                        // cannot help.
                        return Err("Search depth exceeded".to_owned());
                    }
                    self.path_cost_limit += 2;
                },
            }
        }
    }
}

} // verus!
