//! A verified solver for the 15-puzzle: a solvability test based on
//! permutation parity, and a cost-bounded iterative-deepening search that
//! returns a sequence of blank-slide moves reaching the solved arrangement.
pub mod board;
pub mod model;
pub mod random;
pub mod search;
pub mod solvability;

use vstd::prelude::*;

pub use random::generate_random_solvable;
pub use solvability::validate;

use crate::model::{
    blank_idx, deep_run, is_perm16, lemma_solved_solvable, no_adjacent_inverses, no_win, parity_ok,
    slide_all, slides_ok, solvable, solved_seq,
};
use crate::board::unpack;
use crate::search::{blank_of, depth_msg, PathExplorer, MAX_DEPTH};
use crate::solvability::{bad_parity_msg, bad_values_msg, incomplete_msg};

verus! {

/// Solve an arrangement: reject it unless it is a solvable permutation of
/// 0..15, and otherwise search for a sequence of blank slides that reaches
/// the canonical solved arrangement. On success the returned tags, applied
/// in order to the input, reach the solved arrangement, and no move is ever
/// immediately undone. The only failure on a solvable input is a search
/// that would exceed the fixed path capacity, and it comes with evidence:
/// either some capacity-length run was cut off, or even the unpruned search
/// (a limit at the capacity) admits no winning continuation.
pub fn solver(tiles: Vec<u8>) -> (r: Result<String, String>)
    ensures
        tiles@.len() != 16 ==> (r matches Err(e) && e@ == incomplete_msg()),
        tiles@.len() == 16 && !is_perm16(tiles@) ==> (r matches Err(e) && e@ == bad_values_msg()),
        is_perm16(tiles@) && !parity_ok(tiles@) ==> (r matches Err(e) && e@ == bad_parity_msg()),
        solvable(tiles@) ==> (r is Ok || (r matches Err(e) && e@ == depth_msg())),
        r is Ok ==> solvable(tiles@),
        r matches Ok(tags) ==> slides_ok(tiles@, blank_idx(tiles@), tags@) && slide_all(
            tiles@,
            blank_idx(tiles@),
            tags@,
        ) == solved_seq() && no_adjacent_inverses(tags@),
        tiles@ == solved_seq() ==> (r matches Ok(tags) && tags@.len() == 0),
        solvable(tiles@) && r is Err ==> ((exists|l: int, tags: Seq<char>|
            #[trigger] deep_run(tiles@, blank_idx(tiles@), '0', 0, l, tags) && tags.len()
                == MAX_DEPTH - 1) || (exists|l: int|
            l >= MAX_DEPTH && #[trigger] no_win(tiles@, blank_idx(tiles@), '0', 0, l))),
{
    proof {
        if tiles@ == solved_seq() {
            lemma_solved_solvable();
        }
    }
    match validate(&tiles) {
        Err(e) => Err(e),
        Ok(()) => {
            let mut explorer = PathExplorer::new(tiles);
            let ghost pe0 = explorer;
            let r = explorer.solve();
            proof {
                if r is Err {
                    let lf = explorer.path_cost_limit as int;
                    assert(unpack(pe0.states@[0].board) == tiles@);
                    assert(blank_of(pe0.states@[0]) == blank_idx(tiles@));
                    if exists|tags: Seq<char>|
                        #[trigger] deep_run(
                            unpack(pe0.states@[0].board),
                            blank_of(pe0.states@[0]),
                            '0',
                            0,
                            lf,
                            tags,
                        ) && tags.len() == MAX_DEPTH - 1 {
                        let w = choose|tags: Seq<char>|
                            #[trigger] deep_run(
                                unpack(pe0.states@[0].board),
                                blank_of(pe0.states@[0]),
                                '0',
                                0,
                                lf,
                                tags,
                            ) && tags.len() == MAX_DEPTH - 1;
                        assert(deep_run(tiles@, blank_idx(tiles@), '0', 0, lf, w));
                    } else {
                        assert(lf >= MAX_DEPTH && no_win(tiles@, blank_idx(tiles@), '0', 0, lf));
                    }
                }
            }
            r
        },
    }
}

} // verus!

