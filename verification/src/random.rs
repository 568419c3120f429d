//! Random generation of solvable arrangements: shuffle a permutation of
//! 0..15 and keep the first one that passes the solvability check.
use vstd::prelude::*;

use rand::seq::SliceRandom;

use crate::model::{lemma_solved_solvable, solvable, solved_seq};
use crate::solvability::validate;

verus! {

/// Relies on rand's SliceRandom::shuffle (a Fisher-Yates shuffle built from
/// element swaps), driven by rand::thread_rng: it permutes the slice in
/// place, so the multiset of values and the length are unchanged. Which
/// permutation comes out depends on the thread-local generator, so nothing
/// more is promised of it.
#[verifier::external_body]
fn shuffle_tiles(tiles: &mut Vec<u8>)
    ensures
        final(tiles)@.to_multiset() == old(tiles)@.to_multiset(),
        final(tiles)@.len() == old(tiles)@.len(),
{
    tiles.shuffle(&mut rand::thread_rng());
}

/// Produce a uniformly random permutation of 0..15 and discard it unless the
/// solvability check accepts it; return the first accepted one. Roughly half
/// of all permutations are solvable, so a retry is rarely needed; after an
/// astronomically unlikely run of rejections the canonical solved
/// arrangement, which is always solvable, is returned instead.
pub fn generate_random_solvable() -> (r: Vec<u8>)
    ensures
        solvable(r@),
{
    let mut tiles: Vec<u8> = Vec::new();
    let mut k: u8 = 0;
    while k < 16
        invariant
            k <= 16,
            tiles@.len() == k,
        decreases 16 - k,
    {
        tiles.push(k);
        k += 1;
    }
    let mut attempts: u32 = 0;
    while attempts < 1000000
        invariant
            tiles@.len() == 16,
        decreases 1000000 - attempts,
    {
        shuffle_tiles(&mut tiles);
        if validate(&tiles).is_ok() {
            return tiles;
        }
        attempts += 1;
    }
    let mut fallback: Vec<u8> = Vec::new();
    let mut v: u8 = 1;
    while v < 16
        invariant
            1 <= v <= 16,
            fallback@.len() == v - 1,
            forall|i: int| 0 <= i < v - 1 ==> fallback@[i] == i + 1,
        decreases 16 - v,
    {
        fallback.push(v);
        v += 1;
    }
    fallback.push(0);
    proof {
        assert(fallback@ =~= solved_seq());
        lemma_solved_solvable();
    }
    fallback
}

} // verus!
