//! Well-formedness and solvability of an input arrangement: the length
//! check, the permutation check, and the parity invariant.
use vstd::prelude::*;

use crate::model::{
    asc_inner, asc_outer, asc_pairs, blank_idx, is_perm16, lemma_asc_inner_blank, parity_ok,
    solvable,
};

verus! {

/// Message for an arrangement that is not exactly 16 values long.
pub open spec fn incomplete_msg() -> Seq<char> {
    "Incomplete input"@
}

/// Message for an arrangement that is not a permutation of 0..15.
pub open spec fn bad_values_msg() -> Seq<char> {
    "Invalid or duplicate numbers"@
}

/// Message for a permutation that fails the solvability parity check.
pub open spec fn bad_parity_msg() -> Seq<char> {
    "Invalid Permutation"@
}

/// Ascending pairs with first index `i` number at most the cells after `j`.
proof fn lemma_asc_inner_le(s: Seq<u8>, i: int, j: int)
    requires
        0 <= j <= s.len(),
    ensures
        asc_inner(s, i, j) <= s.len() - j,
    decreases s.len() - j,
{
    if j < s.len() {
        lemma_asc_inner_le(s, i, j + 1);
    }
}

/// Ascending pairs with first index `i` or later number at most
/// `(16 - i) * 16` in a 16-cell arrangement.
proof fn lemma_asc_outer_le(s: Seq<u8>, i: int)
    requires
        s.len() == 16,
        0 <= i <= 16,
    ensures
        asc_outer(s, i) <= (16 - i) * 16,
    decreases 16 - i,
{
    if i < 16 {
        lemma_asc_inner_le(s, i, i + 1);
        lemma_asc_outer_le(s, i + 1);
    }
}

/// Count of ordered pairs (i, j), i < j, where the earlier tile is not the
/// blank and the later value is greater.
pub fn inversions(tiles: &Vec<u8>) -> (cnt: u32)
    requires
        tiles@.len() == 16,
    ensures
        cnt == asc_pairs(tiles@),
{
    proof {
        lemma_asc_outer_le(tiles@, 0);
    }
    let mut cnt: u32 = 0;
    let mut i: usize = 0;
    while i < 16
        invariant
            tiles@.len() == 16,
            i <= 16,
            asc_pairs(tiles@) <= 256,
            cnt + asc_outer(tiles@, i as int) == asc_pairs(tiles@),
            cnt <= 256,
        decreases 16 - i,
    {
        let ti = tiles[i];
        if ti != 0 {
            proof {
                lemma_asc_inner_le(tiles@, i as int, i as int + 1);
            }
            let mut j: usize = i + 1;
            while j < 16
                invariant
                    tiles@.len() == 16,
                    i < 16,
                    tiles@[i as int] == ti,
                    ti != 0,
                    i + 1 <= j <= 16,
                    asc_pairs(tiles@) <= 256,
                    cnt + asc_inner(tiles@, i as int, j as int) + asc_outer(
                        tiles@,
                        i as int + 1,
                    ) == asc_pairs(tiles@),
                    cnt + asc_inner(tiles@, i as int, j as int) <= 256,
                decreases 16 - j,
            {
                if tiles[j] > ti {
                    cnt = cnt + 1;
                }
                j += 1;
            }
        } else {
            proof {
                lemma_asc_inner_blank(tiles@, i as int, i as int + 1);
            }
        }
        i += 1;
    }
    cnt
}

/// Accept exactly the solvable arrangements: 16 values, a permutation of
/// 0..15, and ascending-pair parity equal to the blank's row parity.
pub fn validate(tiles: &Vec<u8>) -> (r: Result<(), String>)
    ensures
        r is Ok <==> solvable(tiles@),
        tiles@.len() != 16 ==> (r matches Err(e) && e@ == incomplete_msg()),
        tiles@.len() == 16 && !is_perm16(tiles@) ==> (r matches Err(e) && e@ == bad_values_msg()),
        is_perm16(tiles@) && !parity_ok(tiles@) ==> (r matches Err(e) && e@ == bad_parity_msg()),
{
    if tiles.len() != 16 {
        return Err("Incomplete input".to_owned());
    }
    let mut seen: Vec<bool> = vec![false; 16];
    let mut k: usize = 0;
    while k < 16
        invariant
            tiles@.len() == 16,
            seen@.len() == 16,
            k <= 16,
            forall|i: int| 0 <= i < k ==> tiles@[i] < 16,
            forall|i: int, j: int| 0 <= i < j < k ==> tiles@[i] != tiles@[j],
            forall|v: int|
                0 <= v < 16 ==> (seen@[v] <==> exists|i: int|
                    0 <= i < k && (#[trigger] tiles@[i]) == v),
        decreases 16 - k,
    {
        let t = tiles[k];
        if t > 15 {
            return Err("Invalid or duplicate numbers".to_owned());
        }
        if seen[t as usize] {
            proof {
                let w = choose|i: int| 0 <= i < k && (#[trigger] tiles@[i]) == t as int;
                assert(tiles@[w] == tiles@[k as int]);
            }
            return Err("Invalid or duplicate numbers".to_owned());
        }
        seen.set(t as usize, true);
        k += 1;
    }
    let mut v: usize = 0;
    while v < 16
        invariant
            tiles@.len() == 16,
            seen@.len() == 16,
            v <= 16,
            forall|i: int| 0 <= i < 16 ==> tiles@[i] < 16,
            forall|i: int, j: int| 0 <= i < j < 16 ==> tiles@[i] != tiles@[j],
            forall|u: int|
                0 <= u < 16 ==> (seen@[u] <==> exists|i: int|
                    0 <= i < 16 && (#[trigger] tiles@[i]) == u),
            forall|u: u8| u < v ==> tiles@.contains(u),
        decreases 16 - v,
    {
        if !seen[v] {
            proof {
                assert(!tiles@.contains(v as u8)) by {
                    if tiles@.contains(v as u8) {
                        let w = choose|i: int| 0 <= i < 16 && tiles@[i] == v as u8;
                        assert(tiles@[w] == v as int);
                    }
                }
            }
            return Err("Invalid or duplicate numbers".to_owned());
        }
        proof {
            let w = choose|i: int| 0 <= i < 16 && (#[trigger] tiles@[i]) == v as int;
            assert(tiles@[w] == v as u8);
        }
        v += 1;
    }
    assert(is_perm16(tiles@));
    let mut zi: usize = 0;
    while tiles[zi] != 0
        invariant
            tiles@.len() == 16,
            is_perm16(tiles@),
            zi < 16,
            forall|i: int| 0 <= i < zi ==> tiles@[i] != 0,
        decreases 16 - zi,
    {
        proof {
            assert(tiles@.contains(0u8));
            let w = choose|i: int| 0 <= i < 16 && tiles@[i] == 0u8;
            assert(w > zi);
        }
        zi += 1;
    }
    proof {
        assert(0 <= zi < 16 && tiles@[zi as int] == 0);
        let c = blank_idx(tiles@);
        assert(0 <= c < 16 && tiles@[c] == 0);
        if c != zi {
            assert(tiles@[c] != tiles@[zi as int]);
        }
        assert(blank_idx(tiles@) == zi as int);
    }
    let row_parity: u32 = ((zi / 4) % 2) as u32;
    let pair_count = inversions(tiles);
    if pair_count % 2 != row_parity {
        return Err("Invalid Permutation".to_owned());
    }
    Ok(())
}

} // verus!
