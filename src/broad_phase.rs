//! The broad phase: pairs of bodies that share a grid cell, each once.
use std::collections::HashSet;
use vstd::prelude::*;

use crate::collision_pair::{lemma_pair_id_injective, spec_pair_id, CollisionPair};
use crate::grid::Grid;
use crate::{Id, PairId};

verus! {

/// The identity of the pair `p`.
pub open spec fn pair_key(p: (Id, Id)) -> nat {
    spec_pair_id(p.0, p.1)
}

/// Every pair `(a, b)` with `a < b` of bodies that share a cell of `grid`,
/// each once. Pairs are told apart by their order-independent identity.
pub fn candidate_pairs(grid: &Grid) -> (r: Vec<(Id, Id)>)
    requires
        grid.wf(),
    ensures
        r@.no_duplicates(),
        forall|k: int|
            0 <= k < r@.len() ==> #[trigger] r@[k].0 < r@[k].1 && grid.shares_cell(r@[k].0, r@[k].1),
        forall|a: Id, b: Id| a < b && grid.shares_cell(a, b) ==> #[trigger] r@.contains((a, b)),
{
    let mut out: Vec<(Id, Id)> = Vec::new();
    let mut seen: HashSet<PairId> = HashSet::new();
    let mut i: usize = 0;
    while i < grid.order.len()
        invariant
            grid.wf(),
            i <= grid.order@.len(),
            out@.no_duplicates(),
            forall|k: int|
                0 <= k < out@.len() ==> #[trigger] out@[k].0 < out@[k].1 && grid.shares_cell(
                    out@[k].0,
                    out@[k].1,
                ),
            forall|p: PairId| #[trigger]
                seen@.contains(p) <==> exists|k: int|
                    0 <= k < out@.len() && #[trigger] pair_key(out@[k]) == p as nat,
            forall|ii: int, b: Id|
                0 <= ii < i && grid.order@[ii] < b && #[trigger] grid.shares_cell(grid.order@[ii], b)
                    ==> out@.contains((grid.order@[ii], b)),
        decreases grid.order@.len() - i,
    {
        let a = grid.order[i];
        assert(grid.order@.contains(a));
        assert(grid.is_member(a));
        // every id of `order` is in the grid, so both lookups below succeed
        let cells = match grid.get_cells(a) {
            Some(cells) => cells,
            None => {
                return out;
            },
        };
        let mut j: usize = 0;
        while j < cells.len()
            invariant
                grid.wf(),
                grid.is_member(a),
                a == grid.order@[i as int],
                i < grid.order@.len(),
                cells@ == grid.cells_of(a),
                j <= cells@.len(),
                out@.no_duplicates(),
                forall|k: int|
                    0 <= k < out@.len() ==> #[trigger] out@[k].0 < out@[k].1 && grid.shares_cell(
                        out@[k].0,
                        out@[k].1,
                    ),
                forall|p: PairId| #[trigger]
                    seen@.contains(p) <==> exists|k: int|
                        0 <= k < out@.len() && #[trigger] pair_key(out@[k]) == p as nat,
                forall|ii: int, b: Id|
                    0 <= ii < i && grid.order@[ii] < b && #[trigger] grid.shares_cell(
                        grid.order@[ii],
                        b,
                    ) ==> out@.contains((grid.order@[ii], b)),
                forall|jj: int, b: Id|
                    0 <= jj < j && a < b && #[trigger] grid.in_cell(cells@[jj], b) ==> out@.contains(
                        (a, b),
                    ),
            decreases cells@.len() - j,
        {
            let c = cells[j];
            assert(grid.cells_of(a).contains(c));
            assert(grid.in_cell(c, a));
            let bucket = match grid.get_bucket(c) {
                Some(bucket) => bucket,
                None => {
                    return out;
                },
            };
            let mut k: usize = 0;
            while k < bucket.len()
                invariant
                    grid.wf(),
                    grid.is_member(a),
                    a == grid.order@[i as int],
                    i < grid.order@.len(),
                    cells@ == grid.cells_of(a),
                    j < cells@.len(),
                    c == cells@[j as int],
                    grid.in_cell(c, a),
                    bucket@ == grid.occupants(c),
                    k <= bucket@.len(),
                    out@.no_duplicates(),
                    forall|kk: int|
                        0 <= kk < out@.len() ==> #[trigger] out@[kk].0 < out@[kk].1
                            && grid.shares_cell(out@[kk].0, out@[kk].1),
                    forall|p: PairId| #[trigger]
                        seen@.contains(p) <==> exists|kk: int|
                            0 <= kk < out@.len() && #[trigger] pair_key(out@[kk]) == p as nat,
                    forall|ii: int, b: Id|
                        0 <= ii < i && grid.order@[ii] < b && #[trigger] grid.shares_cell(
                            grid.order@[ii],
                            b,
                        ) ==> out@.contains((grid.order@[ii], b)),
                    forall|jj: int, b: Id|
                        0 <= jj < j && a < b && #[trigger] grid.in_cell(cells@[jj], b)
                            ==> out@.contains((a, b)),
                    forall|kk: int| 0 <= kk < k && a < bucket@[kk] ==> #[trigger] out@.contains(
                        (a, bucket@[kk]),
                    ),
                decreases bucket@.len() - k,
            {
                let b = bucket[k];
                if a < b {
                    assert(grid.in_cell(c, b));
                    assert(grid.shares_cell(a, b));
                    let p = CollisionPair::pair_id(a, b);
                    let ghost prev = out@;
                    let ghost prev_seen = seen@;
                    if seen.insert(p) {
                        assert forall|kk: int| 0 <= kk < prev.len() implies prev[kk] != (a, b) by {
                            assert(pair_key(prev[kk]) != p as nat);
                        }
                        out.push((a, b));
                        assert(out@[prev.len() as int] == (a, b));
                        assert forall|q: PairId| #[trigger]
                            seen@.contains(q) <==> exists|kk: int|
                                0 <= kk < out@.len() && #[trigger] pair_key(out@[kk]) == q as nat by {
                            if q == p {
                                assert(pair_key(out@[prev.len() as int]) == q as nat);
                            }
                            if seen@.contains(q) && q != p {
                                assert(prev_seen.contains(q));
                                let kk = choose|kk: int|
                                    0 <= kk < prev.len() && #[trigger] pair_key(prev[kk]) == q as nat;
                                assert(out@[kk] == prev[kk]);
                            }
                            if exists|kk: int|
                                0 <= kk < out@.len() && #[trigger] pair_key(out@[kk]) == q as nat {
                                let kk = choose|kk: int|
                                    0 <= kk < out@.len() && #[trigger] pair_key(out@[kk]) == q as nat;
                                if kk < prev.len() {
                                    assert(pair_key(prev[kk]) == q as nat);
                                    assert(prev_seen.contains(q));
                                }
                            }
                        }
                        assert forall|x: (Id, Id)| prev.contains(x) implies #[trigger] out@.contains(x) by {
                            let kk = choose|kk: int| 0 <= kk < prev.len() && prev[kk] == x;
                            assert(out@[kk] == x);
                        }
                        assert(out@.contains((a, b)));
                    } else {
                        proof {
                            let kk = choose|kk: int|
                                0 <= kk < out@.len() && #[trigger] pair_key(out@[kk]) == p as nat;
                            lemma_pair_id_injective(out@[kk].0, out@[kk].1, a, b);
                            assert(out@[kk] == (a, b));
                        }
                        assert(out@.contains((a, b)));
                    }
                }
                k = k + 1;
            }
            assert forall|b: Id| a < b && #[trigger] grid.in_cell(c, b) implies out@.contains((a, b)) by {
                let kk = choose|kk: int| 0 <= kk < bucket@.len() && bucket@[kk] == b;
                assert(out@.contains((a, bucket@[kk])));
            }
            j = j + 1;
        }
        assert forall|b: Id| a < b && #[trigger] grid.shares_cell(a, b) implies out@.contains((a, b)) by {
            let c = choose|c: u64| #[trigger] grid.in_cell(c, a) && grid.in_cell(c, b);
            assert(grid.cells_of(a).contains(c));
            let jj = choose|jj: int| 0 <= jj < cells@.len() && cells@[jj] == c;
            assert(grid.in_cell(cells@[jj], b));
        }
        i = i + 1;
    }
    assert forall|a: Id, b: Id| a < b && grid.shares_cell(a, b) implies #[trigger] out@.contains(
        (a, b),
    ) by {
        let c = choose|c: u64| #[trigger] grid.in_cell(c, a) && grid.in_cell(c, b);
        assert(grid.is_member(a));
        assert(grid.order@.contains(a));
        let ii = choose|ii: int| 0 <= ii < grid.order@.len() && grid.order@[ii] == a;
        assert(grid.shares_cell(grid.order@[ii], b));
    }
    out
}

} // verus!
