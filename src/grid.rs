//! A uniform grid that indexes bodies by the integer cells their bounds cover.
use vstd::prelude::*;

use std::collections::HashMap;
use vstd::arithmetic::div_mod::{lemma_fundamental_div_mod, lemma_fundamental_div_mod_converse};

use crate::Id;
use crate::ids::{index_of_id, lemma_first_index, lemma_remove_value_no_duplicates};
use crate::pairing::{
    is_isqrt, isqrt, lemma_spec_isqrt, lemma_szudzik_inverse, spec_isqrt, szudzik,
    unszudzik_with_root,
};

verus! {

/// A coordinate on the grid.
pub type GridPosition = i32;

/// The key of a grid cell.
pub type GridPairId = u64;

/// Folds a signed integer onto the naturals: `n ≥ 0` to `2n`, `n < 0` to `2|n| − 1`.
pub open spec fn zigzag(v: int) -> nat {
    if v >= 0 {
        (2 * v) as nat
    } else {
        (-2 * v - 1) as nat
    }
}

/// Inverse of `zigzag`.
pub open spec fn unzigzag(n: nat) -> int {
    if n % 2 == 0 {
        n as int / 2
    } else {
        -((n as int + 1) / 2)
    }
}

/// The key of the cell `(x, y)`.
pub open spec fn cell_key(x: int, y: int) -> nat {
    szudzik(zigzag(x), zigzag(y))
}

/// The cell whose key is `id`.
pub open spec fn spec_cell_of_key(id: nat) -> (int, int) {
    let (a, b) = unszudzik_with_root(id, spec_isqrt(id));
    (unzigzag(a), unzigzag(b))
}

/// `v` fits in a grid coordinate.
pub open spec fn is_grid_position(v: int) -> bool {
    i32::MIN <= v <= i32::MAX
}

/// A cell of the grid.
#[derive(Clone, Copy, Debug, PartialEq, Eq, Structural)]
pub struct GridVec {
    pub x: GridPosition,
    pub y: GridPosition,
}

impl GridVec {
    pub fn new(x: GridPosition, y: GridPosition) -> (r: Self)
        ensures
            r.x == x,
            r.y == y,
    {
        Self { x, y }
    }
}

/// An inclusive rectangle of cells, from `min` to `max`.
#[derive(Clone, Copy, Debug, PartialEq, Eq, Structural)]
pub struct GridBounds {
    pub min: GridVec,
    pub max: GridVec,
}

impl GridBounds {
    pub fn new(min: GridVec, max: GridVec) -> (r: Self)
        ensures
            r.min == min,
            r.max == max,
    {
        Self { min, max }
    }
}

fn zigzag_exec(v: GridPosition) -> (r: u64)
    ensures
        r as nat == zigzag(v as int),
        r < 0x1_0000_0000,
{
    if v >= 0 {
        (v as u64) * 2
    } else {
        ((-(v as i64)) as u64) * 2 - 1
    }
}

fn unzigzag_exec(n: u64) -> (r: GridPosition)
    requires
        n < 0x1_0000_0000,
    ensures
        r as int == unzigzag(n as nat),
{
    if n % 2 == 0 {
        (n / 2) as GridPosition
    } else {
        (-(((n + 1) / 2) as i64)) as GridPosition
    }
}

/// The cell whose key is `id` lies within the range of grid coordinates.
proof fn lemma_cell_of_key_bounds(id: nat, z: nat)
    requires
        is_isqrt(id, z),
        z < 0x1_0000_0000,
    ensures
        unszudzik_with_root(id, z).0 < 0x1_0000_0000,
        unszudzik_with_root(id, z).1 < 0x1_0000_0000,
{
    assert((z + 1) * (z + 1) == z * z + 2 * z + 1) by (nonlinear_arith);
}

/// `unzigzag` undoes `zigzag`.
pub proof fn lemma_unzigzag_zigzag(v: int)
    ensures
        unzigzag(zigzag(v)) == v,
{
}

/// Decoding the key of a cell gives the cell back.
pub proof fn lemma_cell_key_round_trip(x: int, y: int)
    requires
        is_grid_position(x),
        is_grid_position(y),
    ensures
        spec_cell_of_key(cell_key(x, y)) == (x, y),
{
    let a = zigzag(x);
    let b = zigzag(y);
    let n = szudzik(a, b);
    let m: nat = if a >= b { a } else { b };
    if a >= b {
        assert(a * a + a + b < (a + 1) * (a + 1)) by (nonlinear_arith)
            requires
                b <= a,
        ;
    } else {
        assert(b * b + a < (b + 1) * (b + 1)) by (nonlinear_arith)
            requires
                a < b,
        ;
    }
    lemma_spec_isqrt(n, m);
    lemma_szudzik_inverse(a, b, m);
    lemma_unzigzag_zigzag(x);
    lemma_unzigzag_zigzag(y);
}

/// Distinct cells have distinct keys.
pub proof fn lemma_cell_key_injective(x1: int, y1: int, x2: int, y2: int)
    requires
        is_grid_position(x1),
        is_grid_position(y1),
        is_grid_position(x2),
        is_grid_position(y2),
    ensures
        cell_key(x1, y1) == cell_key(x2, y2) <==> (x1 == x2 && y1 == y2),
{
    lemma_cell_key_round_trip(x1, y1);
    lemma_cell_key_round_trip(x2, y2);
}

/// Number of integers in `lo..=hi`.
pub open spec fn span(lo: int, hi: int) -> nat {
    if lo <= hi {
        (hi - lo + 1) as nat
    } else {
        0
    }
}

/// Number of columns of `b`.
pub open spec fn width(b: GridBounds) -> nat {
    span(b.min.x as int, b.max.x as int)
}

/// Number of rows of `b`.
pub open spec fn height(b: GridBounds) -> nat {
    span(b.min.y as int, b.max.y as int)
}

/// Number of cells of `b`.
pub open spec fn cell_count(b: GridBounds) -> nat {
    width(b) * height(b)
}

/// The key of the `j`-th cell of `b`, counting row by row from `min`.
pub open spec fn cell_at(b: GridBounds, j: int) -> nat {
    cell_key(b.min.x + j % (width(b) as int), b.min.y + j / (width(b) as int))
}

/// The cell whose key is `c` lies within `b`.
pub open spec fn covers(b: GridBounds, c: u64) -> bool {
    exists|x: int, y: int|
        b.min.x <= x <= b.max.x && b.min.y <= y <= b.max.y && #[trigger] cell_key(x, y) == c as nat
}

/// The `j`-th cell of `b` lies within `b`.
proof fn lemma_cell_at_in_bounds(b: GridBounds, j: int)
    requires
        0 <= j < cell_count(b),
    ensures
        width(b) > 0,
        b.min.x <= b.min.x + j % (width(b) as int) <= b.max.x,
        b.min.y <= b.min.y + j / (width(b) as int) <= b.max.y,
{
    let w = width(b) as int;
    let h = height(b) as int;
    assert(w > 0 && h > 0) by (nonlinear_arith)
        requires
            0 <= j < w * h,
            w >= 0,
            h >= 0,
    ;
    lemma_fundamental_div_mod(j, w);
    let q = j / w;
    let r = j % w;
    assert(0 <= r < w);
    assert(0 <= q < h) by (nonlinear_arith)
        requires
            j == w * q + r,
            0 <= r < w,
            0 <= j < w * h,
    ;
}

/// Distinct positions in `b` name distinct cells.
proof fn lemma_cell_at_injective(b: GridBounds, i: int, j: int)
    requires
        0 <= i < cell_count(b),
        0 <= j < cell_count(b),
        cell_at(b, i) == cell_at(b, j),
    ensures
        i == j,
{
    lemma_cell_at_in_bounds(b, i);
    lemma_cell_at_in_bounds(b, j);
    let w = width(b) as int;
    lemma_cell_key_injective(b.min.x + i % w, b.min.y + i / w, b.min.x + j % w, b.min.y + j / w);
    lemma_fundamental_div_mod(i, w);
    lemma_fundamental_div_mod(j, w);
}

/// Every cell within `b` has its position in `b`.
proof fn lemma_cell_at_complete(b: GridBounds, x: int, y: int) -> (j: int)
    requires
        b.min.x <= x <= b.max.x,
        b.min.y <= y <= b.max.y,
    ensures
        0 <= j < cell_count(b),
        cell_at(b, j) == cell_key(x, y),
{
    let w = width(b) as int;
    let h = height(b) as int;
    let q = y - b.min.y;
    let r = x - b.min.x;
    let j = q * w + r;
    lemma_fundamental_div_mod_converse(j, w, q, r);
    assert(0 <= j < w * h) by (nonlinear_arith)
        requires
            0 <= q < h,
            0 <= r < w,
            j == q * w + r,
    ;
    j
}

/// The cells that a body occupies: its bounds, and the keys of the cells
/// they cover, row by row.
pub struct Occupancy {
    pub bounds: GridBounds,
    pub cells: Vec<GridPairId>,
}

impl Occupancy {
    pub open spec fn wf(&self) -> bool {
        &&& self.cells@.len() == cell_count(self.bounds)
        &&& forall|j: int|
            0 <= j < self.cells@.len() ==> #[trigger] self.cells@[j] as nat == cell_at(
                self.bounds,
                j,
            )
    }
}

/// The recorded cells of an occupancy are exactly the cells its bounds cover,
/// each once.
pub proof fn lemma_occupancy_cells(o: Occupancy)
    requires
        o.wf(),
    ensures
        o.cells@.no_duplicates(),
        forall|c: u64| #[trigger] o.cells@.contains(c) <==> covers(o.bounds, c),
{
    let b = o.bounds;
    assert forall|i: int, j: int|
        0 <= i < o.cells@.len() && 0 <= j < o.cells@.len() && i != j implies o.cells@[i]
        != o.cells@[j] by {
        if o.cells@[i] == o.cells@[j] {
            assert(o.cells@[i] as nat == cell_at(b, i));
            assert(o.cells@[j] as nat == cell_at(b, j));
            lemma_cell_at_injective(b, i, j);
        }
    }
    assert forall|c: u64| #[trigger] o.cells@.contains(c) <==> covers(b, c) by {
        if o.cells@.contains(c) {
            let j = choose|j: int| 0 <= j < o.cells@.len() && o.cells@[j] == c;
            assert(o.cells@[j] as nat == cell_at(b, j));
            lemma_cell_at_in_bounds(b, j);
            let w = width(b) as int;
            assert(cell_key(b.min.x + j % w, b.min.y + j / w) == c as nat);
        }
        if covers(b, c) {
            let (x, y) = choose|x: int, y: int|
                b.min.x <= x <= b.max.x && b.min.y <= y <= b.max.y && #[trigger] cell_key(x, y)
                    == c as nat;
            let j = lemma_cell_at_complete(b, x, y);
            assert(o.cells@[j] as nat == cell_at(b, j));
            assert(o.cells@[j] == c);
        }
    }
}

/// A uniform grid of cells. Each cell that holds a body maps to the ids it
/// holds; each body in the grid records its bounds and the cells it
/// occupies; `order` lists the bodies in the order they were inserted.
pub struct Grid {
    pub buckets: HashMap<GridPairId, Vec<Id>>,
    pub members: HashMap<Id, Occupancy>,
    pub order: Vec<Id>,
}

impl Grid {
    /// The ids that the cell `c` holds.
    pub open spec fn occupants(&self, c: u64) -> Seq<Id> {
        if self.buckets@.contains_key(c) {
            self.buckets@[c]@
        } else {
            Seq::empty()
        }
    }

    /// The cell `c` holds `id`.
    pub open spec fn in_cell(&self, c: u64, id: Id) -> bool {
        self.occupants(c).contains(id)
    }

    /// `id` is in the grid.
    pub open spec fn is_member(&self, id: Id) -> bool {
        self.members@.contains_key(id)
    }

    /// The cells that `id` records.
    pub open spec fn cells_of(&self, id: Id) -> Seq<u64> {
        self.members@[id].cells@
    }

    /// The bounds with which `id` was inserted.
    pub open spec fn bounds_of(&self, id: Id) -> GridBounds {
        self.members@[id].bounds
    }

    /// Cells hold no id twice and no empty cell is kept; a cell holds an id
    /// exactly when the id records that cell; each body records the cells
    /// its bounds cover; `order` lists each body once.
    pub open spec fn wf(&self) -> bool {
        &&& forall|c: u64| #[trigger]
            self.buckets@.contains_key(c) ==> self.buckets@[c]@.len() > 0
                && self.buckets@[c]@.no_duplicates()
        &&& forall|c: u64, id: Id| #[trigger]
            self.in_cell(c, id) ==> self.is_member(id) && self.cells_of(id).contains(c)
        &&& forall|c: u64, id: Id|
            self.is_member(id) && #[trigger] self.cells_of(id).contains(c) ==> self.in_cell(c, id)
        &&& forall|id: Id| #[trigger] self.is_member(id) ==> self.members@[id].wf()
        &&& self.order@.no_duplicates()
        &&& forall|id: Id| self.is_member(id) <==> #[trigger] self.order@.contains(id)
    }

    /// An empty grid.
    pub fn new() -> (r: Self)
        ensures
            r.wf(),
            r.members@ == Map::<Id, Occupancy>::empty(),
            r.buckets@ == Map::<GridPairId, Vec<Id>>::empty(),
    {
        Grid { buckets: HashMap::new(), members: HashMap::new(), order: Vec::new() }
    }

    /// Records `id` in every cell that `bounds` covers.
    pub fn insert_body(&mut self, id: Id, bounds: GridBounds)
        requires
            old(self).wf(),
            !old(self).is_member(id),
        ensures
            final(self).wf(),
            final(self).members@.dom() == old(self).members@.dom().insert(id),
            final(self).bounds_of(id) == bounds,
            forall|other: Id|
                other != id && old(self).is_member(other) ==> final(self).members@[other]
                    == old(self).members@[other],
            forall|c: u64, other: Id| #[trigger]
                final(self).in_cell(c, other) <==> (old(self).in_cell(c, other) || (other == id
                    && covers(bounds, c))),
            final(self).order@ == old(self).order@.push(id),
    {
        let w: u128 = if bounds.max.x >= bounds.min.x {
            (bounds.max.x as i64 - bounds.min.x as i64 + 1) as u128
        } else {
            0
        };
        let h: u128 = if bounds.max.y >= bounds.min.y {
            (bounds.max.y as i64 - bounds.min.y as i64 + 1) as u128
        } else {
            0
        };
        assert(w * h <= 0x1_0000_0000 * 0x1_0000_0000) by (nonlinear_arith)
            requires
                w <= 0x1_0000_0000,
                h <= 0x1_0000_0000,
        ;
        let count: u128 = w * h;
        let mut cells: Vec<GridPairId> = Vec::new();
        let mut j: u128 = 0;
        while j < count
            invariant
                self.members == old(self).members,
                self.order == old(self).order,
                old(self).wf(),
                !old(self).is_member(id),
                w as nat == width(bounds),
                h as nat == height(bounds),
                count as nat == cell_count(bounds),
                j <= count,
                cells@.len() == j,
                forall|k: int| 0 <= k < j ==> #[trigger] cells@[k] as nat == cell_at(bounds, k),
                forall|c: u64| #[trigger]
                    self.buckets@.contains_key(c) ==> self.buckets@[c]@.len() > 0
                        && self.buckets@[c]@.no_duplicates(),
                forall|c: u64, other: Id| #[trigger]
                    self.in_cell(c, other) <==> (old(self).in_cell(c, other) || (other == id
                        && cells@.contains(c))),
            decreases count - j,
        {
            proof {
                lemma_cell_at_in_bounds(bounds, j as int);
            }
            let x: i64 = bounds.min.x as i64 + (j % w) as i64;
            let y: i64 = bounds.min.y as i64 + (j / w) as i64;
            let key = Grid::pair(&GridVec::new(x as GridPosition, y as GridPosition));
            assert(key as nat == cell_at(bounds, j as int));
            assert(!cells@.contains(key)) by {
                if cells@.contains(key) {
                    let k = choose|k: int| 0 <= k < cells@.len() && cells@[k] == key;
                    assert(cells@[k] as nat == cell_at(bounds, k));
                    lemma_cell_at_injective(bounds, k, j as int);
                }
            }
            assert(!self.in_cell(key, id));
            let ghost prev = *self;
            let ghost prev_cells = cells@;
            let mut bucket = match self.buckets.remove(&key) {
                Some(b) => b,
                None => Vec::new(),
            };
            assert(bucket@ == prev.occupants(key));
            bucket.push(id);
            self.buckets.insert(key, bucket);
            cells.push(key);
            j = j + 1;
            assert(cells@ == prev_cells.push(key));
            assert forall|c: u64| #[trigger] cells@.contains(c) <==> (prev_cells.contains(c) || c
                == key) by {
                if prev_cells.contains(c) {
                    let k = choose|k: int| 0 <= k < prev_cells.len() && prev_cells[k] == c;
                    assert(cells@[k] == c);
                }
                if cells@.contains(c) && c != key {
                    let k = choose|k: int| 0 <= k < cells@.len() && cells@[k] == c;
                    assert(prev_cells[k] == c);
                }
                if c == key {
                    assert(cells@[cells@.len() - 1] == key);
                }
            }
            assert forall|c: u64| c != key implies #[trigger] self.occupants(c) == prev.occupants(
                c,
            ) by {}
            assert(self.occupants(key) == prev.occupants(key).push(id));
            assert forall|other: Id| #[trigger]
                self.occupants(key).contains(other) <==> (prev.occupants(key).contains(other)
                    || other == id) by {
                let s = prev.occupants(key);
                if s.contains(other) {
                    let k = choose|k: int| 0 <= k < s.len() && s[k] == other;
                    assert(self.occupants(key)[k] == other);
                }
                if self.occupants(key).contains(other) && other != id {
                    let k = choose|k: int|
                        0 <= k < self.occupants(key).len() && self.occupants(key)[k] == other;
                    assert(s[k] == other);
                }
                if other == id {
                    assert(self.occupants(key)[s.len() as int] == id);
                }
            }
            assert forall|c: u64, other: Id| #[trigger]
                self.in_cell(c, other) <==> (old(self).in_cell(c, other) || (other == id
                    && cells@.contains(c))) by {
                if c != key {
                    assert(self.occupants(c) == prev.occupants(c));
                    assert(prev.in_cell(c, other) <==> (old(self).in_cell(c, other) || (other == id
                        && prev_cells.contains(c))));
                } else {
                    assert(prev.in_cell(c, other) <==> (old(self).in_cell(c, other) || (other == id
                        && prev_cells.contains(c))));
                }
            }
            assert forall|c: u64| #[trigger]
                self.buckets@.contains_key(c) implies self.buckets@[c]@.len() > 0
                    && self.buckets@[c]@.no_duplicates() by {
                if c == key {
                    let s = prev.occupants(key);
                    assert(!s.contains(id));
                    assert forall|a: int, b: int|
                        0 <= a < self.buckets@[c]@.len() && 0 <= b < self.buckets@[c]@.len() && a
                            != b implies self.buckets@[c]@[a] != self.buckets@[c]@[b] by {
                        if a < s.len() && b < s.len() {
                            assert(prev.buckets@.contains_key(c));
                        } else if a == s.len() {
                            assert(s.contains(self.buckets@[c]@[b]) || self.buckets@[c]@[b] != id);
                        } else {
                            assert(s.contains(self.buckets@[c]@[a]) || self.buckets@[c]@[a] != id);
                        }
                    }
                } else {
                    assert(prev.buckets@.contains_key(c));
                }
            }
        }
        let occupancy = Occupancy { bounds, cells };
        assert(occupancy.wf());
        proof {
            lemma_occupancy_cells(occupancy);
        }
        let ghost cells_seq = occupancy.cells@;
        let ghost after_loop = *self;
        assert forall|c: u64, other: Id| #[trigger]
            after_loop.in_cell(c, other) <==> (old(self).in_cell(c, other) || (other == id
                && cells_seq.contains(c))) by {}
        self.members.insert(id, occupancy);
        self.order.push(id);
        assert forall|c: u64, other: Id| #[trigger]
            self.in_cell(c, other) implies self.is_member(other) && self.cells_of(other).contains(c) by {
            assert(self.occupants(c) == after_loop.occupants(c));
            assert(after_loop.in_cell(c, other));
            if other != id {
                if !old(self).in_cell(c, other) {
                    assert(cells_seq.contains(c));
                }
                assert(old(self).in_cell(c, other));
            } else {
                assert(!old(self).in_cell(c, id));
            }
        }
        assert forall|c: u64, other: Id|
            self.is_member(other) && #[trigger] self.cells_of(other).contains(c) implies self.in_cell(
            c,
            other,
        ) by {
            assert(self.occupants(c) == after_loop.occupants(c));
            if other != id {
                assert(old(self).cells_of(other).contains(c));
                assert(old(self).in_cell(c, other));
            }
            assert(after_loop.in_cell(c, other));
        }
        assert forall|other: Id| #[trigger] self.is_member(other) implies self.members@[other].wf() by {
            if other != id {
                assert(old(self).is_member(other));
            }
        }
        assert forall|other: Id| #[trigger] self.order@.contains(other) implies self.is_member(
            other,
        ) by {
            if other != id {
                let k = choose|k: int| 0 <= k < self.order@.len() && self.order@[k] == other;
                assert(old(self).order@[k] == other);
                assert(old(self).order@.contains(other));
            }
        }
        assert forall|other: Id| self.is_member(other) implies #[trigger] self.order@.contains(
            other,
        ) by {
            if other == id {
                assert(self.order@[self.order@.len() - 1] == id);
            } else {
                assert(old(self).is_member(other));
                assert(old(self).order@.contains(other));
                let k = choose|k: int|
                    0 <= k < old(self).order@.len() && old(self).order@[k] == other;
                assert(self.order@[k] == other);
            }
        }
        assert(!old(self).order@.contains(id));
        assert(self.order@.no_duplicates());
        assert forall|c: u64, other: Id| #[trigger]
            self.in_cell(c, other) <==> (old(self).in_cell(c, other) || (other == id && covers(
                bounds,
                c,
            ))) by {
            assert(self.occupants(c) == after_loop.occupants(c));
            assert(occupancy.cells@.contains(c) <==> covers(bounds, c));
            assert(after_loop.in_cell(c, other) <==> (old(self).in_cell(c, other) || (other == id
                && cells_seq.contains(c))));
        }
    }

    /// Takes `id` out of every cell it occupies, and out of the grid. An id
    /// that is not in the grid leaves it unchanged.
    pub fn remove_body(&mut self, id: Id)
        requires
            old(self).wf(),
        ensures
            final(self).wf(),
            final(self).members@ == old(self).members@.remove(id),
            forall|c: u64| #[trigger]
                final(self).occupants(c) == old(self).occupants(c).remove_value(id),
            forall|c: u64, other: Id| #[trigger]
                final(self).in_cell(c, other) <==> (old(self).in_cell(c, other) && other != id),
            final(self).order@ == old(self).order@.remove_value(id),
    {
        if !self.members.contains_key(&id) {
            assert forall|c: u64| #[trigger]
                self.occupants(c) == old(self).occupants(c).remove_value(id) by {
                assert(!old(self).in_cell(c, id));
                if old(self).buckets@.contains_key(c) {
                    lemma_remove_value_no_duplicates(old(self).occupants(c), id);
                } else {
                    Seq::<Id>::empty().index_of_first_ensures(id);
                }
            }
            assert(!self.order@.contains(id));
            proof {
                lemma_remove_value_no_duplicates(self.order@, id);
            }
            assert(self.members@ =~= old(self).members@.remove(id));
            return ;
        }
        let occupancy = match self.members.remove(&id) {
            Some(o) => o,
            None => {
                return ;
            },
        };
        assert(old(self).is_member(id));
        assert(occupancy == old(self).members@[id]);
        assert(occupancy.wf());
        proof {
            lemma_occupancy_cells(occupancy);
        }
        let mut k: usize = 0;
        while k < occupancy.cells.len()
            invariant
                self.members@ == old(self).members@.remove(id),
                self.order == old(self).order,
                old(self).wf(),
                old(self).is_member(id),
                occupancy == old(self).members@[id],
                occupancy.cells@.no_duplicates(),
                k <= occupancy.cells@.len(),
                forall|c: u64| #[trigger]
                    self.buckets@.contains_key(c) ==> self.buckets@[c]@.len() > 0
                        && self.buckets@[c]@.no_duplicates(),
                forall|c: u64| #[trigger]
                    self.occupants(c) == if occupancy.cells@.take(k as int).contains(c) {
                        old(self).occupants(c).remove_value(id)
                    } else {
                        old(self).occupants(c)
                    },
            decreases occupancy.cells@.len() - k,
        {
            let c = occupancy.cells[k];
            let ghost prev = *self;
            assert(!occupancy.cells@.take(k as int).contains(c)) by {
                if occupancy.cells@.take(k as int).contains(c) {
                    let j = choose|j: int|
                        0 <= j < k && occupancy.cells@.take(k as int)[j] == c;
                    assert(occupancy.cells@[j] == occupancy.cells@[k as int]);
                }
            }
            assert(prev.occupants(c) == old(self).occupants(c));
            match self.buckets.remove(&c) {
                Some(bucket) => {
                    let mut bucket = bucket;
                    let ghost before = bucket@;
                    proof {
                        lemma_remove_value_no_duplicates(before, id);
                    }
                    match index_of_id(&bucket, id) {
                        Some(i) => {
                            proof {
                                lemma_first_index(before, id, i as int);
                            }
                            bucket.remove(i);
                        },
                        None => {},
                    }
                    assert(bucket@ == before.remove_value(id));
                    if bucket.len() > 0 {
                        self.buckets.insert(c, bucket);
                    } else {
                        assert(bucket@ =~= Seq::<Id>::empty());
                    }
                },
                None => {
                    assert(Seq::<Id>::empty().remove_value(id) == Seq::<Id>::empty()) by {
                        Seq::<Id>::empty().index_of_first_ensures(id);
                    }
                },
            }
            assert(self.occupants(c) == old(self).occupants(c).remove_value(id));
            let ghost t0 = occupancy.cells@.take(k as int);
            let ghost t1 = occupancy.cells@.take(k + 1);
            assert forall|d: u64| #[trigger] t1.contains(d) <==> (t0.contains(d) || d == c) by {
                if t1.contains(d) && d != c {
                    let j = choose|j: int| 0 <= j < t1.len() && t1[j] == d;
                    assert(t0[j] == d);
                }
                if t0.contains(d) {
                    let j = choose|j: int| 0 <= j < t0.len() && t0[j] == d;
                    assert(t1[j] == d);
                }
                if d == c {
                    assert(t1[k as int] == c);
                }
            }
            assert forall|d: u64| d != c implies #[trigger] self.occupants(d) == prev.occupants(
                d,
            ) by {}
            k = k + 1;
        }
        assert(occupancy.cells@.take(k as int) =~= occupancy.cells@);
        assert forall|c: u64| #[trigger]
            self.occupants(c) == old(self).occupants(c).remove_value(id) by {
            if !occupancy.cells@.contains(c) {
                assert(!old(self).in_cell(c, id));
                if old(self).buckets@.contains_key(c) {
                    lemma_remove_value_no_duplicates(old(self).occupants(c), id);
                } else {
                    Seq::<Id>::empty().index_of_first_ensures(id);
                }
            }
        }
        assert forall|c: u64, other: Id| #[trigger]
            self.in_cell(c, other) <==> (old(self).in_cell(c, other) && other != id) by {
            if old(self).buckets@.contains_key(c) {
                lemma_remove_value_no_duplicates(old(self).occupants(c), id);
            } else {
                Seq::<Id>::empty().index_of_first_ensures(id);
            }
        }
        let ghost before_order = self.order@;
        let ghost after_buckets = *self;
        proof {
            lemma_remove_value_no_duplicates(before_order, id);
        }
        assert(self.order@.contains(id));
        match index_of_id(&self.order, id) {
            Some(i) => {
                proof {
                    lemma_first_index(before_order, id, i as int);
                }
                self.order.remove(i);
            },
            None => {},
        }
        assert(self.order@ == before_order.remove_value(id));
        assert forall|c: u64, other: Id| #[trigger]
            self.in_cell(c, other) implies self.is_member(other) && self.cells_of(other).contains(c) by {
            assert(self.occupants(c) == after_buckets.occupants(c));
            assert(after_buckets.in_cell(c, other));
            assert(old(self).in_cell(c, other));
        }
        assert forall|c: u64, other: Id|
            self.is_member(other) && #[trigger] self.cells_of(other).contains(c) implies self.in_cell(
            c,
            other,
        ) by {
            assert(old(self).cells_of(other).contains(c));
            assert(old(self).in_cell(c, other));
            assert(after_buckets.in_cell(c, other));
            assert(self.occupants(c) == after_buckets.occupants(c));
        }
        assert forall|other: Id| #[trigger] self.is_member(other) implies self.members@[other].wf() by {
            assert(old(self).is_member(other));
        }
        assert forall|other: Id| self.is_member(other) <==> #[trigger] self.order@.contains(other) by {
            assert(old(self).is_member(other) <==> old(self).order@.contains(other));
        }
        assert forall|c: u64| #[trigger]
            self.occupants(c) == old(self).occupants(c).remove_value(id) by {
            assert(self.occupants(c) == after_buckets.occupants(c));
        }
        assert forall|c: u64, other: Id| #[trigger]
            self.in_cell(c, other) <==> (old(self).in_cell(c, other) && other != id) by {
            assert(self.occupants(c) == after_buckets.occupants(c));
            assert(after_buckets.in_cell(c, other) <==> (old(self).in_cell(c, other) && other
                != id));
        }
    }

    /// Moves `id` to the cells that `bounds` covers: it is removed, then
    /// inserted again.
    pub fn update_body(&mut self, id: Id, bounds: GridBounds)
        requires
            old(self).wf(),
        ensures
            final(self).wf(),
            final(self).members@.dom() == old(self).members@.dom().insert(id),
            final(self).bounds_of(id) == bounds,
            forall|other: Id|
                other != id && old(self).is_member(other) ==> final(self).members@[other]
                    == old(self).members@[other],
            forall|c: u64, other: Id| #[trigger]
                final(self).in_cell(c, other) <==> (if other == id {
                    covers(bounds, c)
                } else {
                    old(self).in_cell(c, other)
                }),
            final(self).order@ == old(self).order@.remove_value(id).push(id),
    {
        self.remove_body(id);
        let ghost mid = *self;
        self.insert_body(id, bounds);
        assert forall|other: Id|
            other != id && old(self).is_member(other) implies self.members@[other]
                == old(self).members@[other] by {
            assert(mid.is_member(other));
        }
    }

    /// `a` and `b` share at least one cell.
    pub open spec fn shares_cell(&self, a: Id, b: Id) -> bool {
        exists|c: u64| #[trigger] self.in_cell(c, a) && self.in_cell(c, b)
    }

    /// Whether `id` is in the grid.
    pub fn contains_body(&self, id: Id) -> (r: bool)
        ensures
            r == self.is_member(id),
    {
        self.members.contains_key(&id)
    }

    /// The ids that the cell `cell` holds, if it holds any.
    pub fn get_bucket(&self, cell: GridPairId) -> (r: Option<&Vec<Id>>)
        requires
            self.wf(),
        ensures
            match r {
                Some(b) => b@ == self.occupants(cell) && b@.len() > 0,
                None => self.occupants(cell).len() == 0,
            },
    {
        self.buckets.get(&cell)
    }

    /// The cells that `id` occupies, if it is in the grid.
    pub fn get_cells(&self, id: Id) -> (r: Option<&Vec<GridPairId>>)
        ensures
            match r {
                Some(cells) => self.is_member(id) && cells@ == self.cells_of(id),
                None => !self.is_member(id),
            },
    {
        match self.members.get(&id) {
            Some(o) => Some(&o.cells),
            None => None,
        }
    }

    /// The key of the cell `point`: the zigzag folds of its coordinates,
    /// combined by Szudzik's pairing.
    pub fn pair(point: &GridVec) -> (r: GridPairId)
        ensures
            r as nat == cell_key(point.x as int, point.y as int),
    {
        let x = zigzag_exec(point.x);
        let y = zigzag_exec(point.y);
        assert(x * x <= 0xffff_ffff * 0xffff_ffff) by (nonlinear_arith)
            requires
                x <= 0xffff_ffff,
        ;
        assert(y * y <= 0xffff_ffff * 0xffff_ffff) by (nonlinear_arith)
            requires
                y <= 0xffff_ffff,
        ;
        if x >= y {
            x * x + x + y
        } else {
            y * y + x
        }
    }

    /// The cell whose key is `id`.
    pub fn unpair(id: GridPairId) -> (r: GridVec)
        ensures
            (r.x as int, r.y as int) == spec_cell_of_key(id as nat),
    {
        let z = isqrt(id);
        let l: u64 = id - z * z;
        proof {
            lemma_cell_of_key_bounds(id as nat, z as nat);
        }
        let (a, b): (u64, u64) = if l < z {
            (l, z)
        } else {
            (z, l - z)
        };
        GridVec::new(unzigzag_exec(a), unzigzag_exec(b))
    }
}

/// A body in the grid records exactly the cells its bounds cover, each once,
/// and those are exactly the cells that hold its id.
pub proof fn lemma_grid_consistency(g: &Grid, id: Id)
    requires
        g.wf(),
        g.is_member(id),
    ensures
        g.cells_of(id).no_duplicates(),
        forall|c: u64| #[trigger] g.cells_of(id).contains(c) <==> covers(g.bounds_of(id), c),
        forall|c: u64| #[trigger] g.in_cell(c, id) <==> covers(g.bounds_of(id), c),
{
    lemma_occupancy_cells(g.members@[id]);
    assert forall|c: u64| #[trigger] g.in_cell(c, id) <==> covers(g.bounds_of(id), c) by {
        assert(g.cells_of(id).contains(c) <==> covers(g.bounds_of(id), c));
    }
}

} // verus!
