//! The world: the bodies taking part in the simulation, the step counter,
//! and the active collision pairs, each kept once by its identity.
use vstd::prelude::*;

use crate::collision_pair::CollisionPair;
use crate::ids::{index_of_id, lemma_remove_value_no_duplicates};
use crate::{Frame, Id};

verus! {

/// `(a, b)` ordered so that the smaller id comes first.
pub open spec fn ordered(a: Id, b: Id) -> (Id, Id) {
    if a <= b {
        (a, b)
    } else {
        (b, a)
    }
}

/// `p` joins two bodies listed in `bodies`, the smaller id first.
pub open spec fn joins_two(bodies: Seq<Id>, p: (Id, Id)) -> bool {
    exists|i: int, j: int| 0 <= i < j < bodies.len() && p == #[trigger] ordered(bodies[i], bodies[j])
}

/// No two entries of `pairs` have the same identity, and no pair joins a
/// body with itself.
pub open spec fn pairs_unique<M>(pairs: Seq<(CollisionPair, M)>) -> bool {
    &&& forall|i: int, j: int|
        0 <= i < pairs.len() && 0 <= j < pairs.len() && i != j ==> #[trigger] pairs[i].0.spec_id()
            != #[trigger] pairs[j].0.spec_id()
    &&& forall|i: int| 0 <= i < pairs.len() ==> #[trigger] pairs[i].0.body_a != pairs[i].0.body_b
}

/// The world's bodies, in the order they were added, its step counter, and
/// its collision pairs, each with the manifold `M` that the narrow phase
/// built for it.
pub struct World<M> {
    pub bodies: Vec<Id>,
    pub frame: Frame,
    pub collision_pairs: Vec<(CollisionPair, M)>,
}

impl<M> World<M> {
    /// Bodies are listed once each, and pairs are unique.
    pub open spec fn wf(&self) -> bool {
        &&& self.bodies@.no_duplicates()
        &&& pairs_unique(self.collision_pairs@)
    }

    /// A pair is valid at the current step unless it was generated before it.
    pub open spec fn valid_pair(frame: Frame) -> spec_fn((CollisionPair, M)) -> bool {
        |p: (CollisionPair, M)| p.0.frame >= frame
    }

    /// An empty world at step 0.
    pub fn new() -> (r: Self)
        ensures
            r.wf(),
            r.bodies@ == Seq::<Id>::empty(),
            r.frame == 0,
            r.collision_pairs@ == Seq::<(CollisionPair, M)>::empty(),
    {
        World { bodies: Vec::new(), frame: 0, collision_pairs: Vec::new() }
    }

    /// Whether `id` takes part in the simulation.
    pub fn contains_body(&self, id: Id) -> (r: bool)
        ensures
            r == self.bodies@.contains(id),
    {
        match index_of_id(&self.bodies, id) {
            Some(_) => true,
            None => false,
        }
    }

    /// Adds `id` to the world; a body already there stays where it is.
    pub fn add_body(&mut self, id: Id)
        requires
            old(self).wf(),
        ensures
            final(self).wf(),
            final(self).bodies@ == if old(self).bodies@.contains(id) {
                old(self).bodies@
            } else {
                old(self).bodies@.push(id)
            },
            final(self).frame == old(self).frame,
            final(self).collision_pairs@ == old(self).collision_pairs@,
    {
        if self.contains_body(id) {
            return ;
        }
        self.bodies.push(id);
        assert forall|i: int, j: int|
            0 <= i < self.bodies@.len() && 0 <= j < self.bodies@.len() && i != j implies self.bodies@[i]
            != self.bodies@[j] by {
            if i == self.bodies@.len() - 1 {
                assert(old(self).bodies@[j] == self.bodies@[j]);
            } else if j == self.bodies@.len() - 1 {
                assert(old(self).bodies@[i] == self.bodies@[i]);
            }
        }
    }

    /// Takes `id` out of the world; an absent id changes nothing.
    pub fn remove_body(&mut self, id: Id)
        requires
            old(self).wf(),
        ensures
            final(self).wf(),
            final(self).bodies@ == old(self).bodies@.remove_value(id),
            forall|x: Id| #[trigger]
                final(self).bodies@.contains(x) <==> (old(self).bodies@.contains(x) && x != id),
            final(self).frame == old(self).frame,
            final(self).collision_pairs@ == old(self).collision_pairs@,
    {
        proof {
            lemma_remove_value_no_duplicates(self.bodies@, id);
        }
        match index_of_id(&self.bodies, id) {
            Some(i) => {
                proof {
                    self.bodies@.index_of_first_ensures(id);
                }
                self.bodies.remove(i);
            },
            None => {},
        }
    }

    /// The bodies of the world, in the order they were added.
    pub fn get_bodies(&self) -> (r: &Vec<Id>)
        ensures
            r@ == self.bodies@,
    {
        &self.bodies
    }

    /// Every unordered pair of distinct bodies of the world, once each, the
    /// smaller id first.
    pub fn get_pairs(&self) -> (r: Vec<(Id, Id)>)
        requires
            self.wf(),
        ensures
            r@.no_duplicates(),
            forall|k: int| 0 <= k < r@.len() ==> #[trigger] joins_two(self.bodies@, r@[k]),
            forall|i: int, j: int|
                0 <= i < j < self.bodies@.len() ==> #[trigger] r@.contains(
                    ordered(self.bodies@[i], self.bodies@[j]),
                ),
    {
        let mut pairs: Vec<(Id, Id)> = Vec::new();
        let len = self.bodies.len();
        let ghost b = self.bodies@;
        let ghost mut idx: Seq<(int, int)> = Seq::empty();
        let mut i: usize = 0;
        while i < len
            invariant
                len == b.len(),
                b == self.bodies@,
                b.no_duplicates(),
                i <= len,
                idx.len() == pairs@.len(),
                pairs@.no_duplicates(),
                forall|k: int|
                    0 <= k < idx.len() ==> 0 <= #[trigger] idx[k].0 < idx[k].1 < len && idx[k].0 < i
                        && pairs@[k] == ordered(b[idx[k].0], b[idx[k].1]),
                forall|i1: int, j1: int|
                    0 <= i1 < j1 < len && i1 < i ==> #[trigger] pairs@.contains(
                        ordered(b[i1], b[j1]),
                    ),
            decreases len - i,
        {
            let mut j: usize = i + 1;
            while j < len
                invariant
                    len == b.len(),
                    b == self.bodies@,
                    b.no_duplicates(),
                    i < len,
                    i + 1 <= j <= len,
                    idx.len() == pairs@.len(),
                    pairs@.no_duplicates(),
                    forall|k: int|
                        0 <= k < idx.len() ==> 0 <= #[trigger] idx[k].0 < idx[k].1 < len && (idx[k].0
                            < i || (idx[k].0 == i && idx[k].1 < j)) && pairs@[k] == ordered(
                            b[idx[k].0],
                            b[idx[k].1],
                        ),
                    forall|i1: int, j1: int|
                        0 <= i1 < j1 < len && (i1 < i || (i1 == i && j1 < j))
                            ==> #[trigger] pairs@.contains(ordered(b[i1], b[j1])),
                decreases len - j,
            {
                let x = self.bodies[i];
                let y = self.bodies[j];
                let p = if x <= y {
                    (x, y)
                } else {
                    (y, x)
                };
                assert(p == ordered(b[i as int], b[j as int]));
                let ghost prev = pairs@;
                assert(!prev.contains(p)) by {
                    if prev.contains(p) {
                        let k = choose|k: int| 0 <= k < prev.len() && prev[k] == p;
                        let i1 = idx[k].0;
                        let j1 = idx[k].1;
                        assert(b[i1] != b[j1]);
                        if b[i1] == b[i as int] {
                            assert(b[j1] == b[j as int]);
                        } else {
                            assert(b[i1] == b[j as int]);
                            assert(b[j1] == b[i as int]);
                        }
                    }
                }
                pairs.push(p);
                proof {
                    idx = idx.push((i as int, j as int));
                }
                assert forall|i1: int, j1: int|
                    0 <= i1 < j1 < len && (i1 < i || (i1 == i && j1 < j + 1)) implies #[trigger] pairs@.contains(
                    ordered(b[i1], b[j1]),
                ) by {
                    if i1 == i && j1 == j {
                        assert(pairs@[prev.len() as int] == p);
                    } else {
                        assert(prev.contains(ordered(b[i1], b[j1])));
                        let k = choose|k: int| 0 <= k < prev.len() && prev[k] == ordered(b[i1], b[j1]);
                        assert(pairs@[k] == prev[k]);
                    }
                }
                j = j + 1;
            }
            i = i + 1;
        }
        assert forall|k: int| 0 <= k < pairs@.len() implies #[trigger] joins_two(
            self.bodies@,
            pairs@[k],
        ) by {
            assert(0 <= idx[k].0 < idx[k].1 < len);
            assert(pairs@[k] == ordered(self.bodies@[idx[k].0], self.bodies@[idx[k].1]));
        }
        pairs
    }

    /// Records the pair `{body_a, body_b}` with its manifold at the current
    /// step, in place of any pair with the same identity.
    pub fn upsert_pair(&mut self, body_a: Id, body_b: Id, manifold: M)
        requires
            old(self).wf(),
            body_a != body_b,
        ensures
            final(self).wf(),
            final(self).bodies@ == old(self).bodies@,
            final(self).frame == old(self).frame,
            ({
                let entry = (CollisionPair { body_a, body_b, frame: old(self).frame }, manifold);
                let key = entry.0.spec_id();
                if exists|i: int|
                    0 <= i < old(self).collision_pairs@.len()
                        && #[trigger] old(self).collision_pairs@[i].0.spec_id() == key {
                    exists|i: int|
                        0 <= i < old(self).collision_pairs@.len()
                            && #[trigger] old(self).collision_pairs@[i].0.spec_id() == key
                            && final(self).collision_pairs@ == old(self).collision_pairs@.update(
                            i,
                            entry,
                        )
                } else {
                    final(self).collision_pairs@ == old(self).collision_pairs@.push(entry)
                }
            }),
    {
        let pair = CollisionPair { body_a, body_b, frame: self.frame };
        let key = pair.id();
        let ghost entry = (pair, manifold);
        let mut i: usize = 0;
        while i < self.collision_pairs.len()
            invariant
                self.collision_pairs@ == old(self).collision_pairs@,
                self.bodies == old(self).bodies,
                self.frame == old(self).frame,
                old(self).wf(),
                i <= self.collision_pairs@.len(),
                key as nat == pair.spec_id(),
                pair == (CollisionPair { body_a, body_b, frame: old(self).frame }),
                entry == (pair, manifold),
                body_a != body_b,
                forall|k: int| 0 <= k < i ==> #[trigger] self.collision_pairs@[k].0.spec_id() != key as nat,
            decreases self.collision_pairs@.len() - i,
        {
            if self.collision_pairs[i].0.id() == key {
                let ghost before = self.collision_pairs@;
                self.collision_pairs.set(i, (pair, manifold));
                assert(self.collision_pairs@ == before.update(i as int, entry));
                assert forall|a: int, b: int|
                    0 <= a < self.collision_pairs@.len() && 0 <= b < self.collision_pairs@.len() && a
                        != b implies #[trigger] self.collision_pairs@[a].0.spec_id()
                    != #[trigger] self.collision_pairs@[b].0.spec_id() by {
                    if a != i && b != i {
                        assert(before[a].0.spec_id() != before[b].0.spec_id());
                    } else if a == i {
                        assert(before[a].0.spec_id() != before[b].0.spec_id());
                    } else {
                        assert(before[a].0.spec_id() != before[b].0.spec_id());
                    }
                }
                assert forall|a: int| 0 <= a < self.collision_pairs@.len() implies #[trigger] self.collision_pairs@[a].0.body_a
                    != self.collision_pairs@[a].0.body_b by {
                    if a != i {
                        assert(before[a].0.body_a != before[a].0.body_b);
                    } else {
                        assert(self.collision_pairs@[a] == entry);
                    }
                }
                assert(0 <= i < old(self).collision_pairs@.len()
                    && old(self).collision_pairs@[i as int].0.spec_id() == pair.spec_id());
                return ;
            }
            i = i + 1;
        }
        let ghost before = self.collision_pairs@;
        self.collision_pairs.push((pair, manifold));
        assert forall|a: int, b: int|
            0 <= a < self.collision_pairs@.len() && 0 <= b < self.collision_pairs@.len() && a
                != b implies #[trigger] self.collision_pairs@[a].0.spec_id()
            != #[trigger] self.collision_pairs@[b].0.spec_id() by {
            if a < before.len() && b < before.len() {
                assert(before[a].0.spec_id() != before[b].0.spec_id());
            } else if a < before.len() {
                assert(before[a].0.spec_id() != key as nat);
            } else {
                assert(before[b].0.spec_id() != key as nat);
            }
        }
        assert forall|a: int| 0 <= a < self.collision_pairs@.len() implies #[trigger] self.collision_pairs@[a].0.body_a
            != self.collision_pairs@[a].0.body_b by {
            if a < before.len() {
                assert(before[a].0.body_a != before[a].0.body_b);
            }
        }
    }

    /// Drops the pairs generated before the current step, keeping the others
    /// in order.
    pub fn prune_pairs(&mut self)
        requires
            old(self).wf(),
        ensures
            final(self).wf(),
            final(self).bodies@ == old(self).bodies@,
            final(self).frame == old(self).frame,
            final(self).collision_pairs@ == old(self).collision_pairs@.filter(
                Self::valid_pair(old(self).frame),
            ),
    {
        let ghost src = self.collision_pairs@;
        let ghost pred = Self::valid_pair(self.frame);
        let ghost mut consumed: int = 0;
        let mut i: usize = 0;
        while i < self.collision_pairs.len()
            invariant
                self.bodies == old(self).bodies,
                self.frame == old(self).frame,
                src == old(self).collision_pairs@,
                pred == Self::valid_pair(self.frame),
                0 <= consumed <= src.len(),
                i == src.take(consumed).filter(pred).len(),
                self.collision_pairs@ == src.take(consumed).filter(pred) + src.skip(consumed),
            decreases src.len() - consumed,
        {
            let ghost kept = src.take(consumed).filter(pred);
            proof {
                reveal(Seq::filter);
                assert(src.take(consumed + 1).drop_last() =~= src.take(consumed));
                assert(src.take(consumed + 1).last() == src[consumed]);
                assert(self.collision_pairs@[i as int] == src[consumed]);
            }
            if self.collision_pairs[i].0.is_valid(self.frame) {
                proof {
                    assert(src.take(consumed + 1).filter(pred) == kept.push(src[consumed]));
                    assert(self.collision_pairs@ =~= src.take(consumed + 1).filter(pred) + src.skip(
                        consumed + 1,
                    ));
                    consumed = consumed + 1;
                }
                i = i + 1;
            } else {
                self.collision_pairs.remove(i);
                proof {
                    assert(src.take(consumed + 1).filter(pred) == kept);
                    assert(self.collision_pairs@ =~= src.take(consumed + 1).filter(pred) + src.skip(
                        consumed + 1,
                    ));
                    consumed = consumed + 1;
                }
            }
        }
        proof {
            assert(src.skip(consumed).len() == 0);
            assert(src.take(consumed) =~= src);
            assert(self.collision_pairs@ =~= src.filter(pred));
            lemma_filter_keeps_unique(src, pred);
        }
    }

    /// Moves the world to the next step; the counter stops at its largest
    /// value.
    pub fn advance_frame(&mut self)
        ensures
            final(self).frame == if old(self).frame < Frame::MAX {
                (old(self).frame + 1) as Frame
            } else {
                old(self).frame
            },
            final(self).bodies == old(self).bodies,
            final(self).collision_pairs == old(self).collision_pairs,
    {
        if self.frame < Frame::MAX {
            self.frame = self.frame + 1;
        }
    }
}

/// Filtering keeps pairs unique.
proof fn lemma_filter_keeps_unique<M>(s: Seq<(CollisionPair, M)>, pred: spec_fn((CollisionPair, M)) -> bool)
    requires
        pairs_unique(s),
    ensures
        pairs_unique(s.filter(pred)),
    decreases s.len(),
{
    reveal(Seq::filter);
    if s.len() > 0 {
        let rest = s.drop_last();
        assert(pairs_unique(rest)) by {
            assert forall|i: int, j: int|
                0 <= i < rest.len() && 0 <= j < rest.len() && i != j implies #[trigger] rest[i].0.spec_id()
                != #[trigger] rest[j].0.spec_id() by {
                assert(s[i].0.spec_id() != s[j].0.spec_id());
            }
            assert forall|i: int| 0 <= i < rest.len() implies #[trigger] rest[i].0.body_a != rest[i].0.body_b by {
                assert(s[i].0.body_a != s[i].0.body_b);
            }
        }
        lemma_filter_keeps_unique(rest, pred);
        let f = rest.filter(pred);
        if pred(s.last()) {
            let g = f.push(s.last());
            assert forall|i: int, j: int|
                0 <= i < g.len() && 0 <= j < g.len() && i != j implies #[trigger] g[i].0.spec_id()
                != #[trigger] g[j].0.spec_id() by {
                if i < f.len() && j < f.len() {
                    assert(f[i] == g[i] && f[j] == g[j]);
                } else {
                    let k = if i < f.len() { i } else { j };
                    assert(rest.filter(pred).contains(f[k]) ==> rest.contains(f[k])) by {
                        lemma_filter_subset(rest, pred, k);
                    }
                    let m = choose|m: int| 0 <= m < rest.len() && rest[m] == f[k];
                    assert(s[m] == rest[m]);
                    assert(s[m].0.spec_id() != s[s.len() - 1].0.spec_id());
                }
            }
            assert forall|i: int| 0 <= i < g.len() implies #[trigger] g[i].0.body_a != g[i].0.body_b by {
                if i < f.len() {
                    assert(f[i] == g[i]);
                } else {
                    assert(s[s.len() - 1].0.body_a != s[s.len() - 1].0.body_b);
                }
            }
        }
    }
}

/// Every element of a filtered sequence comes from the sequence.
proof fn lemma_filter_subset<A>(s: Seq<A>, pred: spec_fn(A) -> bool, k: int)
    requires
        0 <= k < s.filter(pred).len(),
    ensures
        s.contains(s.filter(pred)[k]),
    decreases s.len(),
{
    reveal(Seq::filter);
    if s.len() > 0 {
        let rest = s.drop_last();
        let f = rest.filter(pred);
        if k < f.len() {
            lemma_filter_subset(rest, pred, k);
            let m = choose|m: int| 0 <= m < rest.len() && rest[m] == f[k];
            assert(s[m] == rest[m]);
            if pred(s.last()) {
                assert(s.filter(pred)[k] == f[k]);
            }
        } else {
            assert(s.filter(pred)[k] == s.last());
            assert(s[s.len() - 1] == s.last());
        }
    }
}

/// No two collision pairs of a world have the same identity.
pub proof fn lemma_pair_uniqueness<M>(w: &World<M>)
    requires
        w.wf(),
    ensures
        forall|i: int, j: int|
            0 <= i < j < w.collision_pairs@.len() ==> #[trigger] w.collision_pairs@[i].0.spec_id()
                != #[trigger] w.collision_pairs@[j].0.spec_id(),
{
}

} // verus!
