//! Body ids: lookup in lists of ids, and allocation of new ones by a random
//! draw moved on to the first id not in use.
use vstd::prelude::*;

use std::collections::HashSet;

use crate::Id;

verus! {

/// Index of the first occurrence of `id` in `v`.
pub fn index_of_id(v: &Vec<Id>, id: Id) -> (r: Option<usize>)
    ensures
        match r {
            Some(i) => i < v@.len() && v@[i as int] == id && v@.index_of_first(id) == Some(
                i as int,
            ),
            None => !v@.contains(id),
        },
{
    proof {
        v@.index_of_first_ensures(id);
    }
    let mut i: usize = 0;
    while i < v.len()
        invariant
            i <= v@.len(),
            forall|j: int| 0 <= j < i ==> v@[j] != id,
        decreases v@.len() - i,
    {
        if v[i] == id {
            proof {
                lemma_first_index(v@, id, i as int);
            }
            return Some(i);
        }
        i = i + 1;
    }
    None
}

/// An occurrence of `val` with none before it is the first one.
pub(crate) proof fn lemma_first_index(s: Seq<Id>, val: Id, i: int)
    requires
        0 <= i < s.len(),
        s[i] == val,
        forall|j: int| 0 <= j < i ==> s[j] != val,
    ensures
        s.index_of_first(val) == Some(i),
        s.remove_value(val) == s.remove(i),
{
    s.index_of_first_ensures(val);
    assert(s.contains(val));
}

/// Removing a value from a sequence without duplicates removes exactly that
/// value, and leaves no duplicates.
pub(crate) proof fn lemma_remove_value_no_duplicates(s: Seq<Id>, val: Id)
    requires
        s.no_duplicates(),
    ensures
        s.remove_value(val).no_duplicates(),
        forall|x: Id| #[trigger] s.remove_value(val).contains(x) <==> (s.contains(x) && x != val),
        !s.contains(val) ==> s.remove_value(val) == s,
        s.contains(val) ==> s.remove_value(val).len() == s.len() - 1,
{
    s.index_of_first_ensures(val);
    match s.index_of_first(val) {
        Some(i) => {
            let r = s.remove(i);
            s.remove_ensures(i);
            assert forall|x: Id| #[trigger] r.contains(x) <==> (s.contains(x) && x != val) by {
                if r.contains(x) {
                    let k = choose|k: int| 0 <= k < r.len() && r[k] == x;
                    if k < i {
                        assert(s[k] == x);
                    } else {
                        assert(s[k + 1] == x);
                    }
                }
                if s.contains(x) && x != val {
                    let k = choose|k: int| 0 <= k < s.len() && s[k] == x;
                    if k < i {
                        assert(r[k] == x);
                    } else {
                        assert(k != i);
                        assert(r[k - 1] == x);
                    }
                }
            }
        },
        None => {},
    }
}

/// Relies on rand::random, which draws a value from the thread-local
/// generator; nothing is known of the value drawn.
pub assume_specification<T>[ rand::random::<T> ]() -> (r: T)
    where
        rand::distributions::Standard: rand::distributions::Distribution<T>,
;

/// The id `k` places after `start`, counting round from the largest id to 0.
pub open spec fn id_after(start: Id, k: int) -> Id {
    ((start as int + k) % 0x1_0000) as Id
}

/// How many places after `start` the id `id` comes.
pub open spec fn distance(start: Id, id: Id) -> int {
    (id as int - start as int + 0x1_0000) % 0x1_0000
}

/// The first id at or after `candidate`, counting round, that `taken` does
/// not hold; `None` when it holds every id.
pub fn fresh_id(candidate: Id, taken: &Vec<Id>) -> (r: Option<Id>)
    ensures
        match r {
            Some(id) => {
                &&& !taken@.contains(id)
                &&& forall|k: int|
                    0 <= k < distance(candidate, id) ==> taken@.contains(#[trigger] id_after(candidate, k))
            },
            None => forall|x: Id| #[trigger] taken@.contains(x),
        },
{
    let mut in_use: HashSet<Id> = HashSet::new();
    let mut i: usize = 0;
    while i < taken.len()
        invariant
            i <= taken@.len(),
            forall|x: Id| #[trigger] in_use@.contains(x) <==> exists|j: int| 0 <= j < i && taken@[j] == x,
        decreases taken@.len() - i,
    {
        in_use.insert(taken[i]);
        i = i + 1;
        assert forall|x: Id| #[trigger] in_use@.contains(x) implies exists|j: int|
            0 <= j < i && taken@[j] == x by {
            if x == taken@[i - 1] {
                assert(taken@[i - 1] == x);
            }
        }
    }
    let mut k: u32 = 0;
    while k < 0x1_0000
        invariant
            k <= 0x1_0000,
            forall|x: Id| #[trigger] in_use@.contains(x) <==> taken@.contains(x),
            forall|j: int| 0 <= j < k ==> taken@.contains(#[trigger] id_after(candidate, j)),
        decreases 0x1_0000 - k,
    {
        let c: Id = ((candidate as u32 + k) % 0x1_0000) as Id;
        assert(c == id_after(candidate, k as int));
        if !in_use.contains(&c) {
            assert(distance(candidate, c) == k as int);
            return Some(c);
        }
        k = k + 1;
    }
    assert forall|x: Id| #[trigger] taken@.contains(x) by {
        let j = distance(candidate, x);
        assert(id_after(candidate, j) == x);
    }
    None
}

/// A new id for a body: a random draw, moved on to the first id that `taken`
/// does not hold. `None` when `taken` holds every id.
pub fn new_body_id(taken: &Vec<Id>) -> (r: Option<Id>)
    ensures
        match r {
            Some(id) => !taken@.contains(id),
            None => forall|x: Id| #[trigger] taken@.contains(x),
        },
{
    let candidate: Id = rand::random();
    fresh_id(candidate, taken)
}

} // verus!
