//! The record of serialized board keys already generated during one search
//! run. Membership is exact equality of whole keys, and the store is
//! append-only for the run.

use crate::grid::gview;
use vstd::prelude::*;

verus! {

/// The keys recorded so far, in insertion order.
pub struct VisitedStore {
    keys: Vec<Vec<i32>>,
}

impl View for VisitedStore {
    type V = Seq<Seq<i32>>;

    closed spec fn view(&self) -> Seq<Seq<i32>> {
        gview(self.keys)
    }
}

/// Compares two keys cell by cell.
fn keys_equal(a: &Vec<i32>, b: &Vec<i32>) -> (r: bool)
    ensures
        r == (a@ == b@),
{
    if a.len() != b.len() {
        return false;
    }
    let mut i: usize = 0;
    while i < a.len()
        invariant
            i <= a.len(),
            a@.len() == b@.len(),
            forall|j: int| 0 <= j < i ==> a@[j] == b@[j],
        decreases a.len() - i,
    {
        if a[i] != b[i] {
            return false;
        }
        i += 1;
    }
    assert(a@ =~= b@);
    true
}

impl VisitedStore {
    /// An empty store: a fresh search run has seen no state.
    pub fn new() -> (s: Self)
        ensures
            s@ == Seq::<Seq<i32>>::empty(),
    {
        VisitedStore { keys: Vec::new() }
    }

    /// Number of keys recorded.
    pub fn len(&self) -> (n: usize)
        ensures
            n == self@.len(),
    {
        self.keys.len()
    }

    /// Exact-match membership: the key equals one recorded earlier.
    pub fn contains(&self, key: &Vec<i32>) -> (r: bool)
        ensures
            r == self@.contains(key@),
    {
        let mut i: usize = 0;
        while i < self.keys.len()
            invariant
                i <= self.keys.len(),
                forall|j: int| 0 <= j < i ==> self@[j] != key@,
            decreases self.keys.len() - i,
        {
            if keys_equal(&self.keys[i], key) {
                assert(self@[i as int] == key@);
                return true;
            }
            i += 1;
        }
        assert(forall|j: int| 0 <= j < self@.len() ==> self@[j] != key@);
        false
    }

    /// Records one more key.
    pub fn insert(&mut self, key: Vec<i32>)
        ensures
            final(self)@ == old(self)@.push(key@),
    {
        self.keys.push(key);
        assert(self@ =~= old(self)@.push(key@));
    }
}

} // verus!
