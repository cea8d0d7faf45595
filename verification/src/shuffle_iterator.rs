//! A consuming iterator that yields the elements of a collection in a random
//! order.

use vstd::prelude::*;
use std::collections::VecDeque;
use crate::rng::Rng;

verus! {

/// Swaps the elements at `i` and `j` (`VecDeque::swap`).
#[verifier::external_body]
fn deque_swap<T>(v: &mut VecDeque<T>, i: usize, j: usize)
    requires
        i < old(v)@.len(),
        j < old(v)@.len(),
    ensures
        final(v)@ == old(v)@.update(i as int, old(v)@[j as int]).update(j as int, old(v)@[i as int]),
{
    v.swap(i, j)
}

/// The elements left after the one at `k` is taken: the first element moves
/// into its place and the rest keep their order.
pub open spec fn after_taking<T>(s: Seq<T>, k: int) -> Seq<T> {
    s.update(k, s[0]).subrange(1, s.len() as int)
}

/// A consuming iterator that shuffles a collection of elements.
#[derive(Debug)]
pub struct ShuffledOwned<T> {
    remaining: VecDeque<T>,
}

impl<T> View for ShuffledOwned<T> {
    type V = Seq<T>;

    /// The elements not yet taken.
    closed spec fn view(&self) -> Seq<T> {
        self.remaining@
    }
}

impl<T> ShuffledOwned<T> {
    /// An iterator over `items`.
    pub fn new(items: VecDeque<T>) -> (r: Self)
        ensures
            r@ == items@,
    {
        ShuffledOwned { remaining: items }
    }

    /// Takes the element at index `k` of the remaining ones, moving the first
    /// one into its place; `None` when nothing remains.
    pub fn take_at(&mut self, k: usize) -> (r: Option<T>)
        requires
            old(self)@.len() > 0 ==> k < old(self)@.len(),
        ensures
            old(self)@.len() == 0 ==> r is None && final(self)@ == old(self)@,
            old(self)@.len() > 0 ==> r == Some(old(self)@[k as int]) && final(self)@ == after_taking(
                old(self)@,
                k as int,
            ),
    {
        if self.remaining.len() == 0 {
            return None;
        }
        deque_swap(&mut self.remaining, 0, k);
        self.remaining.pop_front()
    }

    /// Takes a random one of the remaining elements, or `None` when nothing
    /// remains: the generator draws an index below the number of remaining
    /// elements, and the element there is taken.
    pub fn next<R: Rng>(&mut self, rng: &mut R) -> (r: Option<T>)
        requires
            old(self)@.len() <= i64::MAX,
        ensures
            old(self)@.len() == 0 ==> r is None && final(self)@ == old(self)@ && *final(rng) == *old(rng),
            old(self)@.len() > 0 ==> {
                let k = old(rng).draw(old(self)@.len() as i64) as int;
                &&& 0 <= k < old(self)@.len()
                &&& r == Some(old(self)@[k])
                &&& final(self)@ == after_taking(old(self)@, k)
                &&& *final(rng) == old(rng).after_draw(old(self)@.len() as i64)
            },
    {
        if self.remaining.len() == 0 {
            return None;
        }
        let next = rng.next_int(self.remaining.len() as i64) as usize;
        self.take_at(next)
    }
}

/// Taking an element keeps every other element: the remaining ones and the
/// one taken together are the elements there were before.
pub proof fn lemma_take_keeps_elements<T>(s: Seq<T>, k: int)
    requires
        0 <= k < s.len(),
    ensures
        after_taking(s, k).to_multiset().insert(s[k]) == s.to_multiset(),
{
    broadcast use vstd::multiset::group_multiset_axioms, vstd::multiset::group_multiset_properties;

    // the iterator swaps the first element with the one at `k`, then drops
    // the first
    let s1 = s.update(k, s[0]);
    let swapped = s1.update(0, s[k]);
    vstd::seq_lib::to_multiset_update(s, k, s[0]);
    vstd::seq_lib::to_multiset_update(s1, 0, s[k]);
    vstd::seq_lib::to_multiset_contains(s, s[k]);
    vstd::seq_lib::to_multiset_contains(s, s[0]);
    assert(s.contains(s[k]));
    assert(s.contains(s[0]));
    assert(swapped.to_multiset() =~= s.to_multiset());
    assert(swapped.remove(0) =~= after_taking(s, k));
    vstd::seq_lib::to_multiset_remove(swapped, 0);
    assert(after_taking(s, k).to_multiset().insert(s[k]) =~= s.to_multiset());
}

} // verus!
