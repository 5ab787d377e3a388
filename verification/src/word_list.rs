//! Lists of word indices, kept in a small vector that stays on the stack
//! while it is short.

use smallvec::SmallVec;
use vstd::prelude::*;

verus! {

/// Number of indices that a list holds without allocating.
pub const SMALLVEC_MAX: usize = 4;

/// A list of word indices, held in a `smallvec::SmallVec` with room for
/// `SMALLVEC_MAX` indices on the stack. What it holds is known only as
/// `list_items` names it.
#[verifier::external_body]
pub struct WordList {
    inner: SmallVec<[u16; SMALLVEC_MAX]>,
}

/// The indices that the `SmallVec` of a list holds, in order.
pub uninterp spec fn list_items(list: WordList) -> Seq<u16>;

impl View for WordList {
    type V = Seq<u16>;

    /// The indices of the list, in order.
    open spec fn view(&self) -> Seq<u16> {
        list_items(*self)
    }
}

/// `smallvec::SmallVec::new`: the new vector holds nothing.
#[verifier::external_body]
pub(crate) fn list_new() -> (list: WordList)
    ensures
        list_items(list) == Seq::<u16>::empty(),
{
    WordList { inner: SmallVec::new() }
}

/// `smallvec::SmallVec::push`: the item is appended, the others stay as they
/// are.
#[verifier::external_body]
pub(crate) fn list_push(list: &mut WordList, index: u16)
    ensures
        list_items(*final(list)) == list_items(*old(list)).push(index),
{
    list.inner.push(index)
}

/// `smallvec::SmallVec::len`: the number of items held.
#[verifier::external_body]
pub(crate) fn list_len(list: &WordList) -> (n: usize)
    ensures
        n == list_items(*list).len(),
{
    list.inner.len()
}

/// `smallvec::SmallVec::index`: below the length, the item at that place.
#[verifier::external_body]
pub(crate) fn list_get(list: &WordList, i: usize) -> (index: u16)
    requires
        i < list_items(*list).len(),
    ensures
        index == list_items(*list)[i as int],
{
    list.inner[i]
}

impl WordList {
    /// The list of the indices of a vector, in the same order.
    pub fn from_vec(indices: &Vec<u16>) -> (list: WordList)
        ensures
            list@ == indices@,
    {
        let mut list = list_new();
        let mut i: usize = 0;
        while i < indices.len()
            invariant
                i <= indices.len(),
                list@ == indices@.take(i as int),
            decreases indices.len() - i,
        {
            list_push(&mut list, indices[i]);
            assert(indices@.take(i as int).push(indices@[i as int]) =~= indices@.take(i as int + 1));
            i += 1;
        }
        assert(indices@.take(indices.len() as int) =~= indices@);
        list
    }
}

} // verus!
