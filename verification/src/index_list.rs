//! A short list of triple positions, held in a `SmallVec` so that the common
//! case of a handful of positions needs no allocation.

use vstd::prelude::*;
use smallvec::SmallVec;

verus! {

/// A list of positions, stored inline up to eight entries.
#[verifier::external_body]
pub struct IndexList {
    items: SmallVec<[usize; 8]>,
}

/// The positions that an index list holds, in order.
pub uninterp spec fn index_list_contents(l: IndexList) -> Seq<usize>;

/// `SmallVec::new`: an empty list.
#[verifier::external_body]
pub fn index_list_new() -> (r: IndexList)
    ensures
        index_list_contents(r) == Seq::<usize>::empty(),
{
    IndexList { items: SmallVec::new() }
}

/// `SmallVec::push`: appends one position at the end.
#[verifier::external_body]
pub fn index_list_push(l: &mut IndexList, x: usize)
    ensures
        index_list_contents(*final(l)) == index_list_contents(*old(l)).push(x),
{
    l.items.push(x)
}

/// `SmallVec::as_slice`: the positions as a slice.
#[verifier::external_body]
pub fn index_list_as_slice(l: &IndexList) -> (r: &[usize])
    ensures
        r@ == index_list_contents(*l),
{
    l.items.as_slice()
}

/// `SmallVec::clone`: a list with the same positions.
#[verifier::external_body]
pub fn index_list_clone(l: &IndexList) -> (r: IndexList)
    ensures
        index_list_contents(r) == index_list_contents(*l),
{
    IndexList { items: l.items.clone() }
}

} // verus!
