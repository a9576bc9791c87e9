//! Copies of lists, as the contracts of this crate speak of them.
use vstd::prelude::*;

verus! {

/// A copy of a list of texts.
pub(crate) fn copy_texts(list: &Vec<String>) -> (r: Vec<String>)
    ensures
        r.deep_view() == list.deep_view(),
{
    let r = list.clone();
    assert(r@ =~= list@);
    r
}

/// A copy of a list of bytes.
pub(crate) fn copy_bytes(list: &Vec<u8>) -> (r: Vec<u8>)
    ensures
        r@ == list@,
{
    let r = list.clone();
    assert(r@ =~= list@);
    r
}

} // verus!
