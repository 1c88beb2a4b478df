//! A fixed-capacity table of located chunks.
//!
//! The scanner records chunk descriptors in a `heapless::Vec`, a vector with
//! a compile-time capacity bound that never allocates.  The table's contents
//! are modelled by the uninterpreted view [`table_chunks`]; the wrappers
//! below state, over that view, what each `heapless::Vec` operation does.

use vstd::prelude::*;

use crate::wav::{Chunk, MAX_CHUNKS};

verus! {

#[verifier::external_type_specification]
#[verifier::external_body]
#[verifier::reject_recursive_types(T)]
pub struct ExHeaplessVec<T, const N: usize>(heapless::Vec<T, N>);

/// The chunks a table holds, in insertion order.
pub uninterp spec fn table_chunks(t: heapless::Vec<Chunk, MAX_CHUNKS>) -> Seq<Chunk>;

/// Relies on `heapless::Vec::new`: a fresh vector is empty.
#[verifier::external_body]
pub(crate) fn table_new() -> (t: heapless::Vec<Chunk, MAX_CHUNKS>)
    ensures
        table_chunks(t) == Seq::<Chunk>::empty(),
{
    heapless::Vec::new()
}

/// Relies on `heapless::Vec::push`: below capacity the item is appended and
/// the call returns `Ok`; at capacity the vector is unchanged and the item
/// comes back as the error.
#[verifier::external_body]
pub(crate) fn table_push(t: &mut heapless::Vec<Chunk, MAX_CHUNKS>, c: Chunk) -> (r: Result<(), Chunk>)
    ensures
        table_chunks(*old(t)).len() < MAX_CHUNKS ==> r is Ok && table_chunks(*final(t)) == table_chunks(*old(t)).push(c),
        table_chunks(*old(t)).len() >= MAX_CHUNKS ==> r is Err && table_chunks(*final(t)) == table_chunks(*old(t)),
{
    t.push(c)
}

/// Relies on `heapless::Vec::len` (through its slice view): the number of
/// items held.
#[verifier::external_body]
pub(crate) fn table_len(t: &heapless::Vec<Chunk, MAX_CHUNKS>) -> (r: usize)
    ensures
        r == table_chunks(*t).len(),
{
    t.len()
}

/// Relies on `heapless::Vec::as_slice`: the item at a valid index.
#[verifier::external_body]
pub(crate) fn table_get(t: &heapless::Vec<Chunk, MAX_CHUNKS>, i: usize) -> (r: Chunk)
    requires
        i < table_chunks(*t).len(),
    ensures
        r == table_chunks(*t)[i as int],
{
    t.as_slice()[i]
}

} // verus!
