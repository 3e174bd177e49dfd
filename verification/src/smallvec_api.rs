//! The parts of `smallvec` that access descriptors rely on, with the
//! contracts assumed of them. Nothing in this file is proved.
use vstd::prelude::*;
use smallvec::SmallVec;

verus! {

/// A short list of `(type key, exclusive)` pairs, kept in a
/// `smallvec::SmallVec` with room for three of them inline.
#[verifier::external_body]
pub struct AccessList {
    inner: SmallVec<[(usize, bool); 3]>,
}

/// The items that an access list holds, first to last.
pub uninterp spec fn access_items(v: AccessList) -> Seq<(usize, bool)>;

/// The longest access list that the library builds. Up to this length the
/// list's buffer stays far below the size at which growing it would panic.
pub const ACCESS_LIST_LIMIT: usize = 0x100_0000;

/// `SmallVec::new`: the new list holds nothing.
#[verifier::external_body]
pub(crate) fn access_new() -> (created: AccessList)
    ensures
        access_items(created).len() == 0,
{
    AccessList { inner: SmallVec::new() }
}

/// `SmallVec::len`.
#[verifier::external_body]
pub(crate) fn access_len(v: &AccessList) -> (n: usize)
    ensures
        n == access_items(*v).len(),
{
    v.inner.len()
}

/// Indexing a `SmallVec`: the item at `index`. The index must be in bounds,
/// or the call panics.
#[verifier::external_body]
pub(crate) fn access_get(v: &AccessList, index: usize) -> (item: (usize, bool))
    requires
        index < access_items(*v).len(),
    ensures
        item == access_items(*v)[index as int],
{
    v.inner[index]
}

/// `SmallVec::insert`: puts `item` at `index` and shifts the items from
/// there on one place to the right. The call panics where `index` is past
/// the end, and where the buffer cannot grow.
#[verifier::external_body]
pub(crate) fn access_insert(v: &mut AccessList, index: usize, item: (usize, bool))
    requires
        index <= access_items(*old(v)).len(),
        access_items(*old(v)).len() < ACCESS_LIST_LIMIT,
    ensures
        access_items(*final(v)) == access_items(*old(v)).insert(index as int, item),
{
    v.inner.insert(index, item)
}

} // verus!
