//! Detaching a batch of tags from one item.

use vstd::prelude::*;

use crate::item::ItemView;
use crate::store::{MemoryPool, RemoveTagError as StoreRemoveTagError};
use crate::tag::TagSet;

verus! {

/// Which item, and which tags to detach.
#[derive(Debug, PartialEq, Eq)]
pub struct Request {
    pub id: u64,
    pub tags: TagSet,
}

/// Failure of [`execute`]: no such item, or some tag was not attached.
#[derive(Debug, PartialEq, Eq)]
pub enum RemoveTagError {
    ItemNotFound,
    TagNotFound,
}

/// Detaches every requested tag from the item; reports a missing tag when
/// any was already absent, with the present tags removed even then.
pub fn execute(pool: &mut MemoryPool, request: Request) -> (r: Result<(), RemoveTagError>)
    requires
        old(pool).wf(),
        request.tags.wf(),
    ensures
        final(pool).wf(),
        !old(pool)@.dom().contains(request.id) ==> r == Err::<(), RemoveTagError>(
            RemoveTagError::ItemNotFound,
        ) && final(pool)@ == old(pool)@,
        old(pool)@.dom().contains(request.id) ==> final(pool)@ == old(pool)@.insert(
            request.id,
            (ItemView {
                tags: old(pool)@[request.id].tags.difference(request.tags@),
                ..old(pool)@[request.id]
            }),
        ) && r == (if request.tags@.subset_of(old(pool)@[request.id].tags) {
            Ok::<(), RemoveTagError>(())
        } else {
            Err::<(), RemoveTagError>(RemoveTagError::TagNotFound)
        }),
{
    match pool.remove_tag(request.id, request.tags) {
        Ok(()) => Ok(()),
        Err(StoreRemoveTagError::ItemNotFound) => Err(RemoveTagError::ItemNotFound),
        Err(StoreRemoveTagError::TagNotFound) => Err(RemoveTagError::TagNotFound),
    }
}

} // verus!
