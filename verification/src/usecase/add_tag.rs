//! Attaching a batch of tags to one item.

use vstd::prelude::*;

use crate::item::ItemView;
use crate::store::{AddTagError as StoreAddTagError, MemoryPool};
use crate::tag::TagSet;

verus! {

/// Which item, and which tags to attach.
#[derive(Debug, PartialEq, Eq)]
pub struct Request {
    pub id: u64,
    pub tags: TagSet,
}

/// Failure of [`execute`]: no such item, or some tag already attached.
#[derive(Debug, PartialEq, Eq)]
pub enum AddTagError {
    NotFound,
    Conflict,
}

/// Attaches every requested tag to the item; reports a conflict when any
/// tag was already attached, with the new tags applied even then.
pub fn execute(pool: &mut MemoryPool, request: Request) -> (r: Result<(), AddTagError>)
    requires
        old(pool).wf(),
        request.tags.wf(),
    ensures
        final(pool).wf(),
        !old(pool)@.dom().contains(request.id) ==> r == Err::<(), AddTagError>(
            AddTagError::NotFound,
        ) && final(pool)@ == old(pool)@,
        old(pool)@.dom().contains(request.id) ==> final(pool)@ == old(pool)@.insert(
            request.id,
            (ItemView {
                tags: old(pool)@[request.id].tags.union(request.tags@),
                ..old(pool)@[request.id]
            }),
        ) && r == (if old(pool)@[request.id].tags.disjoint(request.tags@) {
            Ok::<(), AddTagError>(())
        } else {
            Err::<(), AddTagError>(AddTagError::Conflict)
        }),
{
    match pool.add_tag(request.id, request.tags) {
        Ok(()) => Ok(()),
        Err(StoreAddTagError::Conflict) => Err(AddTagError::Conflict),
        Err(StoreAddTagError::NotFound) => Err(AddTagError::NotFound),
    }
}

} // verus!
