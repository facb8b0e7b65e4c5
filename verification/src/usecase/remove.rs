//! Taking one item out of a store by ID.

use vstd::prelude::*;

use crate::priority::Priority;
use crate::store::{MemoryPool, RemoveError};
use crate::tag::TagSet;

verus! {

/// Which item to remove.
#[derive(Debug, PartialEq, Eq)]
pub struct Request {
    pub id: u64,
}

/// The removed item's fields.
#[derive(Debug, PartialEq, Eq)]
pub struct Response {
    pub id: u64,
    pub title: String,
    pub description: String,
    pub deadline: i64,
    pub tags: TagSet,
    pub priority: Priority,
}

/// Failure of [`execute`]: no item under that ID.
#[derive(Debug, PartialEq, Eq)]
pub enum RemoveItemError {
    NotFound,
}

/// Removes the item under the requested ID and hands its fields back.
pub fn execute(pool: &mut MemoryPool, request: Request) -> (r: Result<Response, RemoveItemError>)
    requires
        old(pool).wf(),
    ensures
        final(pool).wf(),
        (!old(pool)@.dom().contains(request.id)) <==> r == Err::<Response, RemoveItemError>(
            RemoveItemError::NotFound,
        ),
        r is Err ==> final(pool)@ == old(pool)@,
        r matches Ok(resp) ==> ({
            let iv = old(pool)@[request.id];
            &&& final(pool)@ == old(pool)@.remove(request.id)
            &&& resp.id == iv.id
            &&& resp.title@ == iv.summary
            &&& resp.description@ == iv.content
            &&& resp.deadline == iv.deadline
            &&& resp.tags@ == iv.tags
            &&& resp.priority.spec_value() as int == iv.priority
            &&& resp.priority.wf()
            &&& resp.tags.wf()
        }),
{
    match pool.remove(request.id) {
        Ok(item) => Ok(
            Response {
                id: item.id(),
                title: item.summary().to_owned(),
                description: item.content().to_owned(),
                deadline: item.deadline(),
                tags: item.tags().clone(),
                priority: item.priority(),
            },
        ),
        Err(RemoveError::NotFound) => Err(RemoveItemError::NotFound),
    }
}

} // verus!
