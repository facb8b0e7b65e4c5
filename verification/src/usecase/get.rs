//! Reading one item out of a store by ID.

use vstd::prelude::*;

use crate::priority::Priority;
use crate::store::{GetError, MemoryPool};
use crate::tag::TagSet;

verus! {

/// Which item to read.
#[derive(Debug, PartialEq, Eq)]
pub struct Request {
    pub id: u64,
}

/// A copy of the item's fields.
#[derive(Debug, Clone, PartialEq, Eq)]
pub struct Response {
    pub id: u64,
    pub title: String,
    pub description: String,
    pub deadline: i64,
    pub tags: TagSet,
    pub priority: Priority,
}

/// Failure of [`execute`]: no item under that ID.
#[derive(Debug, PartialEq, Eq)]
pub enum GetItemError {
    NotFound,
}

/// Returns a copy of the item under the requested ID. Read-only and
/// repeatable.
pub fn execute(pool: &MemoryPool, request: Request) -> (r: Result<Response, GetItemError>)
    requires
        pool.wf(),
    ensures
        (!pool@.dom().contains(request.id)) <==> r == Err::<Response, GetItemError>(
            GetItemError::NotFound,
        ),
        r matches Ok(resp) ==> ({
            let iv = pool@[request.id];
            &&& resp.id == iv.id
            &&& resp.title@ == iv.summary
            &&& resp.description@ == iv.content
            &&& resp.deadline == iv.deadline
            &&& resp.tags@ == iv.tags
            &&& resp.priority.spec_value() as int == iv.priority
        }),
{
    match pool.get(request.id) {
        Ok(item) => Ok(
            Response {
                id: item.id(),
                title: item.summary().to_owned(),
                description: item.content().to_owned(),
                deadline: item.deadline(),
                tags: item.tags().clone(),
                priority: item.priority(),
            },
        ),
        Err(GetError::NotFound) => Err(GetItemError::NotFound),
    }
}

} // verus!
