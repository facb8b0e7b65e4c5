//! Listing the items of a store that pass tag and time filters.

use vstd::prelude::*;

use crate::item::Item;
use crate::store::{admits, sorted_items, MemoryPool, SelectError};
use crate::tag::TagSet;

verus! {

/// The filters: required tags and an optional closed time window
/// `[after, before]`.
#[derive(Debug, PartialEq, Eq)]
pub struct Request {
    pub tags: TagSet,
    pub before: Option<i64>,
    pub after: Option<i64>,
}

/// The matching items, in listing order.
#[derive(Debug, PartialEq, Eq)]
pub struct Response {
    pub items: Vec<Item>,
}

/// Failure of [`execute`]: an inverted time window, or no matching item.
#[derive(Debug, PartialEq, Eq)]
pub enum SelectItemError {
    Invalid,
    NotFound,
}

/// Every item whose tags include the requested tags and whose deadline lies
/// in the window, sorted by deadline ascending, then priority descending,
/// then title; an empty result is an error, not an empty success.
pub fn execute(pool: &MemoryPool, request: Request) -> (r: Result<Response, SelectItemError>)
    requires
        pool.wf(),
    ensures
        ({
            let invalid = request.before is Some && request.after is Some && request.before->0
                < request.after->0;
            let any = exists|id: u64| #[trigger] pool@.dom().contains(id) && admits(
                pool@[id],
                request.tags@,
                request.before,
                request.after,
            );
            &&& (invalid ==> r == Err::<Response, SelectItemError>(SelectItemError::Invalid))
            &&& (!invalid && !any ==> r == Err::<Response, SelectItemError>(
                SelectItemError::NotFound,
            ))
            &&& (!invalid && any ==> r is Ok && ({
                let v = r->Ok_0.items.deep_view();
                &&& (forall|iv: crate::item::ItemView| #[trigger] v.contains(iv) <==> (
                pool@.dom().contains(iv.id) && pool@[iv.id] == iv && admits(
                    iv,
                    request.tags@,
                    request.before,
                    request.after,
                )))
                &&& (forall|a: int, b: int| 0 <= a < b < v.len() ==> v[a].id != v[b].id)
                &&& sorted_items(v)
            }))
        }),
{
    match pool.select(request.tags, request.before, request.after) {
        Ok(items) => Ok(Response { items }),
        Err(SelectError::Invalid) => Err(SelectItemError::Invalid),
        Err(SelectError::NotFound) => Err(SelectItemError::NotFound),
    }
}

} // verus!
