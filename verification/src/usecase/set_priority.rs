//! Overwriting the priority of one item.

use vstd::prelude::*;

use crate::item::ItemView;
use crate::priority::Priority;
use crate::store::{MemoryPool, SetPriorityError as StoreSetPriorityError};

verus! {

/// Which item, and the raw priority to set.
#[derive(Debug, PartialEq, Eq)]
pub struct Request {
    pub id: u64,
    pub priority: i32,
}

/// Failure of [`execute`]: an out-of-range priority, or no such item.
#[derive(Debug, PartialEq, Eq)]
pub enum SetPriorityError {
    Invalid,
    NotFound,
}

/// Validates the priority and overwrites the item's.
pub fn execute(pool: &mut MemoryPool, request: Request) -> (r: Result<(), SetPriorityError>)
    requires
        old(pool).wf(),
    ensures
        final(pool).wf(),
        !(Priority::MIN <= request.priority <= Priority::MAX) ==> r == Err::<(), SetPriorityError>(
            SetPriorityError::Invalid,
        ) && final(pool)@ == old(pool)@,
        Priority::MIN <= request.priority <= Priority::MAX && !old(pool)@.dom().contains(request.id)
            ==> r == Err::<(), SetPriorityError>(SetPriorityError::NotFound) && final(pool)@ == old(
            pool,
        )@,
        Priority::MIN <= request.priority <= Priority::MAX && old(pool)@.dom().contains(request.id)
            ==> r == Ok::<(), SetPriorityError>(()) && final(pool)@ == old(pool)@.insert(
            request.id,
            (ItemView { priority: request.priority as int, ..old(pool)@[request.id] }),
        ),
{
    let priority = match Priority::try_from(request.priority) {
        Ok(p) => p,
        Err(_) => {
            return Err(SetPriorityError::Invalid);
        },
    };
    match pool.set_priority(request.id, priority) {
        Ok(()) => Ok(()),
        Err(StoreSetPriorityError::NotFound) => Err(SetPriorityError::NotFound),
    }
}

} // verus!
