//! Creating an item inside a store.

use vstd::prelude::*;

use crate::item::{item_id_of, Item, ItemView};
use crate::priority::Priority;
use crate::store::{AddError, MemoryPool};
use crate::tag::TagSet;

verus! {

/// What to create: the item's fields, with the priority still unchecked.
#[derive(Debug, PartialEq, Eq)]
pub struct Request {
    pub title: String,
    pub description: String,
    pub deadline: i64,
    pub tags: TagSet,
    pub priority: i32,
}

/// The ID of the created item.
#[derive(Debug, PartialEq, Eq)]
pub struct Response {
    pub id: u64,
}

/// Failure of [`execute`]: malformed input, or a content-identical item
/// already present.
#[derive(Debug, PartialEq, Eq)]
pub enum AddItemError {
    Invalid,
    Conflict,
}

/// Whether a request's raw fields are acceptable: a non-empty title and a
/// priority within bounds.
pub open spec fn valid_fields(title: Seq<char>, priority: int) -> bool {
    title.len() > 0 && Priority::MIN <= priority <= Priority::MAX
}

/// The exact outcome of adding an item built from the given fields to a
/// store holding `pre`: rejected fields, a conflict on the content-derived
/// ID, or the item inserted under it.
pub open spec fn add_outcome(
    pre: Map<u64, ItemView>,
    title: Seq<char>,
    description: Seq<char>,
    deadline: i64,
    tags: Set<Seq<char>>,
    priority: int,
    post: Map<u64, ItemView>,
    r: Result<Response, AddItemError>,
) -> bool {
    let id = item_id_of(title, description, deadline);
    &&& (!valid_fields(title, priority) ==> r == Err::<Response, AddItemError>(
        AddItemError::Invalid,
    ) && post == pre)
    &&& (valid_fields(title, priority) && pre.dom().contains(id) ==> r == Err::<
        Response,
        AddItemError,
    >(AddItemError::Conflict) && post == pre)
    &&& (valid_fields(title, priority) && !pre.dom().contains(id) ==> r == Ok::<
        Response,
        AddItemError,
    >(Response { id }) && post == pre.insert(
        id,
        (ItemView { id, summary: title, content: description, deadline, tags, priority }),
    ))
}

/// Validates the request, builds the item and adds it to the store.
pub fn execute(pool: &mut MemoryPool, request: Request) -> (r: Result<Response, AddItemError>)
    requires
        old(pool).wf(),
        request.tags.wf(),
    ensures
        final(pool).wf(),
        add_outcome(
            old(pool)@,
            request.title@,
            request.description@,
            request.deadline,
            request.tags@,
            request.priority as int,
            final(pool)@,
            r,
        ),
{
    if request.title.as_str().is_empty() {
        return Err(AddItemError::Invalid);
    }
    let priority = match Priority::try_from(request.priority) {
        Ok(p) => p,
        Err(_) => {
            return Err(AddItemError::Invalid);
        },
    };
    let item = Item::new(
        request.title.as_str(),
        request.description.as_str(),
        request.deadline,
        request.tags,
        priority,
    );
    match pool.add(item) {
        Ok(id) => Ok(Response { id }),
        Err(AddError::Conflict) => Err(AddItemError::Conflict),
    }
}

} // verus!
