//! Planning a new item: create it in the planned store, then best-effort
//! register its ID in the live-ID pool. The store insert is authoritative; a
//! failure to register the ID is swallowed.

use vstd::prelude::*;

use crate::store::MemoryPool;
use crate::trie::TriePool;
use crate::usecase::add;
use crate::usecase::add_id;

verus! {

pub type Request = add::Request;

pub type Response = add::Response;

pub type PlanError = add::AddItemError;

/// Creates the item in the planned store and registers the new ID.
pub fn execute(planned: &mut MemoryPool, ids: &mut TriePool, request: Request) -> (r: Result<
    Response,
    PlanError,
>)
    requires
        old(planned).wf(),
        old(ids).wf(),
        old(ids).size() < usize::MAX,
        request.tags.wf(),
    ensures
        final(planned).wf(),
        final(ids).wf(),
        add::add_outcome(
            old(planned)@,
            request.title@,
            request.description@,
            request.deadline,
            request.tags@,
            request.priority as int,
            final(planned)@,
            r,
        ),
        r matches Ok(resp) ==> (forall|m: u64|
            final(ids).has(m) <==> (old(ids).has(m) || m == resp.id)),
        r is Err ==> (forall|m: u64| final(ids).has(m) == old(ids).has(m)) && final(ids).size()
            == old(ids).size(),
{
    let response = match add::execute(planned, request) {
        Ok(resp) => resp,
        Err(e) => {
            return Err(e);
        },
    };
    let _ = add_id::execute(ids, add_id::Request { id: response.id });
    Ok(response)
}

} // verus!
