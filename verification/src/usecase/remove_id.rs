//! Retiring an ID from the live-ID pool.

use vstd::prelude::*;

use crate::trie::TriePool;

verus! {

/// Which ID to retire.
#[derive(Debug, PartialEq, Eq)]
pub struct Request {
    pub id: u64,
}

/// Failure of [`execute`]: the ID is not live.
#[derive(Debug, PartialEq, Eq)]
pub enum RemoveIdError {
    NotFound,
}

/// Retires the ID; retiring an ID that is not live reports not-found.
pub fn execute(pool: &mut TriePool, request: Request) -> (r: Result<(), RemoveIdError>)
    requires
        old(pool).wf(),
    ensures
        final(pool).wf(),
        r == (if old(pool).has(request.id) {
            Ok::<(), RemoveIdError>(())
        } else {
            Err::<(), RemoveIdError>(RemoveIdError::NotFound)
        }),
        forall|m: u64| final(pool).has(m) <==> (old(pool).has(m) && m != request.id),
        final(pool).size() + (if old(pool).has(request.id) {
            1nat
        } else {
            0nat
        }) == old(pool).size(),
{
    if pool.remove(request.id) {
        Ok(())
    } else {
        Err(RemoveIdError::NotFound)
    }
}

} // verus!
