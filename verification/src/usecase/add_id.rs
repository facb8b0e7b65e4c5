//! Registering an ID in the live-ID pool.

use vstd::prelude::*;

use crate::trie::TriePool;

verus! {

/// Which ID to register.
#[derive(Debug, PartialEq, Eq)]
pub struct Request {
    pub id: u64,
}

/// Failure of [`execute`]: the ID is already live.
#[derive(Debug, PartialEq, Eq)]
pub enum AddIdError {
    Conflict,
}

/// Registers the ID; a second registration of a live ID is a conflict.
pub fn execute(pool: &mut TriePool, request: Request) -> (r: Result<(), AddIdError>)
    requires
        old(pool).wf(),
        old(pool).size() < usize::MAX,
    ensures
        final(pool).wf(),
        r == (if old(pool).has(request.id) {
            Err::<(), AddIdError>(AddIdError::Conflict)
        } else {
            Ok::<(), AddIdError>(())
        }),
        forall|m: u64| final(pool).has(m) <==> (old(pool).has(m) || m == request.id),
        final(pool).size() == old(pool).size() + (if old(pool).has(request.id) {
            0nat
        } else {
            1nat
        }),
{
    if pool.add(request.id) {
        Ok(())
    } else {
        Err(AddIdError::Conflict)
    }
}

} // verus!
