//! Moving an item between stores while retiring its ID from the pool.
//!
//! The removal from the source store is authoritative. Retiring the ID and
//! re-adding the rebuilt item into the destination are best-effort: the ID
//! may legitimately no longer be live, and a content collision in the
//! destination is swallowed. The whole sequence runs under the
//! coordinator's lock, so other callers never observe the intermediate
//! states.

use vstd::prelude::*;

use crate::item::Item;
use crate::store::MemoryPool;
use crate::trie::TriePool;
use crate::usecase::remove;

verus! {

pub type Request = remove::Request;

pub type TransferError = remove::RemoveItemError;

/// Moves the item under the requested ID from `source` to `destination`,
/// retiring the ID. After a successful transfer the item is visible in the
/// destination store and no longer in the source store.
pub fn execute(
    source: &mut MemoryPool,
    destination: &mut MemoryPool,
    ids: &mut TriePool,
    request: Request,
) -> (r: Result<(), TransferError>)
    requires
        old(source).wf(),
        old(destination).wf(),
        old(ids).wf(),
    ensures
        final(source).wf(),
        final(destination).wf(),
        final(ids).wf(),
        !old(source)@.dom().contains(request.id) ==> ({
            &&& r == Err::<(), TransferError>(TransferError::NotFound)
            &&& final(source)@ == old(source)@
            &&& final(destination)@ == old(destination)@
            &&& (forall|m: u64| final(ids).has(m) == old(ids).has(m))
        }),
        old(source)@.dom().contains(request.id) ==> ({
            &&& r == Ok::<(), TransferError>(())
            &&& final(source)@ == old(source)@.remove(request.id)
            &&& (forall|m: u64| final(ids).has(m) <==> (old(ids).has(m) && m != request.id))
            &&& final(destination)@ == (if old(destination)@.dom().contains(request.id) {
                old(destination)@
            } else {
                old(destination)@.insert(request.id, old(source)@[request.id])
            })
            &&& !final(source)@.dom().contains(request.id)
            &&& final(destination)@.dom().contains(request.id)
        }),
{
    proof {
        crate::store::lemma_wf_keys(*old(source));
    }
    let item = match source.remove(request.id) {
        Ok(item) => item,
        Err(_) => {
            return Err(TransferError::NotFound);
        },
    };
    let _ = ids.remove(request.id);
    let rebuilt = Item::new(
        item.summary(),
        item.content(),
        item.deadline(),
        item.tags().clone(),
        item.priority(),
    );
    proof {
        assert(rebuilt@ == item@);
        assert(item@.id == request.id);
    }
    let _ = destination.add(rebuilt);
    Ok(())
}

} // verus!
