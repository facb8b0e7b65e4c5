//! Laws of the coordinated aggregate: the ID discipline that planning and
//! transferring preserve, and the visibility guarantee of a transfer.

use vstd::prelude::*;

use crate::item::ItemView;
use crate::repository::Data;

verus! {

/// Planning keeps the aggregate ID discipline: when an item enters the
/// planned store and its ID is registered in the pool — the effect
/// [`crate::usecase::plan::execute`] ensures on success — every planned ID
/// is still live afterwards.
pub proof fn lemma_plan_preserves_ids_linked(pre: Data, post: Data, id: u64, iv: ItemView)
    requires
        pre.ids_linked(),
        post.planned@ == pre.planned@.insert(id, iv),
        forall|m: u64| post.ids.has(m) <==> (pre.ids.has(m) || m == id),
    ensures
        post.ids_linked(),
{
    assert forall|id2: u64| #[trigger] post.planned@.dom().contains(id2) implies post.ids.has(
        id2,
    ) by {
        if id2 != id {
            assert(pre.planned@.dom().contains(id2));
        }
    }
}

/// Transfer keeps the aggregate ID discipline: when an item leaves the
/// planned store and its ID is retired from the pool — the effect
/// [`crate::usecase::transfer::execute`] ensures on success — every planned
/// ID is still live afterwards.
pub proof fn lemma_transfer_preserves_ids_linked(pre: Data, post: Data, id: u64)
    requires
        pre.ids_linked(),
        post.planned@ == pre.planned@.remove(id),
        forall|m: u64| post.ids.has(m) <==> (pre.ids.has(m) && m != id),
    ensures
        post.ids_linked(),
{
    assert forall|id2: u64| #[trigger] post.planned@.dom().contains(id2) implies post.ids.has(
        id2,
    ) by {
        assert(pre.planned@.dom().contains(id2));
    }
}

/// Visibility of a transfer: after the source-side removal and the
/// best-effort destination insert that [`crate::usecase::transfer::execute`]
/// ensures, the moved ID is visible in the destination and no longer in the
/// source, and no other ID changes its presence in either store. Because
/// the whole sequence runs while the coordinator's lock is held, no other
/// caller ever observes the item in both stores or in neither.
pub proof fn lemma_transfer_visibility(
    src_pre: Map<u64, ItemView>,
    src_post: Map<u64, ItemView>,
    dst_pre: Map<u64, ItemView>,
    dst_post: Map<u64, ItemView>,
    id: u64,
)
    requires
        src_pre.dom().contains(id),
        src_post == src_pre.remove(id),
        dst_post == (if dst_pre.dom().contains(id) {
            dst_pre
        } else {
            dst_pre.insert(id, src_pre[id])
        }),
    ensures
        !src_post.dom().contains(id),
        dst_post.dom().contains(id),
        forall|x: u64|
            x != id ==> (#[trigger] src_post.dom().contains(x) == src_pre.dom().contains(x)
                && dst_post.dom().contains(x) == dst_pre.dom().contains(x)),
{
}

} // verus!
