//! Emptying a store wholesale, used for maintenance of the finished and
//! canceled stores.

use vstd::prelude::*;

use crate::item::ItemView;
use crate::store::MemoryPool;

verus! {

/// Removes every item from the store, unconditionally.
pub fn execute(pool: &mut MemoryPool)
    ensures
        final(pool).wf(),
        final(pool)@ == Map::<u64, ItemView>::empty(),
{
    pool.clear()
}

} // verus!
