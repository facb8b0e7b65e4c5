//! Bounded item priority: an integer confined to `[MIN, MAX]`.

use vstd::prelude::*;

verus! {

/// How urgent an item is. Valid values lie in `[Priority::MIN, Priority::MAX]`;
/// construction from an out-of-range integer fails.
#[derive(Clone, Copy, Debug, PartialEq, Eq, Hash)]
pub struct Priority(i32);

impl Priority {
    pub const MIN: i32 = -3;

    pub const MAX: i32 = 3;

    /// Validity: the wrapped value stays inside the bounds.
    pub open spec fn wf(self) -> bool {
        Priority::MIN <= self.spec_value() <= Priority::MAX
    }

    /// The wrapped value, for contracts.
    pub closed spec fn spec_value(self) -> i32 {
        self.0
    }

    /// Builds a priority from a raw integer, rejecting out-of-range input.
    pub fn try_from(value: i32) -> (r: Result<Priority, ()>)
        ensures
            r is Ok <==> Priority::MIN <= value <= Priority::MAX,
            r is Ok ==> r->Ok_0.wf() && r->Ok_0.spec_value() == value,
    {
        if Priority::MIN <= value && value <= Priority::MAX {
            Ok(Priority(value))
        } else {
            Err(())
        }
    }

    /// Raises the priority by one, saturating at the upper bound.
    pub fn upgrade(&mut self)
        requires
            old(self).wf(),
        ensures
            final(self).wf(),
            final(self).spec_value() == if old(self).spec_value() == Priority::MAX {
                Priority::MAX as int
            } else {
                old(self).spec_value() + 1
            },
    {
        if self.0 < Priority::MAX {
            self.0 = self.0 + 1;
        }
    }

    /// Lowers the priority by one, saturating at the lower bound.
    pub fn downgrade(&mut self)
        requires
            old(self).wf(),
        ensures
            final(self).wf(),
            final(self).spec_value() == if old(self).spec_value() == Priority::MIN {
                Priority::MIN as int
            } else {
                old(self).spec_value() - 1
            },
    {
        if self.0 > Priority::MIN {
            self.0 = self.0 - 1;
        }
    }

    /// The raw integer value.
    pub fn value(&self) -> (v: i32)
        ensures
            v == self.spec_value(),
    {
        self.0
    }
}

impl Default for Priority {
    /// The neutral priority, zero.
    fn default() -> (r: Self)
        ensures
            r.wf(),
            r.spec_value() == 0,
    {
        Priority(0)
    }
}

} // verus!
