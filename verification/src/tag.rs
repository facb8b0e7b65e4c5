//! Tag sets: collections of distinct tag strings, with no meaningful order.

use vstd::prelude::*;

verus! {

/// A set of tags attached to an item. Duplicates are never stored; the
/// contracts speak of the set of tag character sequences (`self@`), while
/// `seq()` exposes a storage order for indexed traversal.
#[derive(Debug, PartialEq, Eq)]
pub struct TagSet {
    tags: Vec<String>,
}

impl View for TagSet {
    type V = Set<Seq<char>>;

    open spec fn view(&self) -> Set<Seq<char>> {
        Set::new(|t: Seq<char>| self.seq().contains(t))
    }
}

impl TagSet {
    /// The stored tags in storage order, for indexed access.
    pub closed spec fn seq(self) -> Seq<Seq<char>> {
        self.tags.deep_view()
    }

    /// Validity: no tag occurs twice.
    pub open spec fn wf(self) -> bool {
        forall|i: int, j: int| 0 <= i < j < self.seq().len() ==> self.seq()[i] != self.seq()[j]
    }

    /// An empty tag set.
    pub fn new() -> (r: TagSet)
        ensures
            r.wf(),
            r@ == Set::<Seq<char>>::empty(),
            r.seq().len() == 0,
    {
        let r = TagSet { tags: Vec::new() };
        proof {
            assert(r@ =~= Set::<Seq<char>>::empty());
        }
        r
    }

    /// How many tags are stored.
    pub fn len(&self) -> (n: usize)
        ensures
            n == self.seq().len(),
    {
        self.tags.len()
    }

    /// The tag at a storage position.
    pub fn tag_at(&self, i: usize) -> (t: &String)
        requires
            i < self.seq().len(),
        ensures
            t@ == self.seq()[i as int],
    {
        &self.tags[i]
    }

    /// Whether a tag is present.
    pub fn contains(&self, tag: &String) -> (r: bool)
        ensures
            r == self@.contains(tag@),
    {
        let n = self.tags.len();
        let mut i: usize = 0;
        while i < n
            invariant
                n == self.seq().len(),
                i <= n,
                forall|k: int| 0 <= k < i ==> self.seq()[k] != tag@,
            decreases n - i,
        {
            if self.tags[i] == *tag {
                proof {
                    assert(self.seq()[i as int] == tag@);
                }
                return true;
            }
            i += 1;
        }
        false
    }

    /// Adds a tag; reports whether it was actually new.
    pub fn insert(&mut self, tag: String) -> (added: bool)
        requires
            old(self).wf(),
        ensures
            final(self).wf(),
            added == !old(self)@.contains(tag@),
            final(self)@ == old(self)@.insert(tag@),
            final(self).seq() == if old(self)@.contains(tag@) {
                old(self).seq()
            } else {
                old(self).seq().push(tag@)
            },
    {
        if self.contains(&tag) {
            proof {
                assert(self@ =~= old(self)@.insert(tag@));
            }
            false
        } else {
            self.tags.push(tag);
            proof {
                let pre = old(self).seq();
                let post = self.seq();
                assert(post =~= pre.push(tag@));
                assert forall|k: int| 0 <= k < pre.len() implies pre[k] != tag@ by {
                    if pre[k] == tag@ {
                        assert(pre.contains(tag@));
                    }
                }
                assert forall|t: Seq<char>| post.contains(t) implies pre.contains(t) || t == tag@
                    by {
                    let k = choose|k: int| 0 <= k < post.len() && post[k] == t;
                    if k < pre.len() {
                        assert(pre[k] == t);
                    }
                }
                assert forall|t: Seq<char>| pre.contains(t) || t == tag@ implies post.contains(t)
                    by {
                    if pre.contains(t) {
                        let k = choose|k: int| 0 <= k < pre.len() && pre[k] == t;
                        assert(post[k] == t);
                    } else {
                        assert(post[pre.len() as int] == t);
                    }
                }
                assert(self@ =~= old(self)@.insert(tag@));
            }
            true
        }
    }

    /// Removes a tag; reports whether it was actually present.
    pub fn remove(&mut self, tag: &String) -> (removed: bool)
        requires
            old(self).wf(),
        ensures
            final(self).wf(),
            removed == old(self)@.contains(tag@),
            final(self)@ == old(self)@.remove(tag@),
    {
        let n = self.tags.len();
        let mut i: usize = 0;
        while i < n
            invariant
                self == old(self),
                old(self).wf(),
                n == self.seq().len(),
                i <= n,
                forall|k: int| 0 <= k < i ==> self.seq()[k] != tag@,
            decreases n - i,
        {
            if self.tags[i] == *tag {
                proof {
                    assert(self.seq()[i as int] == tag@);
                }
                self.tags.remove(i);
                proof {
                    let pre = old(self).seq();
                    let post = self.seq();
                    old(self).tags@.remove_ensures(i as int);
                    assert(self.tags@ == old(self).tags@.remove(i as int));
                    assert forall|k: int| 0 <= k < post.len() implies post[k] == (if k < i {
                        pre[k]
                    } else {
                        pre[k + 1]
                    }) by {
                        if k < i {
                            assert(old(self).tags@.remove(i as int)[k] == old(self).tags@[k]);
                        } else {
                            assert(old(self).tags@.remove(i as int)[k] == old(self).tags@[k + 1]);
                        }
                    }
                    assert forall|a: int, b: int| 0 <= a < b < post.len() implies post[a]
                        != post[b] by {
                        let a2: int = if a < i {
                            a
                        } else {
                            a + 1
                        };
                        let b2: int = if b < i {
                            b
                        } else {
                            b + 1
                        };
                        assert(0 <= a2 < b2 < pre.len());
                        assert(old(self).seq()[a2] != old(self).seq()[b2]);
                        assert(post[a] == pre[a2] && post[b] == pre[b2]);
                    }
                    assert forall|k2: int| 0 <= k2 < pre.len() && k2 != i implies pre[k2] != tag@
                        by {
                        assert(pre[i as int] == tag@);
                        if k2 < i {
                            assert(old(self).seq()[k2] != old(self).seq()[i as int]);
                        } else {
                            assert(old(self).seq()[i as int] != old(self).seq()[k2]);
                        }
                    }
                    assert forall|t: Seq<char>| post.contains(t) implies pre.contains(t) && t
                        != tag@ by {
                        let k = choose|k: int| 0 <= k < post.len() && post[k] == t;
                        if k < i {
                            assert(pre[k] == t);
                            assert(pre[k] != tag@);
                        } else {
                            assert(pre[k + 1] == t);
                            assert(pre[k + 1] != tag@);
                        }
                    }
                    assert forall|t: Seq<char>| pre.contains(t) && t != tag@ implies post.contains(
                        t,
                    ) by {
                        let k = choose|k: int| 0 <= k < pre.len() && pre[k] == t;
                        if k < i {
                            assert(post[k] == t);
                        } else if k == i {
                            assert(pre[k] == tag@);
                        } else {
                            assert(post[k - 1] == t);
                        }
                    }
                    assert(self@ =~= old(self)@.remove(tag@));
                }
                return true;
            }
            i += 1;
        }
        proof {
            assert(!old(self)@.contains(tag@));
            assert(self@ =~= old(self)@.remove(tag@));
        }
        false
    }

    /// Whether every tag in this set also occurs in `other`.
    pub fn is_subset_of(&self, other: &TagSet) -> (r: bool)
        ensures
            r == self@.subset_of(other@),
    {
        let n = self.tags.len();
        let mut i: usize = 0;
        while i < n
            invariant
                n == self.seq().len(),
                i <= n,
                forall|k: int| 0 <= k < i ==> other@.contains(self.seq()[k]),
            decreases n - i,
        {
            if !other.contains(&self.tags[i]) {
                proof {
                    assert(self@.contains(self.seq()[i as int]));
                }
                return false;
            }
            i += 1;
        }
        proof {
            assert forall|t: Seq<char>| self@.contains(t) implies other@.contains(t) by {
                let k = choose|k: int| 0 <= k < self.seq().len() && self.seq()[k] == t;
                assert(other@.contains(self.seq()[k]));
            }
        }
        true
    }
}

impl Clone for TagSet {
    /// A copy holding the same tags.
    fn clone(&self) -> (r: Self)
        ensures
            r.seq() == self.seq(),
            r@ == self@,
    {
        let r = TagSet { tags: self.tags.clone() };
        proof {
            assert forall|i: int| 0 <= i < r.tags@.len() implies r.tags@[i] == self.tags@[i] by {
                assert(cloned::<String>(self.tags@[i], r.tags@[i]));
            }
            assert(r.tags@ =~= self.tags@);
            assert(r.seq() =~= self.seq());
        }
        r
    }
}

} // verus!
