//! The in-memory item store: a keyed collection of items with add, remove,
//! get, filtered selection, tag batches, priority updates and clearing.
//!
//! Contracts speak of the store as a map from IDs to item views.

use vstd::prelude::*;

use crate::item::{item_le, item_le_exec, Item, ItemView};
use crate::priority::Priority;
use crate::tag::TagSet;

verus! {

/// Failure of [`MemoryPool::add`].
#[derive(Debug, PartialEq, Eq)]
pub enum AddError {
    Conflict,
}

/// Failure of [`MemoryPool::remove`].
#[derive(Debug, PartialEq, Eq)]
pub enum RemoveError {
    NotFound,
}

/// Failure of [`MemoryPool::get`].
#[derive(Debug, PartialEq, Eq)]
pub enum GetError {
    NotFound,
}

/// Failure of [`MemoryPool::select`].
#[derive(Debug, PartialEq, Eq)]
pub enum SelectError {
    Invalid,
    NotFound,
}

/// Failure of [`MemoryPool::add_tag`].
#[derive(Debug, PartialEq, Eq)]
pub enum AddTagError {
    NotFound,
    Conflict,
}

/// Failure of [`MemoryPool::remove_tag`].
#[derive(Debug, PartialEq, Eq)]
pub enum RemoveTagError {
    ItemNotFound,
    TagNotFound,
}

/// Failure of [`MemoryPool::set_priority`].
#[derive(Debug, PartialEq, Eq)]
pub enum SetPriorityError {
    NotFound,
}

/// No ID occurs twice.
pub open spec fn unique_ids(s: Seq<ItemView>) -> bool {
    forall|i: int, j: int| 0 <= i < j < s.len() ==> s[i].id != s[j].id
}

/// The map a row of items denotes; on duplicate IDs the later entry wins.
pub open spec fn map_of(s: Seq<ItemView>) -> Map<u64, ItemView>
    decreases s.len(),
{
    if s.len() == 0 {
        Map::empty()
    } else {
        map_of(s.drop_last()).insert(s.last().id, s.last())
    }
}

/// The map a row of items denotes when the first entry wins, as when a
/// persisted record set is loaded.
pub open spec fn store_of(s: Seq<ItemView>) -> Map<u64, ItemView>
    decreases s.len(),
{
    if s.len() == 0 {
        Map::empty()
    } else if store_of(s.drop_last()).dom().contains(s.last().id) {
        store_of(s.drop_last())
    } else {
        store_of(s.drop_last()).insert(s.last().id, s.last())
    }
}

/// What `map_of` holds: exactly the listed items, keyed by their IDs.
pub proof fn lemma_map_of(s: Seq<ItemView>)
    requires
        unique_ids(s),
    ensures
        forall|i: int| 0 <= i < s.len() ==> map_of(s).contains_pair(#[trigger] s[i].id, s[i]),
        forall|id: u64| #[trigger] map_of(s).dom().contains(id) ==> exists|i: int|
            0 <= i < s.len() && s[i].id == id,
    decreases s.len(),
{
    if s.len() != 0 {
        assert(s.drop_last() =~= s.subrange(0, s.len() - 1));
        lemma_map_of(s.drop_last());
        assert forall|i: int| 0 <= i < s.len() implies map_of(s).contains_pair(
            #[trigger] s[i].id,
            s[i],
        ) by {
            if i < s.len() - 1 {
                assert(s.drop_last()[i] == s[i]);
                assert(map_of(s.drop_last()).contains_pair(s[i].id, s[i]));
                assert(s[i].id != s.last().id);
            }
        }
        assert forall|id: u64| #[trigger] map_of(s).dom().contains(id) implies exists|i: int|
            0 <= i < s.len() && s[i].id == id by {
            if id != s.last().id {
                assert(map_of(s.drop_last()).dom().contains(id));
                let i = choose|i: int| 0 <= i < s.drop_last().len() && s.drop_last()[i].id == id;
                assert(s[i].id == id);
            } else {
                assert(s[s.len() - 1].id == id);
            }
        }
    }
}

/// With unique IDs, first wins and last wins agree.
pub proof fn lemma_store_of_unique(s: Seq<ItemView>)
    requires
        unique_ids(s),
    ensures
        store_of(s) == map_of(s),
    decreases s.len(),
{
    if s.len() != 0 {
        assert(s.drop_last() =~= s.subrange(0, s.len() - 1));
        lemma_store_of_unique(s.drop_last());
        lemma_map_of(s.drop_last());
        if store_of(s.drop_last()).dom().contains(s.last().id) {
            let i = choose|i: int|
                0 <= i < s.drop_last().len() && s.drop_last()[i].id == s.last().id;
            assert(s[i].id == s[s.len() - 1].id);
            assert(false);
        }
    }
}

/// Appending a row adds exactly that item's key to the map.
proof fn lemma_map_of_push(s: Seq<ItemView>, iv: ItemView)
    ensures
        map_of(s.push(iv)) == map_of(s).insert(iv.id, iv),
{
    assert(s.push(iv).drop_last() =~= s);
    assert(s.push(iv).last() == iv);
}

/// Removing row `i` removes exactly that item's key from the map.
proof fn lemma_map_of_remove(s: Seq<ItemView>, i: int)
    requires
        unique_ids(s),
        0 <= i < s.len(),
    ensures
        map_of(s.remove(i)) == map_of(s).remove(s[i].id),
    decreases s.len(),
{
    lemma_map_of(s);
    s.remove_ensures(i);
    if i == s.len() - 1 {
        assert(s.remove(i) =~= s.drop_last());
        assert(!map_of(s.drop_last()).dom().contains(s.last().id)) by {
            if map_of(s.drop_last()).dom().contains(s.last().id) {
                assert(s.drop_last() =~= s.subrange(0, s.len() - 1));
                lemma_map_of(s.drop_last());
                let k = choose|k: int|
                    0 <= k < s.drop_last().len() && s.drop_last()[k].id == s.last().id;
                assert(s[k].id == s[s.len() - 1].id);
            }
        }
        assert(map_of(s.remove(i)) =~= map_of(s).remove(s[i].id));
    } else {
        assert(s.drop_last() =~= s.subrange(0, s.len() - 1));
        assert(s.remove(i).drop_last() =~= s.drop_last().remove(i));
        assert(s.remove(i).last() == s.last());
        lemma_map_of_remove(s.drop_last(), i);
        assert(map_of(s.remove(i)) == map_of(s.drop_last().remove(i)).insert(
            s.last().id,
            s.last(),
        ));
        assert(s.drop_last()[i] == s[i]);
        assert(s[i].id != s.last().id);
        assert(map_of(s.drop_last()).remove(s[i].id).insert(s.last().id, s.last())
            =~= map_of(s.drop_last()).insert(s.last().id, s.last()).remove(s[i].id));
    }
}

/// Replacing row `i` by an item with the same ID updates exactly that key.
proof fn lemma_map_of_update(s1: Seq<ItemView>, s2: Seq<ItemView>, i: int)
    requires
        unique_ids(s1),
        0 <= i < s1.len(),
        s1.len() == s2.len(),
        forall|k: int| 0 <= k < s1.len() && k != i ==> s1[k] == s2[k],
        s2[i].id == s1[i].id,
    ensures
        map_of(s2) == map_of(s1).insert(s1[i].id, s2[i]),
        unique_ids(s2),
    decreases s1.len(),
{
    assert forall|a: int, b: int| 0 <= a < b < s2.len() implies s2[a].id != s2[b].id by {
        assert(s1[a].id != s1[b].id);
    }
    if i == s1.len() - 1 {
        assert(s2.drop_last() =~= s1.drop_last());
        assert(map_of(s2) == map_of(s1.drop_last()).insert(s2[i].id, s2[i]));
        assert(map_of(s1.drop_last()).insert(s2[i].id, s2[i]) =~= map_of(s1).insert(
            s1[i].id,
            s2[i],
        ));
    } else {
        lemma_map_of_update(s1.drop_last(), s2.drop_last(), i);
        assert(s1.drop_last()[i] == s1[i]);
        assert(s2.drop_last()[i] == s2[i]);
        assert(s2.last() == s1.last());
        assert(map_of(s2) == map_of(s1.drop_last()).insert(s1[i].id, s2[i]).insert(
            s1.last().id,
            s1.last(),
        ));
        assert(s1[i].id != s1.last().id);
        assert(map_of(s1.drop_last()).insert(s1[i].id, s2[i]).insert(s1.last().id, s1.last())
            =~= map_of(s1.drop_last()).insert(s1.last().id, s1.last()).insert(s1[i].id, s2[i]));
    }
}

/// Adding an item and then removing that ID undoes the addition: the
/// removed entry is the item itself and the map returns to its prior state.
/// [`MemoryPool::add`] ensures the insertion and [`MemoryPool::remove`]
/// ensures the removal and the returned view, so composing the two calls on
/// a fresh ID gives the original item back and a store without it.
pub proof fn lemma_add_remove_inverse(m: Map<u64, ItemView>, item: ItemView)
    requires
        !m.dom().contains(item.id),
    ensures
        m.insert(item.id, item)[item.id] == item,
        m.insert(item.id, item).remove(item.id) == m,
{
    assert(m.insert(item.id, item).remove(item.id) =~= m);
}

/// Writing out a valid store's items and loading them again yields the same
/// store map: the IDs are unique, so the first-wins load used by
/// [`MemoryPool::from_items`] agrees with the map the items came from.
pub proof fn lemma_store_round_trip(p: MemoryPool)
    requires
        p.wf(),
    ensures
        store_of(p.items_deep()) == p@,
{
    lemma_store_of_unique(p.items_deep());
}

/// In a valid store every entry is keyed by its own ID.
pub proof fn lemma_wf_keys(p: MemoryPool)
    requires
        p.wf(),
    ensures
        forall|id: u64| #[trigger] p@.dom().contains(id) ==> p@[id].id == id,
{
    lemma_map_of(p.items_deep());
    assert forall|id: u64| #[trigger] p@.dom().contains(id) implies p@[id].id == id by {
        let i = choose|i: int| 0 <= i < p.items_deep().len() && p.items_deep()[i].id == id;
        assert(p@.contains_pair(p.items_deep()[i].id, p.items_deep()[i]));
    }
}

/// The in-memory implementation of an item store: a keyed collection with no
/// persistence.
#[derive(Debug)]
pub struct MemoryPool {
    items: Vec<Item>,
}

impl View for MemoryPool {
    type V = Map<u64, ItemView>;

    closed spec fn view(&self) -> Map<u64, ItemView> {
        map_of(self.items.deep_view())
    }
}

impl MemoryPool {
    /// The stored items' views, in storage order.
    pub closed spec fn items_deep(self) -> Seq<ItemView> {
        self.items.deep_view()
    }

    /// Validity: IDs are unique and every stored item is valid.
    pub closed spec fn wf(self) -> bool {
        &&& unique_ids(self.items.deep_view())
        &&& (forall|i: int| 0 <= i < self.items@.len() ==> (#[trigger] self.items@[i]).wf())
    }

    /// An empty store.
    pub fn new() -> (r: MemoryPool)
        ensures
            r.wf(),
            r@ == Map::<u64, ItemView>::empty(),
            r.items_deep().len() == 0,
    {
        MemoryPool { items: Vec::new() }
    }

    /// The row index holding `id`, if any.
    fn find_index(&self, id: u64) -> (r: Option<usize>)
        ensures
            match r {
                Some(i) => i < self.items@.len() && self.items_deep()[i as int].id == id,
                None => forall|i: int|
                    0 <= i < self.items_deep().len() ==> self.items_deep()[i].id != id,
            },
    {
        let n = self.items.len();
        let mut i: usize = 0;
        while i < n
            invariant
                n == self.items@.len(),
                i <= n,
                forall|k: int| 0 <= k < i ==> self.items_deep()[k].id != id,
            decreases n - i,
        {
            if self.items[i].id() == id {
                return Some(i);
            }
            i += 1;
        }
        None
    }

    /// Adds an item under its content-derived ID; an item with that ID
    /// already present is a conflict and leaves the store unchanged.
    #[verifier::rlimit(100)]
    pub fn add(&mut self, item: Item) -> (r: Result<u64, AddError>)
        requires
            old(self).wf(),
            item.wf(),
        ensures
            final(self).wf(),
            old(self)@.dom().contains(item@.id) ==> r == Err::<u64, AddError>(AddError::Conflict)
                && final(self)@ == old(self)@,
            !old(self)@.dom().contains(item@.id) ==> r == Ok::<u64, AddError>(item@.id)
                && final(self)@ == old(self)@.insert(item@.id, item@),
    {
        proof {
            lemma_map_of(old(self).items_deep());
        }
        let id = item.id();
        match self.find_index(id) {
            Some(_) => {
                proof {
                    assert(old(self)@.dom().contains(item@.id));
                }
                Err(AddError::Conflict)
            },
            None => {
                proof {
                    if old(self)@.dom().contains(item@.id) {
                        let i = choose|i: int|
                            0 <= i < old(self).items_deep().len() && old(self).items_deep()[i].id
                                == item@.id;
                        assert(false);
                    }
                }
                self.items.push(item);
                proof {
                    let pre = old(self).items.deep_view();
                    let post = self.items.deep_view();
                    assert(post.len() == pre.len() + 1);
                    assert forall|k: int| 0 <= k < pre.len() implies post[k] == pre[k] by {
                        assert(self.items@[k] == old(self).items@[k]);
                    }
                    assert(post[pre.len() as int] == item@);
                    assert(post =~= pre.push(item@));
                    lemma_map_of_push(pre, item@);
                    assert(self@ == old(self)@.insert(item@.id, item@));
                    assert forall|a: int, b: int| 0 <= a < b < post.len() implies post[a].id
                        != post[b].id by {
                        if b < post.len() - 1 {
                            assert(pre[a].id != pre[b].id);
                        } else {
                            assert(pre[a].id != item@.id);
                        }
                    }
                }
                Ok(id)
            },
        }
    }

    /// Removes and returns the item under `id`, or reports that none exists.
    #[verifier::rlimit(50)]
    pub fn remove(&mut self, id: u64) -> (r: Result<Item, RemoveError>)
        requires
            old(self).wf(),
        ensures
            final(self).wf(),
            old(self)@.dom().contains(id) ==> r is Ok && r->Ok_0@ == old(self)@[id]
                && r->Ok_0.wf() && final(self)@ == old(self)@.remove(id),
            !old(self)@.dom().contains(id) ==> r == Err::<Item, RemoveError>(RemoveError::NotFound)
                && final(self)@ == old(self)@,
    {
        proof {
            lemma_map_of(old(self).items_deep());
        }
        match self.find_index(id) {
            Some(i) => {
                proof {
                    lemma_map_of_remove(old(self).items_deep(), i as int);
                    old(self).items_deep().remove_ensures(i as int);
                }
                let it = self.items.remove(i);
                proof {
                    assert(self.items.deep_view() =~= old(self).items.deep_view().remove(i as int));
                    assert(it@ == old(self).items_deep()[i as int]);
                    assert(old(self)@.contains_pair(id, it@));
                    assert forall|a: int, b: int|
                        0 <= a < b < self.items_deep().len() implies self.items_deep()[a].id
                        != self.items_deep()[b].id by {
                        let a2: int = if a < i {
                            a
                        } else {
                            a + 1
                        };
                        let b2: int = if b < i {
                            b
                        } else {
                            b + 1
                        };
                        assert(old(self).items_deep()[a2].id != old(self).items_deep()[b2].id);
                    }
                }
                Ok(it)
            },
            None => {
                proof {
                    if old(self)@.dom().contains(id) {
                        let i = choose|i: int|
                            0 <= i < old(self).items_deep().len() && old(self).items_deep()[i].id
                                == id;
                        assert(false);
                    }
                }
                Err(RemoveError::NotFound)
            },
        }
    }

    /// Returns a copy of the item under `id`, or reports that none exists.
    /// Read-only and repeatable.
    pub fn get(&self, id: u64) -> (r: Result<Item, GetError>)
        requires
            self.wf(),
        ensures
            self@.dom().contains(id) ==> r is Ok && r->Ok_0@ == self@[id] && r->Ok_0.wf(),
            !self@.dom().contains(id) ==> r == Err::<Item, GetError>(GetError::NotFound),
    {
        proof {
            lemma_map_of(self.items_deep());
        }
        match self.find_index(id) {
            Some(i) => {
                proof {
                    assert(self@.contains_pair(id, self.items_deep()[i as int]));
                }
                Ok(self.items[i].clone())
            },
            None => {
                proof {
                    if self@.dom().contains(id) {
                        let i = choose|i: int|
                            0 <= i < self.items_deep().len() && self.items_deep()[i].id == id;
                        assert(false);
                    }
                }
                Err(GetError::NotFound)
            },
        }
    }

    /// Removes every item unconditionally.
    pub fn clear(&mut self)
        ensures
            final(self).wf(),
            final(self)@ == Map::<u64, ItemView>::empty(),
    {
        self.items.clear();
        proof {
            assert(self.items.deep_view() =~= Seq::<ItemView>::empty());
        }
    }

    /// Copies of all stored items, in storage order.
    pub fn clone_inner(&self) -> (r: Vec<Item>)
        ensures
            r.deep_view() == self.items_deep(),
            self.wf() ==> forall|i: int| 0 <= i < r@.len() ==> (#[trigger] r@[i]).wf(),
    {
        let n = self.items.len();
        let mut r: Vec<Item> = Vec::new();
        let mut i: usize = 0;
        while i < n
            invariant
                n == self.items@.len(),
                i <= n,
                r@.len() == i,
                forall|k: int| 0 <= k < i ==> r.deep_view()[k] == self.items_deep()[k],
                forall|k: int| 0 <= k < i ==> (#[trigger] r@[k]).wf() == self.items@[k].wf(),
            decreases n - i,
        {
            r.push(self.items[i].clone());
            i += 1;
        }
        proof {
            assert(r.deep_view() =~= self.items_deep());
        }
        r
    }

    /// Builds a store from a row of items; on duplicate IDs the earliest
    /// item wins, as when a persisted record set is loaded.
    pub fn from_items(items: Vec<Item>) -> (r: MemoryPool)
        requires
            forall|i: int| 0 <= i < items@.len() ==> (#[trigger] items@[i]).wf(),
        ensures
            r.wf(),
            r@ == store_of(items.deep_view()),
    {
        let n = items.len();
        let mut pool = MemoryPool::new();
        let mut i: usize = 0;
        proof {
            assert(items.deep_view().subrange(0, 0) =~= Seq::<ItemView>::empty());
        }
        while i < n
            invariant
                n == items@.len(),
                i <= n,
                forall|k: int| 0 <= k < items@.len() ==> (#[trigger] items@[k]).wf(),
                pool.wf(),
                pool@ == store_of(items.deep_view().subrange(0, i as int)),
            decreases n - i,
        {
            proof {
                let pre = items.deep_view().subrange(0, i as int);
                let post = items.deep_view().subrange(0, i as int + 1);
                assert(post.drop_last() =~= pre);
                assert(post.last() == items.deep_view()[i as int]);
            }
            let it = items[i].clone();
            let _ = pool.add(it);
            i += 1;
        }
        proof {
            assert(items.deep_view().subrange(0, n as int) =~= items.deep_view());
        }
        pool
    }
}

impl MemoryPool {
    /// Overwrites the priority of the item under `id`.
    #[verifier::rlimit(50)]
    pub fn set_priority(&mut self, id: u64, priority: Priority) -> (r: Result<
        (),
        SetPriorityError,
    >)
        requires
            old(self).wf(),
            priority.wf(),
        ensures
            final(self).wf(),
            !old(self)@.dom().contains(id) ==> r == Err::<(), SetPriorityError>(
                SetPriorityError::NotFound,
            ) && final(self)@ == old(self)@,
            old(self)@.dom().contains(id) ==> r == Ok::<(), SetPriorityError>(())
                && final(self)@ == old(self)@.insert(
                id,
                (ItemView { priority: priority.spec_value() as int, ..old(self)@[id] }),
            ),
    {
        proof {
            lemma_map_of(old(self).items_deep());
        }
        match self.find_index(id) {
            None => {
                proof {
                    if old(self)@.dom().contains(id) {
                        let i = choose|i: int|
                            0 <= i < old(self).items_deep().len() && old(self).items_deep()[i].id
                                == id;
                        assert(false);
                    }
                }
                Err(SetPriorityError::NotFound)
            },
            Some(i) => {
                let ghost s1 = old(self).items.deep_view();
                proof {
                    assert(old(self)@.contains_pair(id, s1[i as int]));
                    old(self).items@.remove_ensures(i as int);
                }
                let mut it = self.items.remove(i);
                it.set_priority(priority);
                self.items.insert(i, it);
                proof {
                    let s2 = self.items.deep_view();
                    old(self).items@.remove(i as int).insert_ensures(i as int, self.items@[i as int]);
                    assert forall|k: int| 0 <= k < s1.len() && k != i implies s2[k] == s1[k] by {
                        assert(self.items@[k] == old(self).items@[k]);
                    }
                    assert(s2[i as int] == (ItemView {
                        priority: priority.spec_value() as int,
                        ..s1[i as int]
                    }));
                    lemma_map_of_update(s1, s2, i as int);
                }
                Ok(())
            },
        }
    }

    /// Applies a batch of tag additions to the item under `id`. Every tag is
    /// processed; the call reports a conflict if any tag was already present,
    /// but the new tags stay applied even then.
    #[verifier::rlimit(50)]
    pub fn add_tag(&mut self, id: u64, tags: TagSet) -> (r: Result<(), AddTagError>)
        requires
            old(self).wf(),
            tags.wf(),
        ensures
            final(self).wf(),
            !old(self)@.dom().contains(id) ==> r == Err::<(), AddTagError>(AddTagError::NotFound)
                && final(self)@ == old(self)@,
            old(self)@.dom().contains(id) ==> final(self)@ == old(self)@.insert(
                id,
                (ItemView { tags: old(self)@[id].tags.union(tags@), ..old(self)@[id] }),
            ) && r == (if old(self)@[id].tags.disjoint(tags@) {
                Ok::<(), AddTagError>(())
            } else {
                Err::<(), AddTagError>(AddTagError::Conflict)
            }),
    {
        proof {
            lemma_map_of(old(self).items_deep());
        }
        match self.find_index(id) {
            None => {
                proof {
                    if old(self)@.dom().contains(id) {
                        let i = choose|i: int|
                            0 <= i < old(self).items_deep().len() && old(self).items_deep()[i].id
                                == id;
                        assert(false);
                    }
                }
                Err(AddTagError::NotFound)
            },
            Some(i) => {
                let ghost s1 = old(self).items.deep_view();
                let ghost orig = s1[i as int];
                proof {
                    assert(old(self)@.contains_pair(id, orig));
                    old(self).items@.remove_ensures(i as int);
                }
                let mut it = self.items.remove(i);
                let n = tags.len();
                let mut k: usize = 0;
                let mut fresh = true;
                while k < n
                    invariant
                        n == tags.seq().len(),
                        tags.wf(),
                        k <= n,
                        it.wf(),
                        it@ == (ItemView { tags: it@.tags, ..orig }),
                        forall|t: Seq<char>| #[trigger] it@.tags.contains(t) <==> (
                        orig.tags.contains(t) || (exists|j: int|
                            0 <= j < k && tags.seq()[j] == t)),
                        fresh <==> (forall|j: int|
                            0 <= j < k ==> !orig.tags.contains(#[trigger] tags.seq()[j])),
                    decreases n - k,
                {
                    let ghost tags_pre = it@.tags;
                    let tag = tags.tag_at(k).clone();
                    let added = it.add_tag(tag);
                    proof {
                        if !added {
                            assert(tags_pre.contains(tags.seq()[k as int]));
                            if !orig.tags.contains(tags.seq()[k as int]) {
                                let j = choose|j: int|
                                    0 <= j < k && tags.seq()[j] == tags.seq()[k as int];
                                assert(false);
                            }
                        }
                        assert forall|t: Seq<char>| #[trigger] it@.tags.contains(t) <==> (
                        orig.tags.contains(t) || (exists|j: int|
                            0 <= j < k + 1 && tags.seq()[j] == t)) by {
                            if it@.tags.contains(t) {
                                if !tags_pre.contains(t) {
                                    assert(tags.seq()[k as int] == t);
                                }
                            }
                            if exists|j: int| 0 <= j < k + 1 && tags.seq()[j] == t {
                                let j = choose|j: int| 0 <= j < k + 1 && tags.seq()[j] == t;
                                if j < k {
                                    assert(tags_pre.contains(t));
                                }
                            }
                        }
                    }
                    if !added {
                        fresh = false;
                    }
                    k += 1;
                }
                self.items.insert(i, it);
                proof {
                    let s2 = self.items.deep_view();
                    old(self).items@.remove(i as int).insert_ensures(
                        i as int,
                        self.items@[i as int],
                    );
                    assert forall|k2: int| 0 <= k2 < s1.len() && k2 != i implies s2[k2]
                        == s1[k2] by {
                        assert(self.items@[k2] == old(self).items@[k2]);
                    }
                    assert(s2[i as int] == it@);
                    assert(it@.tags =~= orig.tags.union(tags@)) by {
                        assert forall|t: Seq<char>| #[trigger] it@.tags.contains(t) <==> (
                        orig.tags.contains(t) || tags@.contains(t)) by {
                            if tags@.contains(t) {
                                let j = choose|j: int|
                                    0 <= j < tags.seq().len() && tags.seq()[j] == t;
                                assert(exists|j2: int| 0 <= j2 < n && tags.seq()[j2] == t);
                            }
                            if exists|j: int| 0 <= j < n && tags.seq()[j] == t {
                                let j = choose|j: int| 0 <= j < n && tags.seq()[j] == t;
                                assert(tags.seq().contains(tags.seq()[j]));
                            }
                        }
                    }
                    assert(s2[i as int] == (ItemView {
                        tags: orig.tags.union(tags@),
                        ..orig
                    }));
                    lemma_map_of_update(s1, s2, i as int);
                    assert(fresh <==> orig.tags.disjoint(tags@)) by {
                        if fresh && !orig.tags.disjoint(tags@) {
                            let t = choose|t: Seq<char>|
                                orig.tags.contains(t) && tags@.contains(t);
                            let j = choose|j: int|
                                0 <= j < tags.seq().len() && tags.seq()[j] == t;
                            assert(orig.tags.contains(tags.seq()[j]));
                        }
                        if !fresh && orig.tags.disjoint(tags@) {
                            let j = choose|j: int|
                                0 <= j < n && orig.tags.contains(#[trigger] tags.seq()[j]);
                            assert(tags.seq().contains(tags.seq()[j]));
                            assert(tags@.contains(tags.seq()[j]));
                        }
                    }
                }
                if fresh {
                    Ok(())
                } else {
                    Err(AddTagError::Conflict)
                }
            },
        }
    }

    /// Applies a batch of tag removals to the item under `id`. Every tag is
    /// processed; the call reports a missing tag if any was already absent,
    /// but the present tags stay removed even then.
    #[verifier::rlimit(50)]
    pub fn remove_tag(&mut self, id: u64, tags: TagSet) -> (r: Result<(), RemoveTagError>)
        requires
            old(self).wf(),
            tags.wf(),
        ensures
            final(self).wf(),
            !old(self)@.dom().contains(id) ==> r == Err::<(), RemoveTagError>(
                RemoveTagError::ItemNotFound,
            ) && final(self)@ == old(self)@,
            old(self)@.dom().contains(id) ==> final(self)@ == old(self)@.insert(
                id,
                (ItemView { tags: old(self)@[id].tags.difference(tags@), ..old(self)@[id] }),
            ) && r == (if tags@.subset_of(old(self)@[id].tags) {
                Ok::<(), RemoveTagError>(())
            } else {
                Err::<(), RemoveTagError>(RemoveTagError::TagNotFound)
            }),
    {
        proof {
            lemma_map_of(old(self).items_deep());
        }
        match self.find_index(id) {
            None => {
                proof {
                    if old(self)@.dom().contains(id) {
                        let i = choose|i: int|
                            0 <= i < old(self).items_deep().len() && old(self).items_deep()[i].id
                                == id;
                        assert(false);
                    }
                }
                Err(RemoveTagError::ItemNotFound)
            },
            Some(i) => {
                let ghost s1 = old(self).items.deep_view();
                let ghost orig = s1[i as int];
                proof {
                    assert(old(self)@.contains_pair(id, orig));
                    old(self).items@.remove_ensures(i as int);
                }
                let mut it = self.items.remove(i);
                let n = tags.len();
                let mut k: usize = 0;
                let mut all_there = true;
                while k < n
                    invariant
                        n == tags.seq().len(),
                        tags.wf(),
                        k <= n,
                        it.wf(),
                        it@ == (ItemView { tags: it@.tags, ..orig }),
                        forall|t: Seq<char>| #[trigger] it@.tags.contains(t) <==> (
                        orig.tags.contains(t) && !(exists|j: int|
                            0 <= j < k && tags.seq()[j] == t)),
                        all_there <==> (forall|j: int|
                            0 <= j < k ==> orig.tags.contains(#[trigger] tags.seq()[j])),
                    decreases n - k,
                {
                    let ghost tags_pre = it@.tags;
                    let tag = tags.tag_at(k);
                    let removed = it.remove_tag(tag);
                    proof {
                        if !removed && orig.tags.contains(tags.seq()[k as int]) {
                            assert(!tags_pre.contains(tags.seq()[k as int]));
                            let j = choose|j: int|
                                0 <= j < k && tags.seq()[j] == tags.seq()[k as int];
                            assert(false);
                        }
                        assert forall|t: Seq<char>| #[trigger] it@.tags.contains(t) <==> (
                        orig.tags.contains(t) && !(exists|j: int|
                            0 <= j < k + 1 && tags.seq()[j] == t)) by {
                            if it@.tags.contains(t) {
                                assert(tags_pre.contains(t));
                                if exists|j: int| 0 <= j < k + 1 && tags.seq()[j] == t {
                                    let j = choose|j: int| 0 <= j < k + 1 && tags.seq()[j] == t;
                                    assert(j == k);
                                    assert(t == tags.seq()[k as int]);
                                    assert(false);
                                }
                            }
                            if orig.tags.contains(t) && !(exists|j: int|
                                0 <= j < k + 1 && tags.seq()[j] == t) {
                                assert(tags_pre.contains(t));
                                assert(t != tags.seq()[k as int]);
                            }
                        }
                    }
                    if !removed {
                        all_there = false;
                    }
                    k += 1;
                }
                self.items.insert(i, it);
                proof {
                    let s2 = self.items.deep_view();
                    old(self).items@.remove(i as int).insert_ensures(
                        i as int,
                        self.items@[i as int],
                    );
                    assert forall|k2: int| 0 <= k2 < s1.len() && k2 != i implies s2[k2]
                        == s1[k2] by {
                        assert(self.items@[k2] == old(self).items@[k2]);
                    }
                    assert(s2[i as int] == it@);
                    assert(it@.tags =~= orig.tags.difference(tags@)) by {
                        assert forall|t: Seq<char>| #[trigger] it@.tags.contains(t) <==> (
                        orig.tags.contains(t) && !tags@.contains(t)) by {
                            if tags@.contains(t) {
                                let j = choose|j: int|
                                    0 <= j < tags.seq().len() && tags.seq()[j] == t;
                                assert(exists|j2: int| 0 <= j2 < n && tags.seq()[j2] == t);
                            }
                            if exists|j: int| 0 <= j < n && tags.seq()[j] == t {
                                let j = choose|j: int| 0 <= j < n && tags.seq()[j] == t;
                                assert(tags.seq().contains(tags.seq()[j]));
                            }
                        }
                    }
                    assert(s2[i as int] == (ItemView {
                        tags: orig.tags.difference(tags@),
                        ..orig
                    }));
                    lemma_map_of_update(s1, s2, i as int);
                    assert(all_there <==> tags@.subset_of(orig.tags)) by {
                        if all_there && !tags@.subset_of(orig.tags) {
                            let t = choose|t: Seq<char>|
                                tags@.contains(t) && !orig.tags.contains(t);
                            let j = choose|j: int|
                                0 <= j < tags.seq().len() && tags.seq()[j] == t;
                            assert(orig.tags.contains(tags.seq()[j]));
                        }
                        if !all_there && tags@.subset_of(orig.tags) {
                            let j = choose|j: int|
                                0 <= j < n && !orig.tags.contains(#[trigger] tags.seq()[j]);
                            assert(tags.seq().contains(tags.seq()[j]));
                            assert(tags@.contains(tags.seq()[j]));
                        }
                    }
                }
                if all_there {
                    Ok(())
                } else {
                    Err(RemoveTagError::TagNotFound)
                }
            },
        }
    }
}

/// Whether an item passes the tag-superset and time-window filters.
pub open spec fn admits(
    iv: ItemView,
    tags: Set<Seq<char>>,
    before: Option<i64>,
    after: Option<i64>,
) -> bool {
    &&& tags.subset_of(iv.tags)
    &&& (before matches Some(b) ==> iv.deadline <= b)
    &&& (after matches Some(a) ==> iv.deadline >= a)
}

/// Whether a row of items is sorted by the listing order.
pub open spec fn sorted_items(s: Seq<ItemView>) -> bool {
    forall|a: int, b: int| 0 <= a < b < s.len() ==> item_le(#[trigger] s[a], #[trigger] s[b])
}

/// Inserts an item into a sorted row, keeping it sorted.
#[verifier::rlimit(50)]
fn insert_sorted(v: &mut Vec<Item>, item: Item)
    requires
        sorted_items(old(v).deep_view()),
    ensures
        sorted_items(final(v).deep_view()),
        exists|p: int|
            0 <= p <= old(v)@.len() && final(v).deep_view() == old(v).deep_view().insert(
                p,
                #[trigger] item@,
            ),
        ((forall|k: int| 0 <= k < old(v)@.len() ==> (#[trigger] old(v)@[k]).wf()) && item.wf())
            ==> (forall|k: int| 0 <= k < final(v)@.len() ==> (#[trigger] final(v)@[k]).wf()),
    decreases old(v)@.len(),
{
    let ghost s0 = old(v).deep_view();
    let n = v.len();
    let mut p: usize = 0;
    proof {
        assert(s0.len() == old(v)@.len());
    }
    while p < n
        invariant
            s0 == old(v).deep_view(),
            v == old(v),
            v@ == old(v)@,
            n == v@.len(),
            n == s0.len(),
            p <= n,
            forall|k: int| 0 <= k < p ==> item_le(#[trigger] s0[k], item@),
        ensures
            v == old(v),
            p <= n,
            forall|k: int| 0 <= k < p ==> item_le(#[trigger] s0[k], item@),
            p < n ==> !item_le(s0[p as int], item@),
        decreases n - p,
    {
        let goes_before = item_le_exec(&v[p], &item);
        proof {
            assert(v@[p as int]@ == s0[p as int]);
        }
        if !goes_before {
            break;
        }
        p += 1;
    }
    proof {
        if p < n {
            crate::item::lemma_item_le_total(item@, s0[p as int]);
        }
    }
    v.insert(p, item);
    proof {
        old(v)@.insert_ensures(p as int, item);
        let s2 = v.deep_view();
        assert forall|k: int| 0 <= k < s2.len() implies s2[k] == s0.insert(p as int, item@)[k] by {
            s0.insert_ensures(p as int, item@);
            old(v)@.insert_ensures(p as int, item);
            if k < p {
                assert(v@[k] == old(v)@[k]);
            } else if k == p {
                assert(v@[k] == item);
            } else {
                assert(v@[k] == old(v)@[k - 1]);
            }
        }
        assert(s2 =~= s0.insert(p as int, item@));
        s0.insert_ensures(p as int, item@);
        assert forall|a: int, b: int| 0 <= a < b < s2.len() implies item_le(
            #[trigger] s2[a],
            #[trigger] s2[b],
        ) by {
            if a == p {
                if b > p {
                    assert(s2[b] == s0[b - 1]);
                    if p < s0.len() {
                        if b - 1 > p {
                            assert(item_le(s0[p as int], s0[b - 1]));
                            crate::item::lemma_item_le_trans(item@, s0[p as int], s0[b - 1]);
                        }
                    }
                }
            } else if b == p {
                assert(s2[a] == s0[a]);
                assert(item_le(s0[a], item@));
            } else {
                let a2: int = if a < p {
                    a
                } else {
                    a - 1
                };
                let b2: int = if b < p {
                    b
                } else {
                    b - 1
                };
                assert(s2[a] == s0[a2] && s2[b] == s0[b2]);
                if a2 < b2 {
                    assert(item_le(s0[a2], s0[b2]));
                } else {
                    assert(a2 == b2);
                    assert(a < p && b > p);
                    assert(item_le(s0[a2], item@));
                    crate::item::lemma_item_le_total(s0[a2], s0[b2]);
                }
            }
        }
    }
}


/// Sorts a row of items with pairwise-distinct views into listing order.
#[verifier::rlimit(100)]
fn sort_items(picked: &Vec<Item>) -> (out: Vec<Item>)
    requires
        forall|k: int| 0 <= k < picked@.len() ==> (#[trigger] picked@[k]).wf(),
        forall|a: int, b: int|
            0 <= a < b < picked.deep_view().len() ==> picked.deep_view()[a]
                != picked.deep_view()[b],
    ensures
        sorted_items(out.deep_view()),
        forall|k: int| 0 <= k < out@.len() ==> (#[trigger] out@[k]).wf(),
        forall|iv: ItemView| #[trigger] out.deep_view().contains(iv)
            <==> picked.deep_view().contains(iv),
        forall|a: int, b: int|
            0 <= a < b < out.deep_view().len() ==> out.deep_view()[a] != out.deep_view()[b],
{
        let m = picked.len();
        let mut out: Vec<Item> = Vec::new();
        let mut j: usize = 0;
        while j < m
            invariant
                m == picked@.len(),
                j <= m,
                forall|k: int| 0 <= k < picked@.len() ==> (#[trigger] picked@[k]).wf(),
                forall|a: int, b: int|
                    0 <= a < b < picked.deep_view().len() ==> picked.deep_view()[a]
                        != picked.deep_view()[b],
                sorted_items(out.deep_view()),
                forall|k: int| 0 <= k < out@.len() ==> (#[trigger] out@[k]).wf(),
                forall|iv: ItemView| #[trigger] out.deep_view().contains(iv) <==> (exists|k: int|
                    0 <= k < j && picked.deep_view()[k] == iv),
                forall|a: int, b: int|
                    0 <= a < b < out.deep_view().len() ==> out.deep_view()[a]
                        != out.deep_view()[b],
            decreases m - j,
        {
            let ghost pre = out.deep_view();
            let it = picked[j].clone();
            insert_sorted(&mut out, it);
            proof {
                let post = out.deep_view();
                let p = choose|p: int|
                    0 <= p <= pre.len() && post == pre.insert(p, #[trigger] picked.deep_view()[j as int]);
                pre.insert_ensures(p, picked.deep_view()[j as int]);
                assert forall|iv: ItemView| #[trigger] post.contains(iv) <==> (exists|k: int|
                    0 <= k < j + 1 && picked.deep_view()[k] == iv) by {
                    if post.contains(iv) {
                        let k = choose|k: int| 0 <= k < post.len() && post[k] == iv;
                        if k < p {
                            assert(pre[k] == iv);
                            assert(pre.contains(iv));
                        } else if k == p {
                            assert(iv == picked.deep_view()[j as int]);
                        } else {
                            assert(pre[k - 1] == iv);
                            assert(pre.contains(iv));
                        }
                    }
                    if exists|k: int| 0 <= k < j + 1 && picked.deep_view()[k] == iv {
                        let k = choose|k: int| 0 <= k < j + 1 && picked.deep_view()[k] == iv;
                        if k < j {
                            assert(pre.contains(iv));
                            let k2 = choose|k2: int| 0 <= k2 < pre.len() && pre[k2] == iv;
                            if k2 < p {
                                assert(post[k2] == iv);
                            } else {
                                assert(post[k2 + 1] == iv);
                            }
                        } else {
                            assert(post[p] == iv);
                        }
                    }
                }
                assert forall|a2: int, b2: int|
                    0 <= a2 < b2 < post.len() implies post[a2] != post[b2] by {
                    let a3: int = if a2 < p {
                        a2
                    } else if a2 == p {
                        j as int
                    } else {
                        a2 - 1
                    };
                    let b3: int = if b2 < p {
                        b2
                    } else if b2 == p {
                        j as int
                    } else {
                        b2 - 1
                    };
                    if a2 == p {
                        assert(post[a2] == picked.deep_view()[j as int]);
                        assert(pre.contains(post[b2]));
                        let kb = choose|kb: int| 0 <= kb < j && picked.deep_view()[kb] == post[b2];
                        assert(picked.deep_view()[kb] != picked.deep_view()[j as int]);
                    } else if b2 == p {
                        assert(post[b2] == picked.deep_view()[j as int]);
                        assert(pre.contains(post[a2]));
                        let ka = choose|ka: int| 0 <= ka < j && picked.deep_view()[ka] == post[a2];
                        assert(picked.deep_view()[ka] != picked.deep_view()[j as int]);
                    } else {
                        assert(post[a2] == pre[a3] && post[b2] == pre[b3]);
                    }
                }
            }
            j += 1;
        }
    proof {
        assert forall|iv: ItemView| #[trigger] out.deep_view().contains(iv)
            <==> picked.deep_view().contains(iv) by {
            if out.deep_view().contains(iv) {
                let k = choose|k: int| 0 <= k < m && picked.deep_view()[k] == iv;
                assert(picked.deep_view().contains(iv));
            }
            if picked.deep_view().contains(iv) {
                let k = choose|k: int|
                    0 <= k < picked.deep_view().len() && picked.deep_view()[k] == iv;
            }
        }
    }
    out
}

impl MemoryPool {
    /// Every item whose tags include the requested tags and whose deadline
    /// lies in `[after, before]` (either bound open), sorted by deadline
    /// ascending, then priority descending, then summary. An inverted window
    /// is invalid; an empty result is reported as not found, never as an
    /// empty success.
    #[verifier::rlimit(100)]
    pub fn select(&self, tags: TagSet, before: Option<i64>, after: Option<i64>) -> (r: Result<
        Vec<Item>,
        SelectError,
    >)
        requires
            self.wf(),
        ensures
            ({
                let invalid = before is Some && after is Some && before->0 < after->0;
                let any = exists|id: u64| #[trigger] self@.dom().contains(id) && admits(
                    self@[id],
                    tags@,
                    before,
                    after,
                );
                &&& (invalid ==> r == Err::<Vec<Item>, SelectError>(SelectError::Invalid))
                &&& (!invalid && !any ==> r == Err::<Vec<Item>, SelectError>(
                    SelectError::NotFound,
                ))
                &&& (!invalid && any ==> r is Ok && ({
                    let v = r->Ok_0.deep_view();
                    &&& (forall|iv: ItemView| #[trigger] v.contains(iv) <==> (
                    self@.dom().contains(iv.id) && self@[iv.id] == iv && admits(
                        iv,
                        tags@,
                        before,
                        after,
                    )))
                    &&& (forall|a: int, b: int| 0 <= a < b < v.len() ==> v[a].id != v[b].id)
                    &&& sorted_items(v)
                    &&& (forall|k: int| 0 <= k < r->Ok_0@.len() ==> (#[trigger] r->Ok_0@[k]).wf())
                }))
            }),
    {
        match (before, after) {
            (Some(b), Some(a)) => {
                if b < a {
                    return Err(SelectError::Invalid);
                }
            },
            _ => {},
        }
        proof {
            lemma_map_of(self.items_deep());
        }
        let n = self.items.len();
        let mut picked: Vec<Item> = Vec::new();
        let mut i: usize = 0;
        while i < n
            invariant
                self.wf(),
                n == self.items@.len(),
                i <= n,
                forall|iv: ItemView| #[trigger] picked.deep_view().contains(iv) <==> (exists|
                    k: int,
                |
                    0 <= k < i && self.items_deep()[k] == iv && admits(iv, tags@, before, after)),
                forall|k: int| 0 <= k < picked@.len() ==> (#[trigger] picked@[k]).wf(),
                forall|a: int, b: int|
                    0 <= a < b < picked.deep_view().len() ==> picked.deep_view()[a]
                        != picked.deep_view()[b],
            decreases n - i,
        {
            let ghost pre = picked.deep_view();
            let it = &self.items[i];
            let keep_tags = tags.is_subset_of(it.tags());
            let keep_before = match before {
                Some(b) => it.deadline() <= b,
                None => true,
            };
            let keep_after = match after {
                Some(a) => it.deadline() >= a,
                None => true,
            };
            if keep_tags && keep_before && keep_after {
                proof {
                    assert(self.items@[i as int].wf());
                    assert(admits(self.items_deep()[i as int], tags@, before, after));
                }
                picked.push(self.items[i].clone());
                proof {
                    let post = picked.deep_view();
                    assert(post.len() == pre.len() + 1);
                    assert forall|k: int| 0 <= k < pre.len() implies post[k] == pre[k] by {}
                    assert(post[pre.len() as int] == self.items_deep()[i as int]);
                    assert forall|iv: ItemView| #[trigger] post.contains(iv) <==> (exists|k: int|
                        0 <= k < i + 1 && self.items_deep()[k] == iv && admits(
                            iv,
                            tags@,
                            before,
                            after,
                        )) by {
                        if post.contains(iv) {
                            let k = choose|k: int| 0 <= k < post.len() && post[k] == iv;
                            if k < pre.len() {
                                assert(pre.contains(iv));
                            } else {
                                assert(iv == self.items_deep()[i as int]);
                            }
                        }
                        if exists|k: int|
                            0 <= k < i + 1 && self.items_deep()[k] == iv && admits(
                                iv,
                                tags@,
                                before,
                                after,
                            ) {
                            let k = choose|k: int|
                                0 <= k < i + 1 && self.items_deep()[k] == iv && admits(
                                    iv,
                                    tags@,
                                    before,
                                    after,
                                );
                            if k < i {
                                assert(pre.contains(iv));
                                let k2 = choose|k2: int| 0 <= k2 < pre.len() && pre[k2] == iv;
                                assert(post[k2] == iv);
                            } else {
                                assert(post[pre.len() as int] == iv);
                            }
                        }
                    }
                    assert forall|a2: int, b2: int|
                        0 <= a2 < b2 < post.len() implies post[a2] != post[b2] by {
                        if b2 == post.len() - 1 {
                            assert(post[a2] == pre[a2]);
                            assert(pre.contains(pre[a2]));
                            let k = choose|k: int|
                                0 <= k < i && self.items_deep()[k] == pre[a2] && admits(
                                    pre[a2],
                                    tags@,
                                    before,
                                    after,
                                );
                            assert(self.items_deep()[k].id != self.items_deep()[i as int].id);
                        } else {
                            assert(post[a2] == pre[a2] && post[b2] == pre[b2]);
                        }
                    }
                }
            } else {
                proof {
                    assert(!admits(self.items_deep()[i as int], tags@, before, after));
                    assert forall|iv: ItemView| #[trigger] picked.deep_view().contains(iv) <==> (
                    exists|k: int|
                        0 <= k < i + 1 && self.items_deep()[k] == iv && admits(
                            iv,
                            tags@,
                            before,
                            after,
                        )) by {
                        if exists|k: int|
                            0 <= k < i + 1 && self.items_deep()[k] == iv && admits(
                                iv,
                                tags@,
                                before,
                                after,
                            ) {
                            let k = choose|k: int|
                                0 <= k < i + 1 && self.items_deep()[k] == iv && admits(
                                    iv,
                                    tags@,
                                    before,
                                    after,
                                );
                            assert(k < i);
                        }
                    }
                }
            }
            i += 1;
        }
        let out = sort_items(&picked);
        if out.is_empty() {
            proof {
                assert forall|id: u64|
                    #[trigger] self@.dom().contains(id) implies !admits(
                    self@[id],
                    tags@,
                    before,
                    after,
                ) by {
                    if admits(self@[id], tags@, before, after) {
                        let k = choose|k: int|
                            0 <= k < self.items_deep().len() && self.items_deep()[k].id == id;
                        assert(self@.contains_pair(id, self.items_deep()[k]));
                        assert(picked.deep_view().contains(self.items_deep()[k]));
                        let k2 = choose|k2: int|
                            0 <= k2 < picked.deep_view().len() && picked.deep_view()[k2]
                                == self.items_deep()[k];
                        assert(out.deep_view().contains(picked.deep_view()[k2]));
                    }
                }
            }
            Err(SelectError::NotFound)
        } else {
            proof {
                assert(out.deep_view().contains(out.deep_view()[0]));
                assert(picked.deep_view().contains(out.deep_view()[0]));
                let k2 = choose|k2: int|
                    0 <= k2 < i && self.items_deep()[k2] == out.deep_view()[0] && admits(
                        out.deep_view()[0],
                        tags@,
                        before,
                        after,
                    );
                assert(self@.contains_pair(self.items_deep()[k2].id, self.items_deep()[k2]));
                assert(exists|id: u64| #[trigger] self@.dom().contains(id) && admits(
                    self@[id],
                    tags@,
                    before,
                    after,
                ));
                assert forall|iv: ItemView| #[trigger] out.deep_view().contains(iv) <==> (
                self@.dom().contains(iv.id) && self@[iv.id] == iv && admits(
                    iv,
                    tags@,
                    before,
                    after,
                )) by {
                    if out.deep_view().contains(iv) {
                        assert(picked.deep_view().contains(iv));
                        let kb = choose|kb: int|
                            0 <= kb < i && self.items_deep()[kb] == iv && admits(
                                iv,
                                tags@,
                                before,
                                after,
                            );
                        assert(self@.contains_pair(iv.id, iv));
                    }
                    if self@.dom().contains(iv.id) && self@[iv.id] == iv && admits(
                        iv,
                        tags@,
                        before,
                        after,
                    ) {
                        let kc = choose|kc: int|
                            0 <= kc < self.items_deep().len() && self.items_deep()[kc].id == iv.id;
                        assert(self@.contains_pair(iv.id, self.items_deep()[kc]));
                        assert(self.items_deep()[kc] == iv);
                        assert(picked.deep_view().contains(iv));
                        assert(out.deep_view().contains(iv));
                    }
                }
                assert forall|a: int, b: int|
                    0 <= a < b < out.deep_view().len() implies out.deep_view()[a].id
                        != out.deep_view()[b].id by {
                    let va = out.deep_view()[a];
                    let vb = out.deep_view()[b];
                    assert(out.deep_view().contains(va));
                    assert(out.deep_view().contains(vb));
                    if va.id == vb.id {
                        assert(self@[va.id] == va && self@[vb.id] == vb);
                        assert(va == vb);
                        assert(va != vb);
                    }
                }
            }
            Ok(out)
        }
    }
}

} // verus!
