//! Items and their content-derived identity.
//!
//! An item's numeric ID is a deterministic hash of its summary, content and
//! deadline (the priority is deliberately left out of the hash), so two items
//! with identical content collide by design. The hash is a 64-bit FNV-1a fold
//! over the characters of both strings, a separator word between fields, and
//! the deadline, as `item_id_of` spells out.

use vstd::prelude::*;
use vstd::string::StrSliceExecFns;

use crate::priority::Priority;
use crate::tag::TagSet;

verus! {

/// FNV-1a 64-bit offset basis.
pub const FNV_OFFSET: u64 = 0xcbf2_9ce4_8422_2325;

/// FNV-1a 64-bit prime.
pub const FNV_PRIME: u64 = 0x0000_0100_0000_01b3;

/// Separator mixed between hashed fields; not a valid character code point,
/// so fields cannot run into each other.
pub const FIELD_SEP: u64 = 0xffff_ffff_ffff_ffff;

/// One FNV-1a absorption step: xor a word into the state, multiply by the
/// prime modulo 2^64.
pub open spec fn fnv_step(h: u64, w: u64) -> u64 {
    (h ^ w).wrapping_mul(FNV_PRIME)
}

/// Absorbs a character sequence, one character per step, front to back.
pub open spec fn fnv_fold(h: u64, s: Seq<char>) -> u64
    decreases s.len(),
{
    if s.len() == 0 {
        h
    } else {
        fnv_fold(fnv_step(h, s[0] as u64), s.drop_first())
    }
}

/// The content-derived identity of an item: a hash of summary, content and
/// deadline. The priority does not participate.
pub open spec fn item_id_of(summary: Seq<char>, content: Seq<char>, deadline: i64) -> u64 {
    fnv_step(fnv_fold(fnv_step(fnv_fold(FNV_OFFSET, summary), FIELD_SEP), content), deadline as u64)
}

/// The mathematical content of an [`Item`]; every contract over items speaks
/// of this view.
pub struct ItemView {
    pub id: u64,
    pub summary: Seq<char>,
    pub content: Seq<char>,
    pub deadline: i64,
    pub tags: Set<Seq<char>>,
    pub priority: int,
}

/// A tracked task: a summary line, a longer content text, a deadline
/// timestamp in seconds, a set of tags and a bounded priority, identified by
/// the content-derived hash of `(summary, content, deadline)`.
#[derive(Debug, PartialEq, Eq)]
pub struct Item {
    id: u64,
    summary: String,
    content: String,
    deadline: i64,
    tags: TagSet,
    priority: Priority,
}

impl View for Item {
    type V = ItemView;

    closed spec fn view(&self) -> ItemView {
        ItemView {
            id: self.id,
            summary: self.summary@,
            content: self.content@,
            deadline: self.deadline,
            tags: self.tags@,
            priority: self.priority.spec_value() as int,
        }
    }
}

impl DeepView for Item {
    type V = ItemView;

    open spec fn deep_view(&self) -> ItemView {
        self.view()
    }
}

/// One FNV-1a step, executable.
fn fnv_mix(h: u64, w: u64) -> (r: u64)
    ensures
        r == fnv_step(h, w),
{
    (h ^ w).wrapping_mul(FNV_PRIME)
}

/// Absorbs a whole string, character by character.
fn fnv_mix_str(h0: u64, s: &str) -> (r: u64)
    ensures
        r == fnv_fold(h0, s@),
{
    let n = s.unicode_len();
    let mut h = h0;
    let mut i: usize = 0;
    proof {
        assert(s@.skip(0) =~= s@);
    }
    while i < n
        invariant
            n == s@.len(),
            i <= n,
            fnv_fold(h, s@.skip(i as int)) == fnv_fold(h0, s@),
        decreases n - i,
    {
        let c = s.get_char(i);
        proof {
            let rest = s@.skip(i as int);
            assert(rest[0] == s@[i as int]);
            assert(rest.drop_first() =~= s@.skip(i as int + 1));
        }
        h = fnv_mix(h, c as u64);
        i += 1;
    }
    proof {
        assert(s@.skip(n as int) =~= Seq::<char>::empty());
    }
    h
}

impl Item {
    /// Validity: tags are duplicate-free, the priority is in range, the
    /// stored ID is the content-derived hash, and the view's tag set is the
    /// stored tag set's.
    pub open spec fn wf(self) -> bool {
        &&& self.spec_tags().wf()
        &&& Priority::MIN <= self@.priority <= Priority::MAX
        &&& self@.id == item_id_of(self@.summary, self@.content, self@.deadline)
        &&& self@.tags == self.spec_tags()@
    }

    /// The stored tag order, needed by contracts that walk tags one by one.
    pub closed spec fn tags_seq(self) -> Seq<Seq<char>> {
        self.tags.seq()
    }

    /// Builds an item; the ID is derived from summary, content and deadline.
    pub fn new(summary: &str, content: &str, deadline: i64, tags: TagSet, priority: Priority) -> (r:
        Item)
        requires
            tags.wf(),
            priority.wf(),
        ensures
            r.wf(),
            r@ == (ItemView {
                id: item_id_of(summary@, content@, deadline),
                summary: summary@,
                content: content@,
                deadline: deadline,
                tags: tags@,
                priority: priority.spec_value() as int,
            }),
    {
        let h = fnv_mix_str(FNV_OFFSET, summary);
        let h = fnv_mix(h, FIELD_SEP);
        let h = fnv_mix_str(h, content);
        let id = fnv_mix(h, #[verifier::truncate] (deadline as u64));
        Item {
            id,
            summary: summary.to_owned(),
            content: content.to_owned(),
            deadline,
            tags,
            priority,
        }
    }

    /// The content-derived numeric identity.
    pub fn id(&self) -> (r: u64)
        ensures
            r == self@.id,
    {
        self.id
    }

    /// The summary line.
    pub fn summary(&self) -> (r: &str)
        ensures
            r@ == self@.summary,
    {
        self.summary.as_str()
    }

    /// The content text.
    pub fn content(&self) -> (r: &str)
        ensures
            r@ == self@.content,
    {
        self.content.as_str()
    }

    /// The deadline timestamp, in seconds.
    pub fn deadline(&self) -> (r: i64)
        ensures
            r == self@.deadline,
    {
        self.deadline
    }

    /// Attaches a tag; reports whether it was actually new.
    pub fn add_tag(&mut self, tag: String) -> (added: bool)
        requires
            old(self).wf(),
        ensures
            final(self).wf(),
            added == !old(self)@.tags.contains(tag@),
            final(self)@ == (ItemView { tags: old(self)@.tags.insert(tag@), ..old(self)@ }),
    {
        self.tags.insert(tag)
    }

    /// Detaches a tag; reports whether it was actually present.
    pub fn remove_tag(&mut self, tag: &String) -> (removed: bool)
        requires
            old(self).wf(),
        ensures
            final(self).wf(),
            removed == old(self)@.tags.contains(tag@),
            final(self)@ == (ItemView { tags: old(self)@.tags.remove(tag@), ..old(self)@ }),
    {
        self.tags.remove(tag)
    }

    /// Whether the given tag is attached.
    pub fn find_tag(&self, tag: &String) -> (r: bool)
        ensures
            r == self@.tags.contains(tag@),
    {
        self.tags.contains(tag)
    }

    /// The attached tags.
    pub fn tags(&self) -> (r: &TagSet)
        ensures
            r == self.spec_tags(),
    {
        &self.tags
    }

    /// The stored tag set value, for contracts of [`Item::tags`].
    pub closed spec fn spec_tags(self) -> TagSet {
        self.tags
    }

    /// Whether the deadline has passed at the given time.
    pub fn is_expired(&self, time: i64) -> (r: bool)
        ensures
            r == (time >= self@.deadline),
    {
        time >= self.deadline
    }

    /// The current priority.
    pub fn priority(&self) -> (r: Priority)
        ensures
            r.spec_value() == self@.priority,
            r.wf() <==> Priority::MIN <= self@.priority <= Priority::MAX,
    {
        self.priority
    }

    /// Overwrites the priority.
    pub fn set_priority(&mut self, priority: Priority)
        requires
            old(self).wf(),
            priority.wf(),
        ensures
            final(self).wf(),
            final(self)@ == (ItemView {
                priority: priority.spec_value() as int,
                ..old(self)@
            }),
    {
        self.priority = priority;
    }
}

impl Clone for Item {
    /// A copy with the same view.
    fn clone(&self) -> (r: Self)
        ensures
            r@ == self@,
            r.tags_seq() == self.tags_seq(),
            r.wf() <==> self.wf(),
    {
        Item {
            id: self.id,
            summary: self.summary.clone(),
            content: self.content.clone(),
            deadline: self.deadline,
            tags: self.tags.clone(),
            priority: self.priority,
        }
    }
}

/// Lexicographic order on character sequences, by code point.
pub open spec fn lex_le(a: Seq<char>, b: Seq<char>) -> bool
    decreases a.len(),
{
    if a.len() == 0 {
        true
    } else if b.len() == 0 {
        false
    } else if (a[0] as u32) < (b[0] as u32) {
        true
    } else if (a[0] as u32) > (b[0] as u32) {
        false
    } else {
        lex_le(a.drop_first(), b.drop_first())
    }
}

/// The listing order on items: deadline ascending, then priority descending,
/// then summary ascending.
pub open spec fn item_le(a: ItemView, b: ItemView) -> bool {
    ||| a.deadline < b.deadline
    ||| (a.deadline == b.deadline && a.priority > b.priority)
    ||| (a.deadline == b.deadline && a.priority == b.priority && lex_le(a.summary, b.summary))
}

/// `lex_le` relates every pair, one way or the other.
pub proof fn lemma_lex_le_total(a: Seq<char>, b: Seq<char>)
    ensures
        lex_le(a, b) || lex_le(b, a),
    decreases a.len(),
{
    if a.len() != 0 && b.len() != 0 && a[0] as u32 == b[0] as u32 {
        lemma_lex_le_total(a.drop_first(), b.drop_first());
    }
}

/// `lex_le` is transitive.
pub proof fn lemma_lex_le_trans(a: Seq<char>, b: Seq<char>, c: Seq<char>)
    requires
        lex_le(a, b),
        lex_le(b, c),
    ensures
        lex_le(a, c),
    decreases a.len(),
{
    if a.len() != 0 && b.len() != 0 && c.len() != 0 && a[0] as u32 == b[0] as u32 && b[0] as u32
        == c[0] as u32 {
        lemma_lex_le_trans(a.drop_first(), b.drop_first(), c.drop_first());
    }
}

/// `item_le` relates every pair, one way or the other.
pub proof fn lemma_item_le_total(a: ItemView, b: ItemView)
    ensures
        item_le(a, b) || item_le(b, a),
{
    lemma_lex_le_total(a.summary, b.summary);
}

/// `item_le` is transitive.
pub proof fn lemma_item_le_trans(a: ItemView, b: ItemView, c: ItemView)
    requires
        item_le(a, b),
        item_le(b, c),
    ensures
        item_le(a, c),
{
    if a.deadline == b.deadline && b.deadline == c.deadline && a.priority == b.priority
        && b.priority == c.priority {
        lemma_lex_le_trans(a.summary, b.summary, c.summary);
    }
}

/// Lexicographic comparison of two strings, executable.
fn str_le(a: &str, b: &str) -> (r: bool)
    ensures
        r == lex_le(a@, b@),
{
    let la = a.unicode_len();
    let lb = b.unicode_len();
    let mut i: usize = 0;
    proof {
        assert(a@.skip(0) =~= a@);
        assert(b@.skip(0) =~= b@);
    }
    loop
        invariant
            la == a@.len(),
            lb == b@.len(),
            i <= la,
            i <= lb,
            lex_le(a@, b@) == lex_le(a@.skip(i as int), b@.skip(i as int)),
        decreases la - i,
    {
        proof {
            let ra = a@.skip(i as int);
            let rb = b@.skip(i as int);
            if i < la && i < lb {
                assert(ra[0] == a@[i as int]);
                assert(rb[0] == b@[i as int]);
                assert(ra.drop_first() =~= a@.skip(i as int + 1));
                assert(rb.drop_first() =~= b@.skip(i as int + 1));
            }
        }
        if i >= la {
            return true;
        }
        if i >= lb {
            return false;
        }
        let ca = a.get_char(i);
        let cb = b.get_char(i);
        if (ca as u32) < (cb as u32) {
            return true;
        }
        if (ca as u32) > (cb as u32) {
            return false;
        }
        i += 1;
    }
}

/// Whether `a` comes no later than `b` in the listing order.
pub fn item_le_exec(a: &Item, b: &Item) -> (r: bool)
    ensures
        r == item_le(a@, b@),
{
    let da = a.deadline();
    let db = b.deadline();
    if da < db {
        true
    } else if da > db {
        false
    } else {
        let pa = a.priority().value();
        let pb = b.priority().value();
        if pa > pb {
            true
        } else if pa < pb {
            false
        } else {
            str_le(a.summary(), b.summary())
        }
    }
}

} // verus!
