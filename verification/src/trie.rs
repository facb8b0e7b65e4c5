//! A radix-10 trie over the decimal digits of unsigned 64-bit IDs.
//!
//! The trie maintains the set of live IDs and answers prefix/completion
//! queries: a query resolves a short numeric prefix to the unique live ID
//! extending it, to the full list of extensions, or to nothing. Each node
//! keeps a count of the values stored in its subtree, used to prune branches
//! that become empty.

use vstd::prelude::*;

verus! {

/// The decimal digits of `n`, most significant first; zero is the single
/// digit `[0]`. Nonzero numbers never start with a zero digit.
pub open spec fn digits_of(n: nat) -> Seq<u8>
    decreases n,
{
    if n < 10 {
        seq![n as u8]
    } else {
        digits_of((n / 10) as nat).push((n % 10) as u8)
    }
}

/// The number a digit sequence denotes, most significant digit first.
pub open spec fn digit_value(s: Seq<u8>) -> int
    decreases s.len(),
{
    if s.len() == 0 {
        0
    } else {
        digit_value(s.drop_last()) * 10 + s.last()
    }
}

/// Whether `p` is a prefix of `s`.
pub open spec fn is_prefix(p: Seq<u8>, s: Seq<u8>) -> bool {
    p.len() <= s.len() && p == s.subrange(0, p.len() as int)
}

/// A digit sequence that decodes a `u64`: nonempty, digits below ten, no
/// leading zero except for `[0]` itself, and a value within `u64` range.
pub open spec fn canonical(s: Seq<u8>) -> bool {
    &&& s.len() > 0
    &&& (forall|i: int| 0 <= i < s.len() ==> s[i] < 10)
    &&& (s.len() > 1 ==> s[0] != 0)
    &&& digit_value(s) <= u64::MAX
}

/// Digit values are nonnegative.
pub proof fn lemma_digit_value_nonneg(s: Seq<u8>)
    ensures
        digit_value(s) >= 0,
    decreases s.len(),
{
    if s.len() > 0 {
        lemma_digit_value_nonneg(s.drop_last());
    }
}

/// A prefix never denotes more than the whole sequence.
pub proof fn lemma_digit_value_prefix_le(s: Seq<u8>, k: int)
    requires
        0 <= k <= s.len(),
    ensures
        digit_value(s.subrange(0, k)) <= digit_value(s),
    decreases s.len() - k,
{
    if k == s.len() {
        assert(s.subrange(0, k) =~= s);
    } else {
        let t = s.subrange(0, k + 1);
        assert(t.drop_last() =~= s.subrange(0, k));
        lemma_digit_value_nonneg(s.subrange(0, k));
        assert(digit_value(s.subrange(0, k)) <= digit_value(t));
        lemma_digit_value_prefix_le(s, k + 1);
    }
}

/// What `digits_of` yields: the digits of `n`, canonical once `n` fits `u64`.
pub proof fn lemma_digits_of(n: nat)
    ensures
        digits_of(n).len() >= 1,
        forall|i: int| 0 <= i < digits_of(n).len() ==> digits_of(n)[i] < 10,
        digit_value(digits_of(n)) == n,
        n >= 1 ==> digits_of(n)[0] != 0,
        n < 10 <==> digits_of(n).len() == 1,
    decreases n,
{
    if n < 10 {
        let s = digits_of(n);
        assert(s =~= seq![n as u8]);
        assert(s.drop_last() =~= Seq::<u8>::empty());
        assert(digit_value(Seq::<u8>::empty()) == 0);
        assert(s.last() == n as u8);
        assert(digit_value(s) == n);
    } else {
        lemma_digits_of((n / 10) as nat);
        let t = digits_of((n / 10) as nat);
        let s = digits_of(n);
        assert(s == t.push((n % 10) as u8));
        assert(s.drop_last() =~= t);
        assert(s[0] == t[0]);
    }
}

/// `digits_of(n)` is canonical for every `u64` value `n`.
pub proof fn lemma_digits_of_canonical(n: u64)
    ensures
        canonical(digits_of(n as nat)),
        digit_value(digits_of(n as nat)) == n,
{
    lemma_digits_of(n as nat);
}

/// Encoding inverts decoding: a canonical sequence is the digit sequence of
/// its own value.
pub proof fn lemma_digits_of_value(s: Seq<u8>)
    requires
        s.len() > 0,
        forall|i: int| 0 <= i < s.len() ==> s[i] < 10,
        s.len() > 1 ==> s[0] != 0,
    ensures
        digit_value(s) >= 0,
        digits_of(digit_value(s) as nat) == s,
        s.len() > 1 ==> digit_value(s) >= 10,
    decreases s.len(),
{
    lemma_digit_value_nonneg(s);
    if s.len() == 1 {
        assert(digit_value(s) == digit_value(s.drop_last()) * 10 + s.last());
        assert(s.drop_last() =~= Seq::<u8>::empty());
        assert(digit_value(Seq::<u8>::empty()) == 0);
        assert(digit_value(s) == s[0]);
        assert(digits_of(digit_value(s) as nat) =~= s);
    } else {
        let t = s.drop_last();
        lemma_digits_of_value(t);
        let v = digit_value(s);
        let vt = digit_value(t);
        assert(v == vt * 10 + s.last());
        if t.len() == 1 {
            assert(t.drop_last() =~= Seq::<u8>::empty());
            assert(digit_value(Seq::<u8>::empty()) == 0);
            assert(vt == t[0]);
            assert(t[0] >= 1);
        }
        assert(vt >= 1);
        assert(v >= 10);
        assert(v / 10 == vt && v % 10 == s.last()) by {
            assert(0 <= s.last() < 10);
        }
        assert(digits_of(v as nat) == digits_of(vt as nat).push(s.last()));
        assert(digits_of(vt as nat) == t);
        assert(t.push(s.last()) =~= s);
    }
}

/// Distinct canonical sequences denote distinct values.
pub proof fn lemma_canonical_injective(s: Seq<u8>, t: Seq<u8>)
    requires
        canonical(s),
        canonical(t),
        s != t,
    ensures
        digit_value(s) != digit_value(t),
{
    lemma_digits_of_value(s);
    lemma_digits_of_value(t);
}


/// The digit order on sequences: a proper prefix comes first; otherwise the
/// first diverging digit decides. This is the order in which a depth-first
/// walk of the trie meets its stored sequences.
pub open spec fn digits_lt(a: Seq<u8>, b: Seq<u8>) -> bool
    decreases a.len(),
{
    if a.len() == 0 {
        b.len() > 0
    } else if b.len() == 0 {
        false
    } else if a[0] < b[0] {
        true
    } else if a[0] > b[0] {
        false
    } else {
        digits_lt(a.drop_first(), b.drop_first())
    }
}

/// The digit order is transitive.
pub proof fn lemma_digits_lt_trans(a: Seq<u8>, b: Seq<u8>, c: Seq<u8>)
    requires
        digits_lt(a, b),
        digits_lt(b, c),
    ensures
        digits_lt(a, c),
    decreases a.len(),
{
    if a.len() != 0 && b.len() != 0 && c.len() != 0 && a[0] == b[0] && b[0] == c[0] {
        lemma_digits_lt_trans(a.drop_first(), b.drop_first(), c.drop_first());
    }
}

/// A common prefix does not affect the digit order.
pub proof fn lemma_digits_lt_prefix(p: Seq<u8>, a: Seq<u8>, b: Seq<u8>)
    ensures
        digits_lt(p + a, p + b) == digits_lt(a, b),
    decreases p.len(),
{
    if p.len() == 0 {
        assert(p + a =~= a);
        assert(p + b =~= b);
    } else {
        assert((p + a)[0] == p[0] && (p + b)[0] == p[0]);
        assert((p + a).drop_first() =~= p.drop_first() + a);
        assert((p + b).drop_first() =~= p.drop_first() + b);
        lemma_digits_lt_prefix(p.drop_first(), a, b);
    }
}

/// A row of values sorted by the digit order of their decimal digits.
pub open spec fn digit_sorted(v: Seq<u64>) -> bool {
    forall|a: int, b: int|
        0 <= a < b < v.len() ==> digits_lt(
            digits_of(#[trigger] v[a] as nat),
            digits_of(#[trigger] v[b] as nat),
        )
}

/// Appends the decimal digits of `num` to `out`.
fn push_digits(num: u64, out: &mut Vec<u8>)
    ensures
        final(out)@ == old(out)@ + digits_of(num as nat),
    decreases num,
{
    if num < 10 {
        out.push(num as u8);
        proof {
            assert(out@ =~= old(out)@ + digits_of(num as nat));
        }
    } else {
        push_digits(num / 10, out);
        out.push((num % 10) as u8);
        proof {
            assert(out@ =~= old(out)@ + digits_of(num as nat));
        }
    }
}

/// The decimal digits of `num`, most significant first.
fn split(num: u64) -> (digits: Vec<u8>)
    ensures
        digits@ == digits_of(num as nat),
{
    let mut digits: Vec<u8> = Vec::new();
    push_digits(num, &mut digits);
    proof {
        assert(Seq::<u8>::empty() + digits_of(num as nat) =~= digits_of(num as nat));
    }
    digits
}

/// Folds a digit stack back into the number it spells.
fn digit_concat(digits: &Vec<u8>) -> (r: u64)
    requires
        canonical(digits@),
    ensures
        r as int == digit_value(digits@),
{
    let n = digits.len();
    let mut acc: u64 = 0;
    let mut i: usize = 0;
    proof {
        assert(digits@.subrange(0, 0) =~= Seq::<u8>::empty());
    }
    while i < n
        invariant
            canonical(digits@),
            n == digits@.len(),
            i <= n,
            acc as int == digit_value(digits@.subrange(0, i as int)),
        decreases n - i,
    {
        proof {
            let t = digits@.subrange(0, i as int + 1);
            assert(t.drop_last() =~= digits@.subrange(0, i as int));
            assert(t.last() == digits@[i as int]);
            lemma_digit_value_prefix_le(digits@, i as int + 1);
            lemma_digit_value_nonneg(digits@.subrange(0, i as int));
        }
        acc = acc * 10 + (digits[i] as u64);
        i += 1;
    }
    proof {
        assert(digits@.subrange(0, n as int) =~= digits@);
    }
    acc
}

/// One trie node: up to ten children, one per digit, a mark that a value
/// ends here, and the number of values stored in this subtree.
struct Node {
    children: Vec<Option<Box<Node>>>,
    end: bool,
    count: usize,
}

/// The number of values in an optional subtree.
spec fn opt_size(o: Option<Box<Node>>) -> nat
    decreases o,
{
    match o {
        None => 0,
        Some(c) => c.size(),
    }
}

/// The number of values stored under a row of child slots.
spec fn seq_size(children: Seq<Option<Box<Node>>>) -> nat
    decreases children,
    via seq_size_dec
{
    if children.len() == 0 {
        0
    } else {
        seq_size(children.drop_last()) + opt_size(children.last())
    }
}

#[via_fn]
proof fn seq_size_dec(children: Seq<Option<Box<Node>>>) {
    if children.len() != 0 {
        assert(decreases_to!(children => children[children.len() - 1]));
        assert(decreases_to!(children => children.drop_last()));
    }
}

impl Node {
    /// The number of values stored in this subtree.
    spec fn size(self) -> nat
        decreases self,
        via Self::size_dec
    {
        (if self.end {
            1nat
        } else {
            0nat
        }) + seq_size(self.children@)
    }

    #[via_fn]
    proof fn size_dec(self) {
        assert(decreases_to!(self => self.children));
        assert(decreases_to!(self.children => self.children@));
    }

    /// Whether the digit sequence `s` is stored in this subtree.
    spec fn contains_digits(self, s: Seq<u8>) -> bool
        decreases self,
        via Self::contains_digits_dec
    {
        if s.len() == 0 {
            self.end
        } else if s[0] < 10 && self.children@.len() == 10 {
            match self.children@[s[0] as int] {
                None => false,
                Some(c) => c.contains_digits(s.drop_first()),
            }
        } else {
            false
        }
    }

    #[via_fn]
    proof fn contains_digits_dec(self, s: Seq<u8>) {
        if s.len() != 0 && s[0] < 10 && self.children@.len() == 10 {
            assert(decreases_to!(self => self.children));
            assert(decreases_to!(self.children => self.children@));
            assert(decreases_to!(self.children@ => self.children@[s[0] as int]));
        }
    }

    /// Structural validity: exactly ten child slots, an exact subtree count,
    /// and no child that is present yet empty (empty branches are pruned).
    spec fn wf(self) -> bool
        decreases self,
        via Self::wf_dec
    {
        &&& self.children@.len() == 10
        &&& self.count == self.size()
        &&& (forall|d: int| 0 <= d < 10 ==> Node::child_ok(#[trigger] self.children@[d]))
    }

    #[via_fn]
    proof fn wf_dec(self) {
        if self.children@.len() == 10 {
            assert(decreases_to!(self => self.children));
            assert(decreases_to!(self.children => self.children@));
            assert forall|d: int| 0 <= d < 10 implies decreases_to!(
                self.children@ => self.children@[d],
            ) by {}
        }
    }

    /// Validity of one child slot.
    spec fn child_ok(o: Option<Box<Node>>) -> bool
        decreases o,
    {
        match o {
            None => true,
            Some(c) => c.wf() && c.size() > 0,
        }
    }

    /// The end mark, exposed for proofs inside this module.
    spec fn end_spec(self) -> bool {
        self.end
    }

    /// A fresh node: no children, no mark, count zero.
    fn new() -> (r: Node)
        ensures
            r.wf(),
            r.size() == 0,
            !r.end_spec(),
            forall|s: Seq<u8>| !r.contains_digits(s),
    {
        let mut children: Vec<Option<Box<Node>>> = Vec::new();
        let mut i: usize = 0;
        while i < 10
            invariant
                i <= 10,
                children@.len() == i,
                forall|d: int| 0 <= d < i ==> children@[d] is None,
            decreases 10 - i,
        {
            children.push(None);
            i += 1;
        }
        let r = Node { children, end: false, count: 0 };
        proof {
            lemma_seq_size_all_none(r.children@);
            assert forall|s: Seq<u8>| !r.contains_digits(s) by {
                if s.len() != 0 && s[0] < 10 {
                    assert(r.children@[s[0] as int] is None);
                }
            }
        }
        r
    }
}

/// A row of empty child slots stores nothing.
proof fn lemma_seq_size_all_none(children: Seq<Option<Box<Node>>>)
    requires
        forall|d: int| 0 <= d < children.len() ==> children[d] is None,
    ensures
        seq_size(children) == 0,
    decreases children.len(),
{
    if children.len() != 0 {
        lemma_seq_size_all_none(children.drop_last());
        assert(children[children.len() - 1] is None);
        assert(opt_size(children.last()) == 0);
    }
}

/// A child's size never exceeds the row total.
proof fn lemma_seq_size_child_le(children: Seq<Option<Box<Node>>>, d: int)
    requires
        0 <= d < children.len(),
    ensures
        opt_size(children[d]) <= seq_size(children),
    decreases children.len(),
{
    if d < children.len() - 1 {
        lemma_seq_size_child_le(children.drop_last(), d);
    }
}

/// Replacing one child changes the row total by the size difference.
proof fn lemma_seq_size_update(s1: Seq<Option<Box<Node>>>, s2: Seq<Option<Box<Node>>>, d: int)
    requires
        s1.len() == s2.len(),
        0 <= d < s1.len(),
        forall|k: int| 0 <= k < s1.len() && k != d ==> s1[k] == s2[k],
    ensures
        seq_size(s2) + opt_size(s1[d]) == seq_size(s1) + opt_size(s2[d]),
    decreases s1.len(),
{
    if d == s1.len() - 1 {
        assert(s1.drop_last() =~= s2.drop_last());
    } else {
        lemma_seq_size_update(s1.drop_last(), s2.drop_last(), d);
    }
}

/// A stored sequence forces a positive subtree size.
proof fn lemma_contains_size(node: Node, s: Seq<u8>)
    requires
        node.contains_digits(s),
    ensures
        node.size() > 0,
    decreases node,
{
    if s.len() != 0 {
        let d = s[0] as int;
        match node.children@[d] {
            None => {},
            Some(c) => {
                lemma_seq_size_child_le(node.children@, d);
                lemma_contains_size(*c, s.drop_first());
            },
        }
    }
}

/// Inserts the digit suffix `digits[i..]` below `node`; reports whether it
/// was actually new.
#[verifier::rlimit(50)]
fn insert_at(node: &mut Node, digits: &Vec<u8>, i: usize) -> (added: bool)
    requires
        old(node).wf(),
        i <= digits@.len(),
        forall|k: int| 0 <= k < digits@.len() ==> digits@[k] < 10,
        old(node).count < usize::MAX,
    ensures
        final(node).wf(),
        added == !old(node).contains_digits(digits@.skip(i as int)),
        forall|s: Seq<u8>| final(node).contains_digits(s) <==> (old(node).contains_digits(s)
            || s == digits@.skip(i as int)),
        final(node).size() == old(node).size() + (if added {
            1nat
        } else {
            0nat
        }),
        final(node).end_spec() == (old(node).end_spec() || i == digits@.len()),
    decreases digits@.len() - i,
{
    let ghost suffix = digits@.skip(i as int);
    if i == digits.len() {
        if node.end {
            proof {
                assert(suffix =~= Seq::<u8>::empty());
                assert(old(node).contains_digits(suffix));
            }
            false
        } else {
            node.end = true;
            node.count = node.count + 1;
            proof {
                assert(suffix =~= Seq::<u8>::empty());
                assert(node.children@ == old(node).children@);
                assert(node.size() == old(node).size() + 1);
                assert forall|s: Seq<u8>| node.contains_digits(s) <==> (old(
                    node,
                ).contains_digits(s) || s == suffix) by {
                    if s.len() == 0 {
                        assert(s =~= suffix);
                    } else if s[0] < 10 {
                        assert(node.children@[s[0] as int] == old(node).children@[s[0] as int]);
                        assert(s != suffix);
                    } else {
                        assert(s != suffix);
                    }
                }
            }
            true
        }
    } else {
        let d_u8 = digits[i];
        let d: usize = d_u8 as usize;
        proof {
            assert(digits@[i as int] < 10);
        }
        let taken = node.children.remove(d);
        let ghost pre_child = old(node).children@[d as int];
        let mut boxed: Box<Node> = match taken {
            Some(b) => b,
            None => Box::new(Node::new()),
        };
        let ghost child0 = *boxed;
        proof {
            if pre_child is Some {
                assert(Node::child_ok(old(node).children@[d as int]));
                lemma_seq_size_child_le(old(node).children@, d as int);
                assert(child0.size() <= old(node).size());
            }
        }
        let added = insert_at(&mut *boxed, digits, i + 1);
        node.children.insert(d, Some(boxed));
        if added {
            node.count = node.count + 1;
        }
        proof {
            let pre = old(node).children@;
            let post = node.children@;
            let child1 = node.children@[d as int]->0;
            pre.remove_ensures(d as int);
            pre.remove(d as int).insert_ensures(d as int, Some(child1));
            assert(post =~= pre.update(d as int, Some(child1)));
            lemma_seq_size_update(pre, post, d as int);
            assert(opt_size(post[d as int]) == opt_size(pre_child) + (if added {
                1nat
            } else {
                0nat
            }));
            assert(node.size() == old(node).size() + (if added {
                1nat
            } else {
                0nat
            }));
            // the suffix here starts with digit d and continues with the rest
            assert(suffix[0] == d_u8);
            assert(suffix.drop_first() =~= digits@.skip(i as int + 1));
            // membership is unchanged outside digit d and tracks the child on d
            assert forall|s: Seq<u8>| node.contains_digits(s) <==> (old(node).contains_digits(s)
                || s == suffix) by {
                if s.len() == 0 {
                    assert(node.end_spec() == old(node).end_spec());
                    assert(s != suffix);
                } else if s[0] < 10 {
                    let d2 = s[0] as int;
                    if d2 == d as int {
                        assert(node.children@[d2] == Some(child1));
                        assert(child1.contains_digits(s.drop_first()) <==> (
                        child0.contains_digits(s.drop_first()) || s.drop_first()
                            == digits@.skip(i as int + 1)));
                        if pre_child is None {
                            assert(!child0.contains_digits(s.drop_first()));
                            assert(!old(node).contains_digits(s));
                        } else {
                            assert(old(node).contains_digits(s) == child0.contains_digits(
                                s.drop_first(),
                            ));
                        }
                        if s.drop_first() == digits@.skip(i as int + 1) && s[0] == d_u8 {
                            assert forall|k: int| 0 <= k < s.len() implies s[k] == suffix[k] by {
                                if k > 0 {
                                    assert(s[k] == s.drop_first()[k - 1]);
                                    assert(suffix[k] == suffix.drop_first()[k - 1]);
                                }
                            }
                            assert(s =~= suffix);
                        }
                        if s == suffix {
                            assert(s.drop_first() == digits@.skip(i as int + 1));
                        }
                    } else {
                        assert(node.children@[d2] == old(node).children@[d2]);
                        if s == suffix {
                            assert(s[0] == suffix[0]);
                        }
                        assert(s != suffix);
                    }
                } else {
                    assert(s != suffix);
                }
            }
            // the inserted suffix was present before exactly when the child had it
            if pre_child is None {
                assert(!old(node).contains_digits(suffix));
            } else {
                assert(old(node).contains_digits(suffix) == child0.contains_digits(
                    suffix.drop_first(),
                ));
            }
            // well-formedness: counts match and every child slot is valid
            assert forall|k: int| 0 <= k < 10 implies Node::child_ok(
                #[trigger] node.children@[k],
            ) by {
                if k != d as int {
                    assert(node.children@[k] == old(node).children@[k]);
                    assert(Node::child_ok(old(node).children@[k]));
                } else {
                    assert(child1.size() > 0);
                }
            }
            assert(node.wf());
        }
        added
    }
}

/// Removes the digit suffix `digits[i..]` below `node`, pruning any branch
/// that becomes empty; reports whether a value was actually removed.
#[verifier::rlimit(50)]
fn remove_at(node: &mut Node, digits: &Vec<u8>, i: usize) -> (removed: bool)
    requires
        old(node).wf(),
        i <= digits@.len(),
        forall|k: int| 0 <= k < digits@.len() ==> digits@[k] < 10,
    ensures
        final(node).wf(),
        removed == old(node).contains_digits(digits@.skip(i as int)),
        forall|s: Seq<u8>| final(node).contains_digits(s) <==> (old(node).contains_digits(s) && s
            != digits@.skip(i as int)),
        final(node).size() + (if removed {
            1nat
        } else {
            0nat
        }) == old(node).size(),
    decreases digits@.len() - i,
{
    let ghost suffix = digits@.skip(i as int);
    if i == digits.len() {
        if node.end {
            proof {
                assert(suffix =~= Seq::<u8>::empty());
                assert(old(node).contains_digits(suffix));
            }
            node.end = false;
            node.count = node.count - 1;
            proof {
                assert(node.children@ == old(node).children@);
                assert(node.size() + 1 == old(node).size());
                assert forall|s: Seq<u8>| node.contains_digits(s) <==> (old(
                    node,
                ).contains_digits(s) && s != suffix) by {
                    if s.len() == 0 {
                        assert(s =~= suffix);
                    } else if s[0] < 10 {
                        assert(node.children@[s[0] as int] == old(node).children@[s[0] as int]);
                        assert(s != suffix);
                    } else {
                        assert(s != suffix);
                    }
                }
            }
            true
        } else {
            proof {
                assert(suffix =~= Seq::<u8>::empty());
                assert(!old(node).contains_digits(suffix));
                assert forall|s: Seq<u8>| node.contains_digits(s) <==> (old(
                    node,
                ).contains_digits(s) && s != suffix) by {
                    if s.len() == 0 {
                        assert(s =~= suffix);
                    }
                }
            }
            false
        }
    } else {
        let d_u8 = digits[i];
        let d: usize = d_u8 as usize;
        proof {
            assert(digits@[i as int] < 10);
            assert(suffix[0] == d_u8);
            assert(suffix.drop_first() =~= digits@.skip(i as int + 1));
        }
        let taken = node.children.remove(d);
        match taken {
            None => {
                node.children.insert(d, None);
                proof {
                    let pre = old(node).children@;
                    pre.remove_ensures(d as int);
                    pre.remove(d as int).insert_ensures(d as int, None);
                    assert(node.children@ =~= pre);
                    assert(node.children@ == pre);
                    assert(pre[d as int] is None);
                    assert(node.size() == old(node).size());
                    assert forall|k: int| 0 <= k < 10 implies Node::child_ok(
                        #[trigger] node.children@[k],
                    ) by {
                        assert(Node::child_ok(old(node).children@[k]));
                    }
                    assert(node.wf());
                    assert(!old(node).contains_digits(suffix));
                    assert forall|s: Seq<u8>| node.contains_digits(s) <==> (old(
                        node,
                    ).contains_digits(s) && s != suffix) by {
                        if s.len() != 0 && s[0] < 10 {
                            assert(node.children@[s[0] as int] == pre[s[0] as int]);
                            if s[0] == d_u8 {
                                assert(!old(node).contains_digits(s));
                                assert(!node.contains_digits(s));
                            }
                        }
                        if s == suffix {
                            assert(!old(node).contains_digits(s));
                        }
                    }
                }
                false
            },
            Some(mut boxed) => {
                let ghost child0 = *boxed;
                proof {
                    assert(Node::child_ok(old(node).children@[d as int]));
                }
                let removed = remove_at(&mut *boxed, digits, i + 1);
                let ghost child1 = boxed;
                let pruned = boxed.count == 0;
                if pruned {
                    node.children.insert(d, None);
                } else {
                    node.children.insert(d, Some(boxed));
                }
                if removed {
                    proof {
                        assert(old(node).contains_digits(suffix));
                        lemma_contains_size(*old(node), suffix);
                    }
                    node.count = node.count - 1;
                }
                proof {
                    let pre = old(node).children@;
                    let post = node.children@;
                    pre.remove_ensures(d as int);
                    if pruned {
                        pre.remove(d as int).insert_ensures(d as int, None::<Box<Node>>);
                        assert(post =~= pre.update(d as int, None));
                        assert(child1.size() == 0);
                        assert(opt_size(post[d as int]) == 0);
                    } else {
                        pre.remove(d as int).insert_ensures(d as int, Some(child1));
                        assert(post =~= pre.update(d as int, Some(child1)));
                        assert(opt_size(post[d as int]) == child1.size());
                    }
                    lemma_seq_size_update(pre, post, d as int);
                    assert(child0.size() == opt_size(pre[d as int]));
                    assert(child1.size() + (if removed {
                        1nat
                    } else {
                        0nat
                    }) == child0.size());
                    assert(node.size() + (if removed {
                        1nat
                    } else {
                        0nat
                    }) == old(node).size());
                    assert(old(node).contains_digits(suffix) == child0.contains_digits(
                        suffix.drop_first(),
                    ));
                    assert forall|s: Seq<u8>| node.contains_digits(s) <==> (old(
                        node,
                    ).contains_digits(s) && s != suffix) by {
                        if s.len() == 0 {
                            assert(node.end_spec() == old(node).end_spec());
                            assert(s != suffix);
                        } else if s[0] < 10 {
                            let d2 = s[0] as int;
                            if d2 == d as int {
                                assert(old(node).contains_digits(s) == child0.contains_digits(
                                    s.drop_first(),
                                ));
                                assert(child1.contains_digits(s.drop_first()) <==> (
                                child0.contains_digits(s.drop_first()) && s.drop_first()
                                    != digits@.skip(i as int + 1)));
                                if s.drop_first() == digits@.skip(i as int + 1) && s[0] == d_u8 {
                                    assert forall|k: int| 0 <= k < s.len() implies s[k]
                                        == suffix[k] by {
                                        if k > 0 {
                                            assert(s[k] == s.drop_first()[k - 1]);
                                            assert(suffix[k] == suffix.drop_first()[k - 1]);
                                        }
                                    }
                                    assert(s =~= suffix);
                                }
                                if s == suffix {
                                    assert(s.drop_first() == digits@.skip(i as int + 1));
                                }
                                if pruned {
                                    assert(!child1.contains_digits(s.drop_first())) by {
                                        if child1.contains_digits(s.drop_first()) {
                                            lemma_contains_size(*child1, s.drop_first());
                                        }
                                    }
                                    assert(!node.contains_digits(s)) by {
                                        assert(node.children@[d2] is None);
                                    }
                                    if child0.contains_digits(s.drop_first()) && s.drop_first()
                                        != digits@.skip(i as int + 1) {
                                        assert(child1.contains_digits(s.drop_first()));
                                    }
                                } else {
                                    assert(node.children@[d2] == Some(child1));
                                }
                            } else {
                                assert(node.children@[d2] == old(node).children@[d2]);
                                assert(s != suffix);
                            }
                        } else {
                            assert(s != suffix);
                        }
                    }
                    assert forall|k: int| 0 <= k < 10 implies Node::child_ok(
                        #[trigger] node.children@[k],
                    ) by {
                        if k != d as int {
                            assert(node.children@[k] == old(node).children@[k]);
                            assert(Node::child_ok(old(node).children@[k]));
                        } else {
                            if !pruned {
                                assert(node.children@[k] == Some(child1));
                                assert(child1.count == child1.size());
                                assert(child1.size() > 0);
                            }
                        }
                    }
                    assert(node.wf());
                }
                removed
            },
        }
    }
}

/// Walks the digit path `digits[i..]` down from `node`, yielding the node at
/// its end, if the path exists.
fn find_node<'a>(node: &'a Node, digits: &Vec<u8>, i: usize) -> (r: Option<&'a Node>)
    requires
        node.wf(),
        i <= digits@.len(),
        forall|k: int| 0 <= k < digits@.len() ==> digits@[k] < 10,
    ensures
        match r {
            Some(nd) => nd.wf() && (forall|s: Seq<u8>| #[trigger] nd.contains_digits(s)
                <==> node.contains_digits(digits@.skip(i as int) + s)),
            None => forall|s: Seq<u8>| !node.contains_digits(digits@.skip(i as int) + s),
        },
    decreases digits@.len() - i,
{
    if i == digits.len() {
        proof {
            assert forall|s: Seq<u8>|
                #![trigger node.contains_digits(digits@.skip(i as int) + s)]
                #![trigger node.contains_digits(s)]
                node.contains_digits(s) <==> node.contains_digits(
                digits@.skip(i as int) + s,
            ) by {
                assert(digits@.skip(i as int) + s =~= s);
            }
        }
        Some(node)
    } else {
        let d: usize = digits[i] as usize;
        proof {
            assert(digits@[i as int] < 10);
            assert forall|s: Seq<u8>|
                #![trigger digits@.skip(i as int) + s]
                (digits@.skip(i as int) + s).len() > 0 && (digits@.skip(i as int) + s)[0]
                    == digits@[i as int] && ((digits@.skip(i as int) + s).drop_first()
                    =~= digits@.skip(i as int + 1) + s) by {}
        }
        match &node.children[d] {
            None => {
                proof {
                    assert forall|s: Seq<u8>| !node.contains_digits(
                        digits@.skip(i as int) + s,
                    ) by {
                        assert(node.children@[d as int] is None);
                    }
                }
                None
            },
            Some(c) => {
                let r = find_node(&**c, digits, i + 1);
                proof {
                    assert(Node::child_ok(node.children@[d as int]));
                    assert forall|s: Seq<u8>|
                        #![trigger digits@.skip(i as int) + s]
                        node.contains_digits(digits@.skip(i as int) + s) <==> c.contains_digits(
                            digits@.skip(i as int + 1) + s,
                        ) by {}
                }
                r
            },
        }
    }
}

/// Whether `s` is stored under `node` and spells `n` when appended to
/// `prefix`.
spec fn names_value(node: Node, prefix: Seq<u8>, n: u64, s: Seq<u8>) -> bool {
    node.contains_digits(s) && n as int == digit_value(prefix + s)
}

/// As [`names_value`], restricted to subtrees before child digit `d`.
spec fn names_value_below(node: Node, prefix: Seq<u8>, d: int, n: u64, s: Seq<u8>) -> bool {
    names_value(node, prefix, n, s) && (s.len() == 0 || s[0] < d)
}

/// Depth-first collection of every value stored under `node`: each stored
/// digit sequence, appended to the current stack, is pushed as its number,
/// in digit order.
#[verifier::rlimit(100)]
fn search_at(node: &Node, res: &mut Vec<u64>, stack: &mut Vec<u8>)
    requires
        node.wf(),
        forall|s: Seq<u8>| #[trigger] node.contains_digits(s) ==> canonical(old(stack)@ + s),
        old(res)@.no_duplicates(),
        digit_sorted(old(res)@),
        forall|n: u64| #[trigger] old(res)@.contains(n) ==> !(exists|s: Seq<u8>|
            names_value(*node, old(stack)@, n, s)),
        forall|n: u64, s: Seq<u8>|
            #[trigger] old(res)@.contains(n) && #[trigger] node.contains_digits(s) ==> digits_lt(
                digits_of(n as nat),
                old(stack)@ + s,
            ),
    ensures
        final(stack)@ == old(stack)@,
        final(res)@.no_duplicates(),
        digit_sorted(final(res)@),
        forall|n: u64| #[trigger] final(res)@.contains(n) <==> (old(res)@.contains(n) || (
        exists|s: Seq<u8>| names_value(*node, old(stack)@, n, s))),
    decreases *node,
{
    let ghost prefix = old(stack)@;
    if node.end {
        proof {
            assert(node.contains_digits(Seq::<u8>::empty()));
            assert(prefix + Seq::<u8>::empty() =~= prefix);
            assert(canonical(prefix));
        }
        let v = digit_concat(stack);
        proof {
            assert(names_value(*node, prefix, v, Seq::<u8>::empty()));
            assert(!old(res)@.contains(v));
        }
        res.push(v);
        proof {
            assert(res@ == old(res)@.push(v));
            assert forall|a: int, b: int| 0 <= a < b < res@.len() implies res@[a] != res@[b] by {
                if b < res@.len() - 1 {
                    assert(old(res)@[a] != old(res)@[b]);
                } else {
                    assert(res@[b] == v);
                    assert(old(res)@.contains(old(res)@[a]));
                }
            }
            lemma_digits_of_value(prefix);
            assert(digits_of(v as nat) == prefix);
            assert forall|a: int, b: int| 0 <= a < b < res@.len() implies digits_lt(
                digits_of(#[trigger] res@[a] as nat),
                digits_of(#[trigger] res@[b] as nat),
            ) by {
                if b == res@.len() - 1 {
                    assert(res@[a] == old(res)@[a]);
                    assert(old(res)@.contains(old(res)@[a]));
                    assert(digits_lt(digits_of(res@[a] as nat), prefix + Seq::<u8>::empty()));
                } else {
                    assert(res@[a] == old(res)@[a] && res@[b] == old(res)@[b]);
                }
            }
            assert forall|n: u64| #[trigger] res@.contains(n) <==> (old(res)@.contains(n) || (
            exists|s: Seq<u8>| #[trigger] names_value_below(*node, prefix, 0, n, s))) by {
                if res@.contains(n) && !old(res)@.contains(n) {
                    let k = choose|k: int| 0 <= k < res@.len() && res@[k] == n;
                    if k < res@.len() - 1 {
                        assert(old(res)@.push(v)[k] == old(res)@[k]);
                        assert(old(res)@.contains(n));
                    } else {
                        assert(old(res)@.push(v)[old(res)@.len() as int] == v);
                        assert(n == v);
                        assert(names_value_below(*node, prefix, 0, n, Seq::<u8>::empty()));
                    }
                }
                if old(res)@.contains(n) {
                    let k = choose|k: int| 0 <= k < old(res)@.len() && old(res)@[k] == n;
                    assert(old(res)@.push(v)[k] == old(res)@[k]);
                    assert(res@[k] == n);
                    assert(res@.contains(n));
                }
                if exists|s: Seq<u8>| #[trigger] names_value_below(*node, prefix, 0, n, s) {
                    let s = choose|s: Seq<u8>| #[trigger] names_value_below(
                        *node,
                        prefix,
                        0,
                        n,
                        s,
                    );
                    assert(s.len() == 0);
                    assert(prefix + s =~= prefix);
                    assert(n == v);
                    assert(old(res)@.push(v)[old(res)@.len() as int] == v);
                    assert(res@[res@.len() - 1] == v);
                    assert(res@.contains(n));
                }
            }
        }
    } else {
        proof {
            assert forall|n: u64| #[trigger] res@.contains(n) <==> (old(res)@.contains(n) || (
            exists|s: Seq<u8>| #[trigger] names_value_below(*node, prefix, 0, n, s))) by {
                if exists|s: Seq<u8>| #[trigger] names_value_below(*node, prefix, 0, n, s) {
                    let s = choose|s: Seq<u8>| #[trigger] names_value_below(
                        *node,
                        prefix,
                        0,
                        n,
                        s,
                    );
                    assert(s.len() == 0);
                    assert(!node.contains_digits(s));
                }
            }
        }
    }
    let mut d: usize = 0;
    while d < 10
        invariant
            node.wf(),
            forall|s: Seq<u8>| #[trigger] node.contains_digits(s) ==> canonical(prefix + s),
            forall|n: u64| #[trigger] old(res)@.contains(n) ==> !(exists|s: Seq<u8>|
                names_value(*node, prefix, n, s)),
            stack@ == prefix,
            d <= 10,
            res@.no_duplicates(),
            digit_sorted(res@),
            forall|n: u64, s: Seq<u8>|
                #[trigger] old(res)@.contains(n) && #[trigger] node.contains_digits(s)
                    ==> digits_lt(digits_of(n as nat), prefix + s),
            forall|n: u64| #[trigger] res@.contains(n) <==> (old(res)@.contains(n) || (
            exists|s: Seq<u8>| names_value_below(*node, prefix, d as int, n, s))),
        decreases 10 - d,
    {
        let ghost res_pre = res@;
        match &node.children[d] {
            None => {
                proof {
                    assert(node.children@[d as int] is None);
                    assert forall|n: u64| #[trigger] res@.contains(n) <==> (old(res)@.contains(n)
                        || (exists|s: Seq<u8>|
                        #[trigger] names_value_below(*node, prefix, d as int + 1, n, s))) by {
                        if res@.contains(n) && !old(res)@.contains(n) {
                            let s = choose|s: Seq<u8>|
                                #[trigger] names_value_below(*node, prefix, d as int, n, s);
                            assert(names_value_below(*node, prefix, d as int + 1, n, s));
                        }
                        if exists|s: Seq<u8>|
                            #[trigger] names_value_below(*node, prefix, d as int + 1, n, s) {
                            let s = choose|s: Seq<u8>|
                                #[trigger] names_value_below(*node, prefix, d as int + 1, n, s);
                            if s.len() != 0 && s[0] == d as u8 {
                                assert(!node.contains_digits(s));
                            }
                            assert(names_value_below(*node, prefix, d as int, n, s));
                            assert(res@.contains(n));
                        }
                    }
                }
            },
            Some(c) => {
                proof {
                    assert(Node::child_ok(node.children@[d as int]));
                    assert forall|s: Seq<u8>|
                        #![trigger c.contains_digits(s)]
                        c.contains_digits(s) implies node.contains_digits(
                        seq![d as u8] + s,
                    ) && ((prefix.push(d as u8)) + s =~= prefix + (seq![d as u8] + s)) by {
                        let t = seq![d as u8] + s;
                        assert(t[0] == d as u8);
                        assert(t.drop_first() =~= s);
                    }
                    assert forall|s: Seq<u8>| #[trigger] c.contains_digits(s) implies canonical(
                        prefix.push(d as u8) + s,
                    ) by {
                        assert(node.contains_digits(seq![d as u8] + s));
                    }
                    assert forall|n: u64, s: Seq<u8>|
                        #[trigger] res@.contains(n) && #[trigger] c.contains_digits(s) implies digits_lt(
                        digits_of(n as nat),
                        prefix.push(d as u8) + s,
                    ) by {
                        let t = seq![d as u8] + s;
                        assert(node.contains_digits(t));
                        assert(prefix.push(d as u8) + s =~= prefix + t);
                        if old(res)@.contains(n) {
                            assert(digits_lt(digits_of(n as nat), prefix + t));
                        } else {
                            let s2 = choose|s2: Seq<u8>|
                                #[trigger] names_value_below(*node, prefix, d as int, n, s2);
                            assert(node.contains_digits(s2));
                            assert(canonical(prefix + s2));
                            lemma_digits_of_value(prefix + s2);
                            assert(digits_of(n as nat) == prefix + s2);
                            lemma_digits_lt_prefix(prefix, s2, t);
                            assert(t[0] == d as u8);
                            if s2.len() == 0 {
                                assert(digits_lt(s2, t));
                            } else {
                                assert(s2[0] < d as u8);
                                assert(digits_lt(s2, t));
                            }
                            assert(digits_lt(prefix + s2, prefix + t));
                        }
                    }
                    assert forall|n: u64| #[trigger] res@.contains(n) implies !(exists|s: Seq<u8>|
                        #[trigger] names_value(**c, prefix.push(d as u8), n, s)) by {
                        if exists|s: Seq<u8>| #[trigger] names_value(**c, prefix.push(d as u8), n, s) {
                            let s = choose|s: Seq<u8>| #[trigger] names_value(**c, prefix.push(d as u8), n, s);
                            let t = seq![d as u8] + s;
                            assert(node.contains_digits(t));
                            assert(names_value(*node, prefix, n, t));
                            if old(res)@.contains(n) {
                            } else {
                                let s2 = choose|s2: Seq<u8>|
                                    names_value_below(*node, prefix, d as int, n, s2);
                                assert(canonical(prefix + s2));
                                assert(canonical(prefix + t));
                                assert(prefix + s2 != prefix + t) by {
                                    if s2.len() == 0 {
                                        assert((prefix + s2).len() < (prefix + t).len());
                                    } else {
                                        assert((prefix + s2)[prefix.len() as int] == s2[0]);
                                        assert((prefix + t)[prefix.len() as int] == d as u8);
                                    }
                                }
                                lemma_canonical_injective(prefix + s2, prefix + t);
                            }
                        }
                    }
                }
                stack.push(d as u8);
                search_at(&**c, res, stack);
                stack.pop();
                proof {
                    assert(stack@ =~= prefix);
                    assert forall|n: u64| #[trigger] res@.contains(n) <==> (old(res)@.contains(n)
                        || (exists|s: Seq<u8>|
                        #[trigger] names_value_below(*node, prefix, d as int + 1, n, s))) by {
                        if res@.contains(n) {
                            if res_pre.contains(n) {
                                if !old(res)@.contains(n) {
                                    let s2 = choose|s2: Seq<u8>|
                                        names_value_below(*node, prefix, d as int, n, s2);
                                    assert(names_value_below(*node, prefix, d as int + 1, n, s2));
                                }
                            } else {
                                let s = choose|s: Seq<u8>|
                                    #[trigger] names_value(**c, prefix.push(d as u8), n, s);
                                let t = seq![d as u8] + s;
                                assert(names_value(*node, prefix, n, t));
                                assert(t[0] == d as u8);
                                assert(names_value_below(*node, prefix, d as int + 1, n, t));
                            }
                        } else {
                            if exists|s: Seq<u8>|
                                #[trigger] names_value_below(*node, prefix, d as int + 1, n, s) {
                                let t = choose|t: Seq<u8>|
                                    #[trigger] names_value_below(*node, prefix, d as int + 1, n, t);
                                if t.len() == 0 || t[0] < d as u8 {
                                    assert(names_value_below(*node, prefix, d as int, n, t));
                                    assert(res_pre.contains(n));
                                    assert(res@.contains(n));
                                } else {
                                    assert(t[0] == d as u8);
                                    let s = t.drop_first();
                                    assert(node.contains_digits(t));
                                    assert(c.contains_digits(s));
                                    assert(seq![d as u8] + s =~= t);
                                    assert(names_value(**c, prefix.push(d as u8), n, s));
                                    assert(res@.contains(n));
                                }
                            }
                        }
                    }
                }
            },
        }
        d += 1;
    }
    proof {
        assert forall|n: u64| #[trigger] res@.contains(n) <==> (old(res)@.contains(n) || (
        exists|s: Seq<u8>| names_value(*node, prefix, n, s))) by {
            if res@.contains(n) && !old(res)@.contains(n) {
                let s = choose|s: Seq<u8>| names_value_below(*node, prefix, 10, n, s);
                assert(names_value(*node, prefix, n, s));
            }
            if exists|s: Seq<u8>| names_value(*node, prefix, n, s) {
                let s = choose|s: Seq<u8>| names_value(*node, prefix, n, s);
                assert(node.contains_digits(s));
                if s.len() != 0 {
                    assert(s[0] < 10);
                }
                assert(names_value_below(*node, prefix, 10, n, s));
            }
        }
    }
}

/// The digit trie over live IDs: insertion, removal, and prefix/completion
/// search on the decimal digits of `u64` values.
pub struct Trie {
    root: Node,
}

impl Trie {
    /// Validity: the root is structurally sound and every stored digit
    /// sequence spells a `u64` without leading zeros.
    pub closed spec fn wf(self) -> bool {
        &&& self.root.wf()
        &&& (forall|s: Seq<u8>| #[trigger] self.root.contains_digits(s) ==> canonical(s))
    }

    /// Whether `n` is a live value of the trie.
    pub closed spec fn has(self, n: u64) -> bool {
        self.root.contains_digits(digits_of(n as nat))
    }

    /// How many values are live.
    pub closed spec fn size(self) -> nat {
        self.root.size()
    }

    /// Whether `m` is live and its digits extend the digits of `pattern`.
    pub open spec fn spec_matches(self, pattern: u64, m: u64) -> bool {
        self.has(m) && is_prefix(digits_of(pattern as nat), digits_of(m as nat))
    }

    /// An empty trie.
    pub fn new() -> (r: Trie)
        ensures
            r.wf(),
            r.size() == 0,
            forall|n: u64| !r.has(n),
    {
        Trie { root: Node::new() }
    }

    /// How many values are live.
    pub fn len(&self) -> (r: usize)
        requires
            self.wf(),
        ensures
            r == self.size(),
    {
        self.root.count
    }

    /// Registers a value; reports whether it was actually new. The size
    /// bound is a machine limit: the subtree counter lives in a `usize`.
    pub fn insert(&mut self, num: u64) -> (added: bool)
        requires
            old(self).wf(),
            old(self).size() < usize::MAX,
        ensures
            final(self).wf(),
            added == !old(self).has(num),
            forall|m: u64| final(self).has(m) <==> (old(self).has(m) || m == num),
            final(self).size() == old(self).size() + (if added {
                1nat
            } else {
                0nat
            }),
    {
        let digits = split(num);
        proof {
            lemma_digits_of_canonical(num);
        }
        let added = insert_at(&mut self.root, &digits, 0);
        proof {
            assert(digits@.skip(0) =~= digits_of(num as nat));
            assert forall|m: u64| self.has(m) <==> (old(self).has(m) || m == num) by {
                lemma_digits_of_canonical(m);
                if digits_of(m as nat) == digits_of(num as nat) {
                    assert(m == num);
                }
            }
            assert forall|s: Seq<u8>| #[trigger] self.root.contains_digits(s) implies canonical(
                s,
            ) by {
                if s != digits_of(num as nat) {
                    assert(old(self).root.contains_digits(s));
                }
            }
        }
        added
    }

    /// Retires a value; reports whether it was actually present.
    pub fn remove(&mut self, num: u64) -> (removed: bool)
        requires
            old(self).wf(),
        ensures
            final(self).wf(),
            removed == old(self).has(num),
            forall|m: u64| final(self).has(m) <==> (old(self).has(m) && m != num),
            final(self).size() + (if removed {
                1nat
            } else {
                0nat
            }) == old(self).size(),
    {
        let digits = split(num);
        proof {
            lemma_digits_of_canonical(num);
        }
        let removed = remove_at(&mut self.root, &digits, 0);
        proof {
            assert(digits@.skip(0) =~= digits_of(num as nat));
            assert forall|m: u64| self.has(m) <==> (old(self).has(m) && m != num) by {
                lemma_digits_of_canonical(m);
                if digits_of(m as nat) == digits_of(num as nat) {
                    assert(m == num);
                }
            }
            assert forall|s: Seq<u8>| #[trigger] self.root.contains_digits(s) implies canonical(
                s,
            ) by {
                assert(old(self).root.contains_digits(s));
            }
        }
        removed
    }

    /// Resolves a numeric prefix. An exact live value answers for itself
    /// alone; otherwise every live value extending the pattern is listed,
    /// in digit order; no live extension at all yields nothing.
    #[verifier::rlimit(100)]
    pub fn match_or_complete_suffix(&self, pattern: u64) -> (r: Option<Vec<u64>>)
        requires
            self.wf(),
        ensures
            (r is None) <==> (forall|m: u64| !self.spec_matches(pattern, m)),
            (r matches Some(v) ==> v@.len() > 0 && v@.no_duplicates() && digit_sorted(v@) && (
            forall|m: u64| #[trigger] v@.contains(m) ==> self.spec_matches(pattern, m)) && (
            self.has(pattern) ==> v@ == seq![pattern]) && (!self.has(pattern) ==> (forall|m: u64|
                self.spec_matches(pattern, m) ==> v@.contains(m)))),
    {
        let digits = split(pattern);
        let ghost dp = digits_of(pattern as nat);
        proof {
            lemma_digits_of_canonical(pattern);
            assert(digits@.skip(0) =~= dp);
        }
        let found = find_node(&self.root, &digits, 0);
        match found {
            None => {
                proof {
                    assert forall|m: u64| !self.spec_matches(pattern, m) by {
                        if self.spec_matches(pattern, m) {
                            let dm = digits_of(m as nat);
                            assert(dp + dm.skip(dp.len() as int) =~= dm);
                            assert(!self.root.contains_digits(dp + dm.skip(dp.len() as int)));
                        }
                    }
                }
                None
            },
            Some(nd) => {
                proof {
                    assert(dp + Seq::<u8>::empty() =~= dp);
                    assert(nd.contains_digits(Seq::<u8>::empty()) <==> self.root.contains_digits(
                        dp,
                    ));
                }
                if nd.end {
                    let mut v: Vec<u64> = Vec::new();
                    v.push(pattern);
                    proof {
                        assert(self.has(pattern));
                        assert(v@ =~= seq![pattern]);
                        assert(dp.subrange(0, dp.len() as int) =~= dp);
                        assert(self.spec_matches(pattern, pattern));
                        assert forall|m: u64| #[trigger] v@.contains(m) implies self.spec_matches(
                            pattern,
                            m,
                        ) by {
                            assert(v@[0] == pattern);
                        }
                    }
                    Some(v)
                } else {
                    let mut res: Vec<u64> = Vec::new();
                    let mut stack = split(pattern);
                    proof {
                        assert(!self.has(pattern));
                        assert forall|s: Seq<u8>| #[trigger] nd.contains_digits(s) implies canonical(
                            stack@ + s,
                        ) by {
                            assert(self.root.contains_digits(dp + s));
                        }
                    }
                    search_at(nd, &mut res, &mut stack);
                    proof {
                        assert forall|m: u64| #[trigger] res@.contains(m) implies self.spec_matches(
                            pattern,
                            m,
                        ) by {
                            let s = choose|s: Seq<u8>| names_value(*nd, dp, m, s);
                            assert(nd.contains_digits(s));
                            assert(self.root.contains_digits(dp + s));
                            assert(canonical(dp + s));
                            lemma_digits_of_value(dp + s);
                            assert(digits_of(m as nat) == dp + s);
                            assert((dp + s).subrange(0, dp.len() as int) =~= dp);
                            assert(is_prefix(dp, digits_of(m as nat)));
                        }
                        assert forall|m: u64| self.spec_matches(pattern, m) implies res@.contains(
                            m,
                        ) by {
                            let dm = digits_of(m as nat);
                            let s = dm.skip(dp.len() as int);
                            assert(dp + s =~= dm);
                            assert(self.root.contains_digits(dp + s));
                            assert(nd.contains_digits(s));
                            lemma_digits_of_canonical(m);
                            assert(m as int == digit_value(dm));
                            assert(names_value(*nd, dp, m, s));
                        }
                    }
                    if res.is_empty() {
                        None
                    } else {
                        proof {
                            assert(res@.contains(res@[0]));
                        }
                        Some(res)
                    }
                }
            },
        }
    }
}

/// The trie wrapped as the live-ID pool of the coordinator.
pub struct TriePool {
    trie: Trie,
}

impl TriePool {
    /// Validity of the underlying trie.
    pub closed spec fn wf(self) -> bool {
        self.trie.wf()
    }

    /// Whether `n` is a live ID.
    pub closed spec fn has(self, n: u64) -> bool {
        self.trie.has(n)
    }

    /// How many IDs are live.
    pub closed spec fn size(self) -> nat {
        self.trie.size()
    }

    /// Whether `m` is live and extends the digits of `pattern`.
    pub open spec fn spec_matches(self, pattern: u64, m: u64) -> bool {
        self.has(m) && is_prefix(digits_of(pattern as nat), digits_of(m as nat))
    }

    /// An empty pool.
    pub fn new() -> (r: TriePool)
        ensures
            r.wf(),
            r.size() == 0,
            forall|n: u64| !r.has(n),
    {
        TriePool { trie: Trie::new() }
    }

    /// Wraps an existing trie.
    pub fn from_trie(trie: Trie) -> (r: TriePool)
        ensures
            r.wf() <==> trie.wf(),
            r.size() == trie.size(),
            forall|n: u64| r.has(n) == trie.has(n),
    {
        TriePool { trie }
    }

    /// How many IDs are live.
    pub fn len(&self) -> (r: usize)
        requires
            self.wf(),
        ensures
            r == self.size(),
    {
        self.trie.len()
    }

    /// Registers an ID; reports whether it was actually new.
    pub fn add(&mut self, id: u64) -> (added: bool)
        requires
            old(self).wf(),
            old(self).size() < usize::MAX,
        ensures
            final(self).wf(),
            added == !old(self).has(id),
            forall|m: u64| final(self).has(m) <==> (old(self).has(m) || m == id),
            final(self).size() == old(self).size() + (if added {
                1nat
            } else {
                0nat
            }),
    {
        self.trie.insert(id)
    }

    /// Retires an ID; reports whether it was actually present.
    pub fn remove(&mut self, id: u64) -> (removed: bool)
        requires
            old(self).wf(),
        ensures
            final(self).wf(),
            removed == old(self).has(id),
            forall|m: u64| final(self).has(m) <==> (old(self).has(m) && m != id),
            final(self).size() + (if removed {
                1nat
            } else {
                0nat
            }) == old(self).size(),
    {
        self.trie.remove(id)
    }

    /// Resolves a numeric prefix, as the trie does.
    pub fn find(&self, pattern: u64) -> (r: Option<Vec<u64>>)
        requires
            self.wf(),
        ensures
            (r is None) <==> (forall|m: u64| !self.spec_matches(pattern, m)),
            (r matches Some(v) ==> v@.len() > 0 && v@.no_duplicates() && digit_sorted(v@) && (
            forall|m: u64| #[trigger] v@.contains(m) ==> self.spec_matches(pattern, m)) && (
            self.has(pattern) ==> v@ == seq![pattern]) && (!self.has(pattern) ==> (forall|m: u64|
                self.spec_matches(pattern, m) ==> v@.contains(m)))),
    {
        let r = self.trie.match_or_complete_suffix(pattern);
        proof {
            assert forall|m: u64|
                #![trigger self.spec_matches(pattern, m)]
                #![trigger self.trie.spec_matches(pattern, m)]
                self.spec_matches(pattern, m) == self.trie.spec_matches(pattern, m) by {}
        }
        r
    }
}

} // verus!
