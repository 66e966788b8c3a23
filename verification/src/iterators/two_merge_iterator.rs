//! Merging two iterators, which may be of different kinds.

use super::{counted, tail, StorageIterator};
use crate::block::Entry;
use crate::error::StorageError;
use super::merge_iterator::{has_entry, holds_key, lemma_sorted_above_head};
use crate::block::{lemma_lower_bound_splits, lower_bound, strictly_sorted};
use crate::key::{
    key_equal, key_le, key_less_or_equal, key_lt, lemma_key_le_transitive, lemma_key_trichotomy,
};
use vstd::prelude::*;

verus! {

/// Two streams merged into one: the smaller head goes first; of two equal
/// heads the one of `a` goes first and the one of `b` is dropped.
pub open spec fn merge_two(a: Seq<Entry>, b: Seq<Entry>) -> Seq<Entry>
    decreases a.len() + b.len(),
{
    if a.len() == 0 {
        b
    } else if b.len() == 0 {
        a
    } else if key_le(a[0].0, b[0].0) {
        seq![a[0]] + merge_two(
            tail(a),
            if b[0].0 == a[0].0 {
                tail(b)
            } else {
                b
            },
        )
    } else {
        seq![b[0]] + merge_two(a, tail(b))
    }
}

/// Whether the merged stream takes its head from `a`.
pub open spec fn takes_first(a: Seq<Entry>, b: Seq<Entry>) -> bool {
    a.len() > 0 && (b.len() == 0 || key_le(a[0].0, b[0].0))
}

/// The merged stream begins with the head of `a` where that is taken, and
/// with the head of `b` otherwise; it is empty only if both streams are.
pub proof fn lemma_merge_two_head(a: Seq<Entry>, b: Seq<Entry>)
    ensures
        merge_two(a, b).len() > 0 <==> a.len() > 0 || b.len() > 0,
        takes_first(a, b) ==> merge_two(a, b)[0] == a[0],
        !takes_first(a, b) && b.len() > 0 ==> merge_two(a, b)[0] == b[0],
{
}

/// The tail of a sorted stream is sorted, holds the entries behind the head,
/// and all its keys are greater than the head's.
proof fn lemma_sorted_tail(s: Seq<Entry>)
    requires
        strictly_sorted(s),
        s.len() > 0,
    ensures
        strictly_sorted(tail(s)),
        forall|p: int| 0 <= p < tail(s).len() ==> (#[trigger] tail(s)[p]) == s[p + 1],
        forall|p: int| 0 <= p < tail(s).len() ==> key_lt(s[0].0, (#[trigger] tail(s)[p]).0),
{
    assert forall|a: int, b: int| 0 <= a < b < tail(s).len() implies key_lt(
        #[trigger] tail(s)[a].0,
        #[trigger] tail(s)[b].0,
    ) by {
        assert(tail(s)[a] == s[a + 1]);
        assert(tail(s)[b] == s[b + 1]);
    }
    assert forall|p: int| 0 <= p < tail(s).len() implies key_lt(s[0].0, (#[trigger] tail(s)[p]).0) by {
        assert(tail(s)[p] == s[p + 1]);
    }
}

/// Merging two sorted streams gives a sorted stream that holds every entry
/// of the first stream, and of the second stream the entries whose keys the
/// first has not: where both hold a key, the entry of the first is given and
/// that of the second is not.
#[verifier::spinoff_prover]
#[verifier::rlimit(40)]
pub proof fn lemma_merge_two_precedence(a: Seq<Entry>, b: Seq<Entry>)
    requires
        strictly_sorted(a),
        strictly_sorted(b),
    ensures
        strictly_sorted(merge_two(a, b)),
        forall|i: int|
            0 <= i < merge_two(a, b).len() ==> has_entry(a, #[trigger] merge_two(a, b)[i]) || (has_entry(
                b,
                merge_two(a, b)[i],
            ) && !holds_key(a, merge_two(a, b)[i].0)),
        forall|p: int| 0 <= p < a.len() ==> has_entry(merge_two(a, b), #[trigger] a[p]),
        forall|p: int| 0 <= p < b.len() ==> holds_key(merge_two(a, b), (#[trigger] b[p]).0),
    decreases a.len() + b.len(),
{
    let m = merge_two(a, b);
    if a.len() == 0 {
        assert forall|i: int| 0 <= i < m.len() implies has_entry(b, #[trigger] m[i]) && !holds_key(
            a,
            m[i].0,
        ) by {
            assert(b[i] == m[i]);
        }
        assert forall|p: int| 0 <= p < b.len() implies holds_key(m, (#[trigger] b[p]).0) by {
            assert(m[p].0 == b[p].0);
        }
    } else if b.len() == 0 {
        assert forall|i: int| 0 <= i < m.len() implies has_entry(a, #[trigger] m[i]) by {
            assert(a[i] == m[i]);
        }
        assert forall|p: int| 0 <= p < a.len() implies has_entry(m, #[trigger] a[p]) by {
            assert(m[p] == a[p]);
        }
    } else if key_le(a[0].0, b[0].0) {
        let b1 = if b[0].0 == a[0].0 {
            tail(b)
        } else {
            b
        };
        let later = merge_two(tail(a), b1);
        lemma_sorted_tail(a);
        lemma_sorted_tail(b);
        lemma_merge_two_precedence(tail(a), b1);
        assert(m == seq![a[0]] + later);
        assert(m[0] == a[0]);
        assert forall|p: int| 0 <= p < b1.len() implies key_lt(a[0].0, (#[trigger] b1[p]).0) && has_entry(
            b,
            b1[p],
        ) by {
            if b[0].0 == a[0].0 {
                assert(b1[p] == b[p + 1]);
            } else {
                assert(b1[p] == b[p]);
                lemma_sorted_above_head(b, p);
                lemma_key_le_transitive(a[0].0, b[0].0, b[p].0);
            }
        }
        assert forall|i: int| 0 <= i < later.len() implies key_lt(a[0].0, (#[trigger] later[i]).0) && (
        has_entry(a, later[i]) || (has_entry(b, later[i]) && !holds_key(a, later[i].0))) by {
            let e = later[i];
            if has_entry(tail(a), e) {
                let p = choose|p: int| 0 <= p < tail(a).len() && #[trigger] tail(a)[p] == e;
                assert(a[p + 1] == e);
            } else {
                let p = choose|p: int| 0 <= p < b1.len() && #[trigger] b1[p] == e;
                assert(key_lt(a[0].0, b1[p].0));
                if holds_key(a, e.0) {
                    let q = choose|q: int| 0 <= q < a.len() && (#[trigger] a[q]).0 == e.0;
                    lemma_key_trichotomy(a[0].0, e.0);
                    assert(tail(a)[q - 1] == a[q]);
                    assert(holds_key(tail(a), e.0));
                }
            }
        }
        assert forall|x: int, y: int| 0 <= x < y < m.len() implies key_lt(
            #[trigger] m[x].0,
            #[trigger] m[y].0,
        ) by {
            assert(m[y] == later[y - 1]);
            if x > 0 {
                assert(m[x] == later[x - 1]);
            }
        }
        assert forall|i: int| 0 <= i < m.len() implies has_entry(a, #[trigger] m[i]) || (has_entry(b, m[i])
            && !holds_key(a, m[i].0)) by {
            if i > 0 {
                assert(m[i] == later[i - 1]);
            }
        }
        assert forall|p: int| 0 <= p < a.len() implies has_entry(m, #[trigger] a[p]) by {
            if p > 0 {
                assert(tail(a)[p - 1] == a[p]);
                assert(has_entry(later, tail(a)[p - 1]));
                let i = choose|i: int| 0 <= i < later.len() && #[trigger] later[i] == a[p];
                assert(m[i + 1] == later[i]);
            }
        }
        assert forall|p: int| 0 <= p < b.len() implies holds_key(m, (#[trigger] b[p]).0) by {
            if b[p].0 == a[0].0 {
                assert(m[0].0 == b[p].0);
            } else {
                if b[0].0 == a[0].0 {
                    assert(b1[p - 1] == b[p]);
                    assert(holds_key(later, b1[p - 1].0));
                } else {
                    assert(b1[p] == b[p]);
                    assert(holds_key(later, b1[p].0));
                }
                let i = choose|i: int| 0 <= i < later.len() && (#[trigger] later[i]).0 == b[p].0;
                assert(m[i + 1] == later[i]);
            }
        }
    } else {
        let later = merge_two(a, tail(b));
        lemma_sorted_tail(b);
        lemma_merge_two_precedence(a, tail(b));
        lemma_key_trichotomy(a[0].0, b[0].0);
        assert(m == seq![b[0]] + later);
        assert(m[0] == b[0]);
        assert forall|p: int| 0 <= p < a.len() implies key_lt(b[0].0, (#[trigger] a[p]).0) by {
            lemma_sorted_above_head(a, p);
            lemma_key_le_transitive(b[0].0, a[0].0, a[p].0);
        }
        assert(!holds_key(a, b[0].0)) by {
            if holds_key(a, b[0].0) {
                let q = choose|q: int| 0 <= q < a.len() && (#[trigger] a[q]).0 == b[0].0;
                lemma_key_trichotomy(b[0].0, a[q].0);
            }
        }
        assert forall|i: int| 0 <= i < later.len() implies key_lt(b[0].0, (#[trigger] later[i]).0) && (
        has_entry(a, later[i]) || (has_entry(b, later[i]) && !holds_key(a, later[i].0))) by {
            let e = later[i];
            if has_entry(a, e) {
                let p = choose|p: int| 0 <= p < a.len() && #[trigger] a[p] == e;
                assert(key_lt(b[0].0, a[p].0));
            } else {
                let p = choose|p: int| 0 <= p < tail(b).len() && #[trigger] tail(b)[p] == e;
                assert(b[p + 1] == e);
            }
        }
        assert forall|x: int, y: int| 0 <= x < y < m.len() implies key_lt(
            #[trigger] m[x].0,
            #[trigger] m[y].0,
        ) by {
            assert(m[y] == later[y - 1]);
            if x > 0 {
                assert(m[x] == later[x - 1]);
            }
        }
        assert forall|i: int| 0 <= i < m.len() implies has_entry(a, #[trigger] m[i]) || (has_entry(b, m[i])
            && !holds_key(a, m[i].0)) by {
            if i > 0 {
                assert(m[i] == later[i - 1]);
            } else {
                assert(b[0] == m[0]);
            }
        }
        assert forall|p: int| 0 <= p < a.len() implies has_entry(m, #[trigger] a[p]) by {
            assert(has_entry(later, a[p]));
            let i = choose|i: int| 0 <= i < later.len() && #[trigger] later[i] == a[p];
            assert(m[i + 1] == later[i]);
        }
        assert forall|p: int| 0 <= p < b.len() implies holds_key(m, (#[trigger] b[p]).0) by {
            if p == 0 {
                assert(m[0].0 == b[0].0);
            } else {
                assert(tail(b)[p - 1] == b[p]);
                assert(holds_key(later, tail(b)[p - 1].0));
                let i = choose|i: int| 0 <= i < later.len() && (#[trigger] later[i]).0 == b[p].0;
                assert(m[i + 1] == later[i]);
            }
        }
    }
}

/// Merging two sorted iterators that have each been moved to `key` gives no
/// key below `key`, and begins with the least key of both streams that is
/// not below `key`; it gives nothing only if there is no such key.
pub proof fn lemma_merge_two_after_seek(a: Seq<Entry>, b: Seq<Entry>, key: Seq<u8>)
    requires
        strictly_sorted(a),
        strictly_sorted(b),
    ensures
        ({
            let m = merge_two(a.skip(lower_bound(a, key)), b.skip(lower_bound(b, key)));
            &&& forall|i: int| 0 <= i < m.len() ==> key_le(key, (#[trigger] m[i]).0)
            &&& forall|p: int|
                0 <= p < a.len() && key_le(key, (#[trigger] a[p]).0) ==> m.len() > 0 && key_le(m[0].0, a[p].0)
            &&& forall|p: int|
                0 <= p < b.len() && key_le(key, (#[trigger] b[p]).0) ==> m.len() > 0 && key_le(m[0].0, b[p].0)
        }),
{
    lemma_lower_bound_splits(a, key);
    lemma_lower_bound_splits(b, key);
    let la = lower_bound(a, key);
    let lb = lower_bound(b, key);
    let sa = a.skip(la);
    let sb = b.skip(lb);
    let m = merge_two(sa, sb);
    assert forall|x: int, y: int| 0 <= x < y < sa.len() implies key_lt(
        #[trigger] sa[x].0,
        #[trigger] sa[y].0,
    ) by {
        assert(sa[x] == a[la + x]);
        assert(sa[y] == a[la + y]);
    }
    assert forall|x: int, y: int| 0 <= x < y < sb.len() implies key_lt(
        #[trigger] sb[x].0,
        #[trigger] sb[y].0,
    ) by {
        assert(sb[x] == b[lb + x]);
        assert(sb[y] == b[lb + y]);
    }
    lemma_merge_two_precedence(sa, sb);
    assert forall|i: int| 0 <= i < m.len() implies key_le(key, (#[trigger] m[i]).0) by {
        if has_entry(sa, m[i]) {
            let p = choose|p: int| 0 <= p < sa.len() && #[trigger] sa[p] == m[i];
            assert(sa[p] == a[la + p]);
        } else {
            let p = choose|p: int| 0 <= p < sb.len() && #[trigger] sb[p] == m[i];
            assert(sb[p] == b[lb + p]);
        }
    }
    assert forall|p: int| 0 <= p < a.len() && key_le(key, (#[trigger] a[p]).0) implies m.len() > 0
        && key_le(m[0].0, a[p].0) by {
        if p < la {
            assert(key_lt(a[p].0, key));
            crate::key::lemma_key_le_not_lt(key, a[p].0);
        }
        assert(sa[p - la] == a[p]);
        assert(has_entry(m, sa[p - la]));
        let i = choose|i: int| 0 <= i < m.len() && #[trigger] m[i] == a[p];
        if i > 0 {
            assert(key_lt(m[0].0, m[i].0));
        }
    }
    assert forall|p: int| 0 <= p < b.len() && key_le(key, (#[trigger] b[p]).0) implies m.len() > 0
        && key_le(m[0].0, b[p].0) by {
        if p < lb {
            assert(key_lt(b[p].0, key));
            crate::key::lemma_key_le_not_lt(key, b[p].0);
        }
        assert(sb[p - lb] == b[p]);
        assert(holds_key(m, sb[p - lb].0));
        let i = choose|i: int| 0 <= i < m.len() && (#[trigger] m[i]).0 == b[p].0;
        if i > 0 {
            assert(key_lt(m[0].0, m[i].0));
        }
    }
}

/// How a step of the merge of `a0` and `b0` that failed with `e` has left
/// the two iterators, `a1` and `b1`. Where the current entry was that of the
/// second iterator, its step has failed and the first is untouched. Where it
/// was that of the first, either the step of the second over the same key
/// has failed and the first is untouched, or that step was made, if there
/// was one to make, and the step of the first has failed.
pub open spec fn step_failed<A: StorageIterator, B: StorageIterator>(
    a0: A,
    b0: B,
    a1: A,
    b1: B,
    e: StorageError,
) -> bool {
    if !takes_first(a0.rest(), b0.rest()) {
        b0.fails_with(e) && a1 == a0
    } else if b0.rest().len() > 0 && b0.rest()[0].0 == a0.rest()[0].0 {
        (b0.fails_with(e) && a1 == a0) || (a0.fails_with(e) && b1.rest() == tail(b0.rest()))
    } else {
        a0.fails_with(e) && b1.rest() == b0.rest()
    }
}

/// Merges two iterators of different types into one. If the two iterators have the same key, only
/// produce the key once and prefer the entry from A.
pub struct TwoMergeIterator<A: StorageIterator, B: StorageIterator> {
    a: A,
    b: B,
    choose_a: bool,
}

impl<A: StorageIterator, B: StorageIterator> TwoMergeIterator<A, B> {
    /// The first iterator, as it stands.
    pub closed spec fn left(&self) -> A {
        self.a
    }

    /// The second iterator, as it stands.
    pub closed spec fn right(&self) -> B {
        self.b
    }

    /// The entries that the first iterator has yet to give.
    pub open spec fn first(&self) -> Seq<Entry> {
        self.left().rest()
    }

    /// The entries that the second iterator has yet to give.
    pub open spec fn second(&self) -> Seq<Entry> {
        self.right().rest()
    }

    /// Merges `a` and `b`, with `a` going first where both hold a key.
    pub fn create(a: A, b: B) -> (r: Result<Self, StorageError>)
        requires
            a.wf(),
            b.wf(),
        ensures
            r is Ok,
            r->Ok_0.wf(),
            r->Ok_0.first() == a.rest(),
            r->Ok_0.second() == b.rest(),
            r->Ok_0.rest() == merge_two(a.rest(), b.rest()),
            r->Ok_0.sound() == (a.sound() && b.sound()),
            r->Ok_0.left() == a,
            r->Ok_0.right() == b,
    {
        let mut iter = TwoMergeIterator { a, b, choose_a: true };
        iter.choose_a = iter.choose_a();
        Ok(iter)
    }

    /// Whether the current entry is that of `a`: `a` has one, and `b` has
    /// none or one whose key is not smaller.
    fn choose_a(&self) -> (r: bool)
        requires
            self.a.wf(),
            self.b.wf(),
        ensures
            r == takes_first(self.a.rest(), self.b.rest()),
    {
        if !self.a.is_valid() {
            return false;
        }
        if !self.b.is_valid() {
            return true;
        }
        key_less_or_equal(self.a.key(), self.b.key())
    }

    /// Steps `b` over its current entry if that has the key of `a`'s.
    fn skip_b(&mut self) -> (r: Result<(), StorageError>)
        requires
            old(self).a.wf(),
            old(self).b.wf(),
            old(self).a.rest().len() > 0,
        ensures
            final(self).a == old(self).a,
            final(self).choose_a == old(self).choose_a,
            final(self).b.wf(),
            old(self).b.sound() ==> r is Ok && final(self).b.sound(),
            r is Err ==> old(self).b.fails_with(r->Err_0),
            r is Err ==> old(self).b.rest().len() > 0 && old(self).b.rest()[0].0 == old(self).a.rest()[0].0,
            forall|e: StorageError| #[trigger] final(self).b.fails_with(e) ==> old(self).b.fails_with(e),
            r is Ok ==> final(self).b.rest() == (if old(self).b.rest().len() > 0 && old(self).b.rest()[0].0
                == old(self).a.rest()[0].0 {
                tail(old(self).b.rest())
            } else {
                old(self).b.rest()
            }),
    {
        if self.b.is_valid() && key_equal(self.b.key(), self.a.key()) {
            return self.b.next();
        }
        Ok(())
    }
}

impl<A: StorageIterator, B: StorageIterator> StorageIterator for TwoMergeIterator<A, B> {
    /// Both iterators are in order, and `choose_a` says whose entry is current.
    closed spec fn wf(&self) -> bool {
        &&& self.a.wf()
        &&& self.b.wf()
        &&& self.choose_a == takes_first(self.a.rest(), self.b.rest())
    }

    /// The two streams merged.
    open spec fn rest(&self) -> Seq<Entry> {
        merge_two(self.first(), self.second())
    }

    /// Both iterators are sound.
    open spec fn sound(&self) -> bool {
        self.left().sound() && self.right().sound()
    }

    /// An error that one of the two iterators may fail with.
    open spec fn fails_with(&self, e: StorageError) -> bool {
        self.left().fails_with(e) || self.right().fails_with(e)
    }

    /// What both iterators draw from, together.
    open spec fn sources(&self) -> nat {
        self.left().sources() + self.right().sources()
    }

    fn value(&self) -> (v: &[u8]) {
        proof {
            lemma_merge_two_head(self.a.rest(), self.b.rest());
        }
        if self.choose_a {
            self.a.value()
        } else {
            self.b.value()
        }
    }

    fn key(&self) -> (k: &[u8]) {
        proof {
            lemma_merge_two_head(self.a.rest(), self.b.rest());
        }
        if self.choose_a {
            self.a.key()
        } else {
            self.b.key()
        }
    }

    fn is_valid(&self) -> (b: bool) {
        proof {
            lemma_merge_two_head(self.a.rest(), self.b.rest());
        }
        if self.choose_a {
            self.a.is_valid()
        } else {
            self.b.is_valid()
        }
    }

    /// Steps over the current entry, and over the entry of `b` with the same
    /// key where the current one is `a`'s. The first error of an underlying
    /// iterator is handed on, and the iterator that has not failed is left
    /// as it then stands.
    fn next(&mut self) -> (r: Result<(), StorageError>)
        ensures
            old(self).rest().len() == 0 ==> r is Ok,
            r is Err ==> step_failed(
                old(self).left(),
                old(self).right(),
                final(self).left(),
                final(self).right(),
                r->Err_0,
            ),
    {
        let ghost a0 = self.a.rest();
        let ghost b0 = self.b.rest();
        proof {
            lemma_merge_two_head(a0, b0);
        }
        let r = if self.choose_a {
            match self.skip_b() {
                Ok(_) => self.a.next(),
                Err(e) => Err(e),
            }
        } else if self.b.is_valid() {
            self.b.next()
        } else {
            Ok(())
        };
        self.choose_a = self.choose_a();
        proof {
            if r is Ok {
                if a0.len() > 0 && b0.len() > 0 && !key_le(a0[0].0, b0[0].0) {
                    assert(merge_two(a0, tail(b0)) =~= tail(merge_two(a0, b0)));
                } else if a0.len() > 0 && b0.len() > 0 {
                    let b1 = if b0[0].0 == a0[0].0 {
                        tail(b0)
                    } else {
                        b0
                    };
                    assert(merge_two(tail(a0), b1) =~= tail(merge_two(a0, b0)));
                } else if a0.len() > 0 {
                    lemma_merge_two_right_empty(tail(a0), b0);
                } else {
                }
            }
        }
        r
    }

    /// The sum of what the two iterators count.
    fn num_active_iterators(&self) -> (n: usize) {
        self.a.num_active_iterators().saturating_add(self.b.num_active_iterators())
    }
}

/// Merging with an empty second stream gives the first stream.
pub proof fn lemma_merge_two_right_empty(a: Seq<Entry>, b: Seq<Entry>)
    requires
        b.len() == 0,
    ensures
        merge_two(a, b) == a,
{
    if a.len() == 0 {
        assert(a =~= b);
    }
}

} // verus!
