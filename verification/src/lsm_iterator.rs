//! The iterator that a scan hands out: the merged tables without the deleted
//! keys, up to the upper end of the scanned range.

use crate::block::{strictly_sorted, Entry};
use crate::error::StorageError;
use crate::iterators::merge_iterator::{has_entry, MergeIterator};
use crate::iterators::two_merge_iterator::TwoMergeIterator;
use crate::iterators::{tail, StorageIterator};
use crate::key::{key_less, key_less_or_equal, key_lt, lemma_key_le_transitive};
use crate::mem_table::{below_upper, KeyBound, MemTableIterator};
use crate::table::SsTableIterator;
use vstd::prelude::*;

verus! {

/// What a scan shows of the stream `s`: its entries as long as their keys lie
/// at or before `upper`, without those whose value is empty.
pub open spec fn visible(s: Seq<Entry>, upper: KeyBound) -> Seq<Entry>
    decreases s.len(),
{
    if s.len() == 0 || !below_upper(s[0].0, upper) {
        Seq::empty()
    } else if s[0].1.len() == 0 {
        visible(tail(s), upper)
    } else {
        seq![s[0]] + visible(tail(s), upper)
    }
}

/// A scan shows no entry with an empty value, and no key behind the upper
/// end of its range.
pub proof fn lemma_visible_entries(s: Seq<Entry>, upper: KeyBound, i: int)
    requires
        0 <= i < visible(s, upper).len(),
    ensures
        visible(s, upper)[i].1.len() > 0,
        below_upper(visible(s, upper)[i].0, upper),
    decreases s.len(),
{
    if s.len() == 0 || !below_upper(s[0].0, upper) {
    } else if s[0].1.len() == 0 {
        lemma_visible_entries(tail(s), upper, i);
    } else if i > 0 {
        lemma_visible_entries(tail(s), upper, i - 1);
    }
}

/// A key below one that lies at or before the upper end lies before it too.
pub proof fn lemma_below_upper_downward(x: Seq<u8>, y: Seq<u8>, upper: KeyBound)
    requires
        key_lt(x, y),
        below_upper(y, upper),
    ensures
        below_upper(x, upper),
{
    match upper {
        KeyBound::Unbounded => {},
        KeyBound::Included(b) => {
            lemma_key_le_transitive(x, y, b@);
        },
        KeyBound::Excluded(b) => {
            lemma_key_le_transitive(x, y, b@);
        },
    }
}

/// What a scan shows of a sorted stream is sorted, and holds just the
/// entries of the stream that have a value and whose keys lie at or before
/// the upper end.
pub proof fn lemma_visible_of_sorted(s: Seq<Entry>, upper: KeyBound)
    requires
        strictly_sorted(s),
    ensures
        strictly_sorted(visible(s, upper)),
        forall|i: int| 0 <= i < visible(s, upper).len() ==> has_entry(s, #[trigger] visible(s, upper)[i]),
        forall|p: int|
            0 <= p < s.len() && (#[trigger] s[p]).1.len() > 0 && below_upper(s[p].0, upper) ==> has_entry(
                visible(s, upper),
                s[p],
            ),
    decreases s.len(),
{
    let shown = visible(s, upper);
    if s.len() == 0 {
    } else if !below_upper(s[0].0, upper) {
        assert forall|p: int| 0 <= p < s.len() && below_upper((#[trigger] s[p]).0, upper) implies false by {
            if p > 0 {
                assert(key_lt(s[0].0, s[p].0));
                lemma_below_upper_downward(s[0].0, s[p].0, upper);
            }
        }
    } else {
        let rest = tail(s);
        let later = visible(rest, upper);
        assert forall|a: int, b: int| 0 <= a < b < rest.len() implies key_lt(
            #[trigger] rest[a].0,
            #[trigger] rest[b].0,
        ) by {
            assert(rest[a] == s[a + 1]);
            assert(rest[b] == s[b + 1]);
        }
        lemma_visible_of_sorted(rest, upper);
        assert forall|i: int| 0 <= i < later.len() implies has_entry(s, #[trigger] later[i]) && key_lt(
            s[0].0,
            later[i].0,
        ) by {
            let p = choose|p: int| 0 <= p < rest.len() && #[trigger] rest[p] == later[i];
            assert(s[p + 1] == later[i]);
            assert(key_lt(s[0].0, s[p + 1].0));
        }
        if s[0].1.len() == 0 {
            assert(shown == later);
            assert forall|p: int|
                0 <= p < s.len() && (#[trigger] s[p]).1.len() > 0 && below_upper(
                    s[p].0,
                    upper,
                ) implies has_entry(shown, s[p]) by {
                assert(rest[p - 1] == s[p]);
                assert(has_entry(later, rest[p - 1]));
            }
        } else {
            assert(shown == seq![s[0]] + later);
            assert(shown[0] == s[0]);
            assert forall|a: int, b: int| 0 <= a < b < shown.len() implies key_lt(
                #[trigger] shown[a].0,
                #[trigger] shown[b].0,
            ) by {
                assert(shown[b] == later[b - 1]);
                if a > 0 {
                    assert(shown[a] == later[a - 1]);
                }
            }
            assert forall|i: int| 0 <= i < shown.len() implies has_entry(s, #[trigger] shown[i]) by {
                if i > 0 {
                    assert(shown[i] == later[i - 1]);
                }
            }
            assert forall|p: int|
                0 <= p < s.len() && (#[trigger] s[p]).1.len() > 0 && below_upper(
                    s[p].0,
                    upper,
                ) implies has_entry(shown, s[p]) by {
                if p > 0 {
                    assert(rest[p - 1] == s[p]);
                    assert(has_entry(later, rest[p - 1]));
                    let i = choose|i: int| 0 <= i < later.len() && #[trigger] later[i] == s[p];
                    assert(shown[i + 1] == later[i]);
                }
            }
        }
    }
}

/// The iterators of the in-memory tables, merged, go before those of the
/// sorted-string tables, merged.
pub type LsmIteratorInner = TwoMergeIterator<
    MergeIterator<MemTableIterator>,
    MergeIterator<SsTableIterator>,
>;

/// The iterator of a scan.
pub struct LsmIterator {
    inner: LsmIteratorInner,
    end_bound: KeyBound,
    is_valid: bool,
}

impl LsmIterator {
    /// The merged iterators, as they stand.
    pub closed spec fn merged(&self) -> LsmIteratorInner {
        self.inner
    }

    /// Whether the iterator stands on an entry.
    pub closed spec fn positioned(&self) -> bool {
        self.is_valid
    }

    /// A scan shows no entry with an empty value, and no key behind the
    /// upper end of its range.
    pub proof fn lemma_shows_live_entries(&self, i: int)
        requires
            0 <= i < self.rest().len(),
        ensures
            self.rest()[i].1.len() > 0,
            below_upper(self.rest()[i].0, self.upper()),
    {
        lemma_visible_entries(self.merged().rest(), self.upper(), i);
    }

    /// The upper end of the scanned range.
    pub closed spec fn upper(&self) -> KeyBound {
        self.end_bound
    }

    /// The iterator is valid only on an entry of the merged stream whose key
    /// lies at or before the upper end.
    spec fn in_range(&self) -> bool {
        &&& self.inner.wf()
        &&& self.is_valid ==> self.inner.rest().len() > 0 && below_upper(
            self.inner.rest()[0].0,
            self.end_bound,
        )
    }

    /// What the scan has yet to show, whether or not the current entry is a
    /// deleted one.
    spec fn showing(&self) -> Seq<Entry> {
        if self.is_valid {
            visible(self.inner.rest(), self.end_bound)
        } else {
            Seq::empty()
        }
    }

    /// Makes the iterator of a scan over `iter` that ends at `end_bound`, and
    /// moves it to the first entry that the scan shows. Fails if a step of
    /// `iter` over a deleted entry fails.
    pub fn new(iter: LsmIteratorInner, end_bound: KeyBound) -> (r: Result<Self, StorageError>)
        requires
            iter.wf(),
        ensures
            r is Ok ==> r->Ok_0.wf() && r->Ok_0.upper() == end_bound && r->Ok_0.rest() == visible(
                iter.rest(),
                end_bound,
            ),
            iter.rest().len() == 0 || !below_upper(iter.rest()[0].0, end_bound) || iter.rest()[0].1.len() > 0
                ==> r is Ok,
            iter.sound() ==> r is Ok && r->Ok_0.sound(),
            r is Err ==> iter.fails_with(r->Err_0),
            r is Ok ==> forall|e: StorageError| #[trigger] r->Ok_0.fails_with(e) ==> iter.fails_with(e),
    {
        let mut iter = Self { is_valid: false, inner: iter, end_bound };
        iter.is_valid = iter.current_in_range();
        match iter.move_to_non_delete() {
            Ok(_) => Ok(iter),
            Err(e) => Err(e),
        }
    }

    /// Whether the merged stream has a current entry whose key lies at or
    /// before the upper end.
    fn current_in_range(&self) -> (b: bool)
        requires
            self.inner.wf(),
        ensures
            b == (self.inner.rest().len() > 0 && below_upper(self.inner.rest()[0].0, self.end_bound)),
    {
        if !self.inner.is_valid() {
            return false;
        }
        match &self.end_bound {
            KeyBound::Unbounded => true,
            KeyBound::Included(key) => key_less_or_equal(self.inner.key(), key.as_slice()),
            KeyBound::Excluded(key) => key_less(self.inner.key(), key.as_slice()),
        }
    }

    /// Steps over the entries whose value is empty.
    fn move_to_non_delete(&mut self) -> (r: Result<(), StorageError>)
        requires
            old(self).in_range(),
        ensures
            final(self).wf(),
            final(self).end_bound == old(self).end_bound,
            r is Ok ==> final(self).rest() == old(self).showing(),
            r is Err ==> final(self).rest().len() == 0,
            !old(self).is_valid || (old(self).inner.rest().len() > 0 && old(self).inner.rest()[0].1.len() > 0)
                ==> r is Ok,
            old(self).inner.sound() ==> r is Ok && final(self).inner.sound(),
            r is Err ==> old(self).inner.fails_with(r->Err_0),
            forall|e: StorageError| #[trigger] final(self).inner.fails_with(e) ==> old(self).inner.fails_with(e),
    {
        let ghost untouched: bool = true;
        while self.is_valid && self.inner.value().len() == 0
            invariant
                self.in_range(),
                self.end_bound == old(self).end_bound,
                self.showing() == old(self).showing(),
                untouched ==> *self == *old(self),
                old(self).inner.sound() ==> self.inner.sound(),
                forall|e: StorageError| #[trigger] self.inner.fails_with(e) ==> old(self).inner.fails_with(e),
                !untouched ==> old(self).is_valid && old(self).inner.rest().len() > 0 && old(
                    self,
                ).inner.rest()[0].1.len() == 0,
            decreases self.inner.rest().len(),
        {
            proof {
                untouched = false;
            }
            match self.next_inner() {
                Ok(_) => {},
                Err(e) => {
                    return Err(e);
                },
            }
        }
        Ok(())
    }

    /// Steps the merged stream and looks whether its entry is in range.
    fn next_inner(&mut self) -> (r: Result<(), StorageError>)
        requires
            old(self).in_range(),
            old(self).is_valid,
        ensures
            final(self).in_range(),
            final(self).end_bound == old(self).end_bound,
            r is Ok ==> final(self).inner.rest() == tail(old(self).inner.rest()),
            r is Ok ==> final(self).showing() == visible(tail(old(self).inner.rest()), old(self).end_bound),
            r is Err ==> !final(self).is_valid,
            old(self).inner.sound() ==> r is Ok && final(self).inner.sound(),
            r is Err ==> old(self).inner.fails_with(r->Err_0),
            forall|e: StorageError| #[trigger] final(self).inner.fails_with(e) ==> old(self).inner.fails_with(e),
    {
        match self.inner.next() {
            Ok(_) => {
                self.is_valid = self.current_in_range();
                Ok(())
            },
            Err(e) => {
                self.is_valid = false;
                Err(e)
            },
        }
    }
}

impl StorageIterator for LsmIterator {
    /// The iterator is valid only on an entry in range whose value is not empty.
    closed spec fn wf(&self) -> bool {
        &&& self.in_range()
        &&& self.is_valid ==> self.inner.rest()[0].1.len() > 0
    }

    /// What the scan has yet to show: what is visible of the merged stream
    /// while the iterator stands on an entry, and nothing otherwise.
    open spec fn rest(&self) -> Seq<Entry> {
        if self.positioned() {
            visible(self.merged().rest(), self.upper())
        } else {
            Seq::empty()
        }
    }

    /// The merged iterators are sound.
    open spec fn sound(&self) -> bool {
        self.merged().sound()
    }

    /// An error that the merged iterators may fail with.
    open spec fn fails_with(&self, e: StorageError) -> bool {
        self.merged().fails_with(e)
    }

    /// What the merged iterators draw from.
    open spec fn sources(&self) -> nat {
        self.merged().sources()
    }

    fn is_valid(&self) -> (b: bool) {
        self.is_valid
    }

    fn key(&self) -> (k: &[u8]) {
        self.inner.key()
    }

    fn value(&self) -> (v: &[u8]) {
        self.inner.value()
    }

    /// Moves to the next entry that the scan shows. After an error the
    /// iterator is invalid.
    fn next(&mut self) -> (r: Result<(), StorageError>)
        ensures
            final(self).upper() == old(self).upper(),
            old(self).rest().len() == 0 ==> r is Ok,
            r is Err ==> final(self).rest().len() == 0,
    {
        if !self.is_valid {
            return Ok(());
        }
        proof {
            assert(tail(seq![self.inner.rest()[0]] + visible(tail(self.inner.rest()), self.end_bound))
                =~= visible(tail(self.inner.rest()), self.end_bound));
        }
        match self.next_inner() {
            Ok(_) => self.move_to_non_delete(),
            Err(e) => Err(e),
        }
    }

    /// What the merged iterators count.
    fn num_active_iterators(&self) -> (n: usize) {
        self.inner.num_active_iterators()
    }
}

/// A wrapper around existing iterator, will prevent users from calling `next` when the iterator is
/// invalid. If an iterator is already invalid, `next` does not do anything. If `next` returns an error,
/// `is_valid` should return false, and `next` should always return an error.
pub struct FusedIterator<I: StorageIterator> {
    iter: I,
    has_errored: bool,
}

impl<I: StorageIterator> FusedIterator<I> {
    /// The wrapped iterator, as it stands.
    pub closed spec fn wrapped(&self) -> I {
        self.iter
    }

    /// Whether a step of the iterator has failed.
    pub closed spec fn errored(&self) -> bool {
        self.has_errored
    }

    /// The entries that the wrapped iterator has yet to give.
    pub closed spec fn inner_rest(&self) -> Seq<Entry> {
        self.iter.rest()
    }

    /// Wraps `iter`.
    pub fn new(iter: I) -> (it: Self)
        requires
            iter.wf(),
        ensures
            it.wf(),
            !it.errored(),
            it.rest() == iter.rest(),
            it.sound() == iter.sound(),
            it.wrapped() == iter,
    {
        Self { iter, has_errored: false }
    }

    /// An iterator that has failed gives nothing more.
    pub proof fn lemma_errored_gives_nothing(&self)
        requires
            self.errored(),
        ensures
            self.rest().len() == 0,
    {
    }
}

impl<I: StorageIterator> StorageIterator for FusedIterator<I> {
    /// The wrapped iterator is in order.
    closed spec fn wf(&self) -> bool {
        self.iter.wf()
    }

    /// What the wrapped iterator has yet to give; nothing once a step has failed.
    open spec fn rest(&self) -> Seq<Entry> {
        if self.errored() {
            Seq::empty()
        } else {
            self.wrapped().rest()
        }
    }

    /// No step has failed, and the wrapped iterator is sound.
    open spec fn sound(&self) -> bool {
        !self.errored() && self.wrapped().sound()
    }

    /// The error of a step after one that failed, or an error that the
    /// wrapped iterator may fail with.
    open spec fn fails_with(&self, e: StorageError) -> bool {
        e == StorageError::Iterator || self.wrapped().fails_with(e)
    }

    /// What the wrapped iterator draws from.
    open spec fn sources(&self) -> nat {
        self.wrapped().sources()
    }

    fn is_valid(&self) -> (b: bool)
        ensures
            self.errored() ==> !b,
    {
        !self.has_errored && self.iter.is_valid()
    }

    fn key(&self) -> (k: &[u8]) {
        self.iter.key()
    }

    fn value(&self) -> (v: &[u8]) {
        self.iter.value()
    }

    /// Steps the wrapped iterator if it is valid, and leaves it alone if it
    /// is not. Once a step has failed, every later call fails too, with
    /// `StorageError::Iterator`, without touching the wrapped iterator, and
    /// the iterator stays invalid.
    fn next(&mut self) -> (r: Result<(), StorageError>)
        ensures
            old(self).errored() ==> r == Err::<(), StorageError>(StorageError::Iterator) && final(self).errored(),
            r is Err ==> final(self).errored() && final(self).rest().len() == 0,
            r is Ok ==> !final(self).errored(),
            !old(self).errored() && old(self).rest().len() == 0 ==> r is Ok && final(self).rest().len() == 0,
            old(self).errored() || old(self).rest().len() == 0 ==> final(self).wrapped() == old(self).wrapped(),
            !old(self).errored() ==> final(self).inner_rest() == tail(old(self).inner_rest()) || r is Err,
    {
        if self.has_errored {
            return Err(StorageError::Iterator);
        }
        if self.iter.is_valid() {
            if let Err(e) = self.iter.next() {
                self.has_errored = true;
                return Err(e);
            }
        }
        Ok(())
    }

    /// What the wrapped iterator counts.
    fn num_active_iterators(&self) -> (n: usize) {
        self.iter.num_active_iterators()
    }
}

} // verus!
