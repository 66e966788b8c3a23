//! What every iterator of the storage core offers, and the combinators that
//! merge several of them.

pub mod merge_iterator;
pub mod two_merge_iterator;

use crate::block::Entry;
use crate::error::StorageError;
use vstd::prelude::*;

verus! {

/// A stream of entries without its first entry; the empty stream stays empty.
pub open spec fn tail(s: Seq<Entry>) -> Seq<Entry> {
    if s.len() > 0 {
        s.subrange(1, s.len() as int)
    } else {
        s
    }
}

/// A count as a `usize` can tell it: the count itself, or the greatest
/// `usize` where the count is greater.
pub open spec fn counted(n: nat) -> usize {
    if n <= usize::MAX {
        n as usize
    } else {
        usize::MAX
    }
}

/// An iterator over key-value entries. Its state is told by the entries that
/// it has yet to give, the current one first: it is valid as long as there is
/// one, and a step that succeeds takes the first away.
pub trait StorageIterator {
    /// The iterator is in a state that its methods can work from.
    spec fn wf(&self) -> bool;

    /// The entries still to come, the current one first.
    spec fn rest(&self) -> Seq<Entry>;

    /// No step of the iterator will fail.
    spec fn sound(&self) -> bool;

    /// Whether a step of the iterator, now or later, may fail with the
    /// error `e`.
    spec fn fails_with(&self, e: StorageError) -> bool;

    /// How many underlying iterators this one draws from: one for an
    /// iterator over a table, and for a combinator the sum over the
    /// iterators that it combines.
    spec fn sources(&self) -> nat;

    /// The value of the current entry.
    fn value(&self) -> (v: &[u8])
        requires
            self.wf(),
            self.rest().len() > 0,
        ensures
            v@ == self.rest()[0].1,
    ;

    /// The key of the current entry.
    fn key(&self) -> (k: &[u8])
        requires
            self.wf(),
            self.rest().len() > 0,
        ensures
            k@ == self.rest()[0].0,
    ;

    /// Whether there is a current entry.
    fn is_valid(&self) -> (b: bool)
        requires
            self.wf(),
        ensures
            b == (self.rest().len() > 0),
    ;

    /// Moves to the next entry. On an invalid iterator this does nothing.
    /// A sound iterator does not fail, and stays sound. A step fails only
    /// with an error that the iterator may fail with, and no step adds to
    /// those errors. After an error nothing is known of the entries to come.
    fn next(&mut self) -> (r: Result<(), StorageError>)
        requires
            old(self).wf(),
        ensures
            final(self).wf(),
            r is Ok ==> final(self).rest() == tail(old(self).rest()),
            old(self).sound() ==> r is Ok && final(self).sound(),
            r is Err ==> old(self).fails_with(r->Err_0),
            forall|e: StorageError| #[trigger] final(self).fails_with(e) ==> old(self).fails_with(e),
    ;

    /// Number of underlying iterators that this one draws from, as far as a
    /// `usize` can count.
    fn num_active_iterators(&self) -> (n: usize)
        requires
            self.wf(),
        ensures
            n == counted(self.sources()),
    ;
}

} // verus!
