//! Merging any number of iterators of one kind.

use super::{counted, tail, StorageIterator};
use crate::block::{lemma_lower_bound_splits, lower_bound, strictly_sorted, Entry};
use crate::error::StorageError;
use crate::key::{
    key_equal, key_le, key_less, key_lt, lemma_key_le_transitive, lemma_key_trichotomy,
};
use crate::wire::copy_range;
use vstd::prelude::*;

verus! {

/// Which of the first `n` streams gives the next entry: the one whose head
/// has the smallest key, and of several such the one with the lowest index;
/// -1 if those streams are all empty.
pub open spec fn winner_upto(streams: Seq<Seq<Entry>>, n: int) -> int
    decreases n,
{
    if n <= 0 {
        -1
    } else {
        let w = winner_upto(streams, n - 1);
        if streams[n - 1].len() > 0 && (w < 0 || key_lt(streams[n - 1][0].0, streams[w][0].0)) {
            n - 1
        } else {
            w
        }
    }
}

/// Which stream gives the next entry; -1 if all streams are empty.
pub open spec fn winner(streams: Seq<Seq<Entry>>) -> int {
    winner_upto(streams, streams.len() as int)
}

/// The streams once the entry with `key` is given: every stream whose head
/// has that key loses its head.
pub open spec fn advance_all(streams: Seq<Seq<Entry>>, key: Seq<u8>) -> Seq<Seq<Entry>> {
    Seq::new(
        streams.len(),
        |i: int|
            if streams[i].len() > 0 && streams[i][0].0 == key {
                tail(streams[i])
            } else {
                streams[i]
            },
    )
}

/// Number of entries in all streams together.
pub open spec fn total_len(streams: Seq<Seq<Entry>>) -> nat
    decreases streams.len(),
{
    if streams.len() == 0 {
        0
    } else {
        total_len(streams.drop_last()) + streams.last().len()
    }
}

/// The streams merged into one: time after time the winner's head is given,
/// and every head with the same key is dropped.
pub open spec fn merge_all(streams: Seq<Seq<Entry>>) -> Seq<Entry>
    decreases total_len(streams),
{
    let w = winner(streams);
    if w < 0 {
        Seq::empty()
    } else {
        proof {
            lemma_winner_upto(streams, streams.len() as int);
            lemma_advance_shortens(streams, w);
        }
        seq![streams[w][0]] + merge_all(advance_all(streams, streams[w][0].0))
    }
}

/// The winner among the first `n` streams is one of them and has a head; there
/// is none only if those streams are all empty.
pub proof fn lemma_winner_upto(streams: Seq<Seq<Entry>>, n: int)
    requires
        0 <= n <= streams.len(),
    ensures
        -1 <= winner_upto(streams, n) < n,
        winner_upto(streams, n) >= 0 ==> streams[winner_upto(streams, n)].len() > 0,
        winner_upto(streams, n) < 0 ==> forall|i: int| 0 <= i < n ==> (#[trigger] streams[i]).len() == 0,
    decreases n,
{
    if n > 0 {
        lemma_winner_upto(streams, n - 1);
    }
}

/// Of two lists of streams, one by one no longer and at one place shorter,
/// the second holds fewer entries.
proof fn lemma_total_len_less(s: Seq<Seq<Entry>>, t: Seq<Seq<Entry>>, w: int)
    requires
        s.len() == t.len(),
        forall|i: int| 0 <= i < s.len() ==> (#[trigger] t[i]).len() <= s[i].len(),
        (0 <= w < s.len() && t[w].len() < s[w].len()) || w == -1,
    ensures
        total_len(t) <= total_len(s),
        w >= 0 ==> total_len(t) < total_len(s),
    decreases s.len(),
{
    if s.len() > 0 {
        let last = s.len() - 1;
        assert(t.last().len() <= s.last().len()) by {
            assert(t[last].len() <= s[last].len());
        }
        assert forall|i: int| 0 <= i < s.drop_last().len() implies (#[trigger] t.drop_last()[i]).len()
            <= s.drop_last()[i].len() by {
            assert(t[i].len() <= s[i].len());
        }
        if w == last {
            lemma_total_len_less(s.drop_last(), t.drop_last(), -1);
        } else {
            lemma_total_len_less(s.drop_last(), t.drop_last(), w);
        }
    }
}

/// Giving the head of stream `w` leaves fewer entries in the streams.
pub proof fn lemma_advance_shortens(streams: Seq<Seq<Entry>>, w: int)
    requires
        0 <= w < streams.len(),
        streams[w].len() > 0,
    ensures
        total_len(advance_all(streams, streams[w][0].0)) < total_len(streams),
{
    let t = advance_all(streams, streams[w][0].0);
    lemma_total_len_less(streams, t, w);
}

/// The merged stream begins with the winner's head, and is empty if there is
/// no winner.
pub proof fn lemma_merge_all_head(streams: Seq<Seq<Entry>>)
    ensures
        merge_all(streams).len() > 0 <==> winner(streams) >= 0,
        winner(streams) >= 0 ==> {
            &&& 0 <= winner(streams) < streams.len()
            &&& streams[winner(streams)].len() > 0
            &&& merge_all(streams)[0] == streams[winner(streams)][0]
            &&& tail(merge_all(streams)) == merge_all(
                advance_all(streams, streams[winner(streams)][0].0),
            )
        },
{
    lemma_winner_upto(streams, streams.len() as int);
    let w = winner(streams);
    if w >= 0 {
        let rest = merge_all(advance_all(streams, streams[w][0].0));
        assert(tail(seq![streams[w][0]] + rest) =~= rest);
    }
}

/// The winner among the first streams does not depend on the streams behind them.
proof fn lemma_winner_upto_same(s: Seq<Seq<Entry>>, t: Seq<Seq<Entry>>, n: int)
    requires
        0 <= n <= s.len(),
        n <= t.len(),
        forall|j: int| 0 <= j < n ==> s[j] == t[j],
    ensures
        winner_upto(s, n) == winner_upto(t, n),
    decreases n,
{
    if n > 0 {
        lemma_winner_upto_same(s, t, n - 1);
        lemma_winner_upto(s, n - 1);
    }
}

/// Taking an empty stream out of the list leaves the winner what it was,
/// one place further to the front if it stood behind that stream.
proof fn lemma_winner_without(streams: Seq<Seq<Entry>>, i: int, n: int)
    requires
        0 <= i < streams.len(),
        streams[i].len() == 0,
        i <= n < streams.len(),
    ensures
        winner_upto(streams, n + 1) != i,
        winner_upto(streams.remove(i), n) == (if winner_upto(streams, n + 1) > i {
            winner_upto(streams, n + 1) - 1
        } else {
            winner_upto(streams, n + 1)
        }),
    decreases n,
{
    let rest = streams.remove(i);
    lemma_winner_upto(streams, n + 1);
    lemma_winner_upto(streams, n);
    if n == i {
        lemma_winner_upto_same(streams, rest, i);
    } else {
        lemma_winner_without(streams, i, n - 1);
        lemma_winner_upto(rest, n - 1);
        assert(rest[n - 1] == streams[n]);
    }
}

/// Taking an empty stream out of the list does not change what the merge gives.
pub proof fn lemma_merge_without_empty(streams: Seq<Seq<Entry>>, i: int)
    requires
        0 <= i < streams.len(),
        streams[i].len() == 0,
    ensures
        merge_all(streams.remove(i)) == merge_all(streams),
    decreases total_len(streams),
{
    let rest = streams.remove(i);
    lemma_winner_without(streams, i, streams.len() - 1);
    lemma_winner_upto(streams, streams.len() as int);
    let w = winner(streams);
    let w2 = winner(rest);
    if w >= 0 {
        let k = streams[w][0].0;
        assert(rest[w2] == streams[w]);
        let next = advance_all(streams, k);
        lemma_advance_shortens(streams, w);
        assert(advance_all(rest, k) =~= next.remove(i));
        lemma_merge_without_empty(next, i);
    }
}

/// Whether the stream `s` has an entry with the key `k`.
pub open spec fn holds_key(s: Seq<Entry>, k: Seq<u8>) -> bool {
    exists|p: int| 0 <= p < s.len() && (#[trigger] s[p]).0 == k
}

/// Whether `e` is an entry of the stream `s`.
pub open spec fn has_entry(s: Seq<Entry>, e: Entry) -> bool {
    exists|p: int| 0 <= p < s.len() && #[trigger] s[p] == e
}

/// Whether `e` is an entry of the first of the streams that has its key.
pub open spec fn from_first_holder(streams: Seq<Seq<Entry>>, e: Entry) -> bool {
    exists|j: int|
        0 <= j < streams.len() && has_entry(#[trigger] streams[j], e) && forall|l: int|
            0 <= l < j ==> !holds_key(#[trigger] streams[l], e.0)
}

/// Every stream is sorted, with no key twice.
pub open spec fn all_sorted(streams: Seq<Seq<Entry>>) -> bool {
    forall|j: int| 0 <= j < streams.len() ==> strictly_sorted(#[trigger] streams[j])
}

/// The key of the winner's head is the smallest of all heads, and smaller
/// than the heads of the streams in front of the winner.
pub proof fn lemma_winner_least(streams: Seq<Seq<Entry>>, n: int, j: int)
    requires
        0 <= j < n <= streams.len(),
        streams[j].len() > 0,
    ensures
        0 <= winner_upto(streams, n) < n,
        streams[winner_upto(streams, n)].len() > 0,
        key_le(streams[winner_upto(streams, n)][0].0, streams[j][0].0),
        j < winner_upto(streams, n) ==> key_lt(streams[winner_upto(streams, n)][0].0, streams[j][0].0),
    decreases n,
{
    lemma_winner_upto(streams, n);
    lemma_winner_upto(streams, n - 1);
    let prev = winner_upto(streams, n - 1);
    let w = winner_upto(streams, n);
    if j < n - 1 {
        lemma_winner_least(streams, n - 1, j);
        if w == n - 1 {
            lemma_key_le_transitive(streams[w][0].0, streams[prev][0].0, streams[j][0].0);
        }
    } else {
        if prev >= 0 && w == prev {
            lemma_key_trichotomy(streams[n - 1][0].0, streams[prev][0].0);
        }
    }
}

/// In a sorted stream every key behind the head is greater than the head's.
pub proof fn lemma_sorted_above_head(s: Seq<Entry>, p: int)
    requires
        strictly_sorted(s),
        0 <= p < s.len(),
    ensures
        key_le(s[0].0, s[p].0),
        p > 0 ==> key_lt(s[0].0, s[p].0),
{
}

/// Once the smallest key is given, the streams are still sorted, every entry
/// left has a greater key, and the entries left are those with another key.
proof fn lemma_advance_keeps(streams: Seq<Seq<Entry>>)
    requires
        all_sorted(streams),
        winner(streams) >= 0,
    ensures
        ({
            let w = winner(streams);
            let k = streams[w][0].0;
            let next = advance_all(streams, k);
            &&& all_sorted(next)
            &&& forall|j: int, p: int|
                0 <= j < next.len() && 0 <= p < next[j].len() ==> key_lt(k, (#[trigger] next[j][p]).0)
                    && has_entry(streams[j], next[j][p])
            &&& forall|j: int, p: int|
                0 <= j < streams.len() && 0 <= p < streams[j].len() && (#[trigger] streams[j][p]).0 != k
                    ==> has_entry(next[j], streams[j][p])
            &&& forall|j: int, p: int|
                0 <= j < streams.len() && 0 <= p < streams[j].len() ==> key_le(
                    k,
                    (#[trigger] streams[j][p]).0,
                )
            &&& forall|j: int| 0 <= j < w ==> !holds_key(#[trigger] streams[j], k)
        }),
{
    lemma_winner_upto(streams, streams.len() as int);
    let w = winner(streams);
    let k = streams[w][0].0;
    let next = advance_all(streams, k);
    assert forall|j: int, p: int| 0 <= j < streams.len() && 0 <= p < streams[j].len() implies key_le(
        k,
        (#[trigger] streams[j][p]).0,
    ) by {
        lemma_winner_least(streams, streams.len() as int, j);
        assert(strictly_sorted(streams[j]));
        lemma_sorted_above_head(streams[j], p);
        lemma_key_le_transitive(k, streams[j][0].0, streams[j][p].0);
    }
    assert forall|j: int| 0 <= j < next.len() implies strictly_sorted(#[trigger] next[j]) by {
        assert(strictly_sorted(streams[j]));
        if streams[j].len() > 0 && streams[j][0].0 == k {
            assert forall|a: int, b: int| 0 <= a < b < next[j].len() implies key_lt(
                #[trigger] next[j][a].0,
                #[trigger] next[j][b].0,
            ) by {
                assert(next[j][a] == streams[j][a + 1]);
                assert(next[j][b] == streams[j][b + 1]);
            }
        }
    }
    assert forall|j: int, p: int| 0 <= j < next.len() && 0 <= p < next[j].len() implies key_lt(
        k,
        (#[trigger] next[j][p]).0,
    ) && has_entry(streams[j], next[j][p]) by {
        assert(strictly_sorted(streams[j]));
        if streams[j].len() > 0 && streams[j][0].0 == k {
            assert(next[j][p] == streams[j][p + 1]);
            lemma_sorted_above_head(streams[j], p + 1);
        } else {
            assert(next[j][p] == streams[j][p]);
            lemma_winner_least(streams, streams.len() as int, j);
            lemma_sorted_above_head(streams[j], p);
            lemma_key_le_transitive(k, streams[j][0].0, streams[j][p].0);
        }
    }
    assert forall|j: int, p: int|
        0 <= j < streams.len() && 0 <= p < streams[j].len() && (#[trigger] streams[j][p]).0
            != k implies has_entry(next[j], streams[j][p]) by {
        if streams[j][0].0 == k {
            assert(next[j][p - 1] == streams[j][p]);
        } else {
            assert(next[j][p] == streams[j][p]);
        }
    }
    assert forall|j: int| 0 <= j < w implies !holds_key(#[trigger] streams[j], k) by {
        if holds_key(streams[j], k) {
            let p = choose|p: int| 0 <= p < streams[j].len() && (#[trigger] streams[j][p]).0 == k;
            lemma_winner_least(streams, streams.len() as int, j);
            assert(strictly_sorted(streams[j]));
            lemma_sorted_above_head(streams[j], p);
            lemma_key_le_transitive(k, streams[j][0].0, streams[j][p].0);
            lemma_key_trichotomy(k, k);
        }
    }
}

/// Merging sorted streams gives a sorted stream in which every key of the
/// streams comes once, with the entry of the first stream that has the key:
/// where several streams hold a key, the entry of the one in front is given,
/// and those of the others are not.
#[verifier::spinoff_prover]
#[verifier::rlimit(40)]
pub proof fn lemma_merge_precedence(streams: Seq<Seq<Entry>>)
    requires
        all_sorted(streams),
    ensures
        strictly_sorted(merge_all(streams)),
        forall|i: int|
            0 <= i < merge_all(streams).len() ==> from_first_holder(streams, #[trigger] merge_all(streams)[i]),
        forall|j: int, p: int|
            0 <= j < streams.len() && 0 <= p < streams[j].len() ==> holds_key(
                merge_all(streams),
                (#[trigger] streams[j][p]).0,
            ),
    decreases total_len(streams),
{
    lemma_winner_upto(streams, streams.len() as int);
    let w = winner(streams);
    let merged = merge_all(streams);
    if w >= 0 {
        let head = streams[w][0];
        let k = head.0;
        let next = advance_all(streams, k);
        let later = merge_all(next);
        lemma_advance_shortens(streams, w);
        lemma_advance_keeps(streams);
        lemma_merge_precedence(next);
        assert(merged == seq![head] + later);
        assert(merged[0] == head);
        assert forall|i: int| 0 < i < merged.len() implies merged[i] == later[i - 1] by {}
        // every entry given later has a greater key
        assert forall|i: int| 0 <= i < later.len() implies key_lt(k, (#[trigger] later[i]).0) by {
            assert(from_first_holder(next, later[i]));
            let j = choose|j: int| 0 <= j < next.len() && has_entry(#[trigger] next[j], later[i]);
            let p = choose|p: int| 0 <= p < next[j].len() && #[trigger] next[j][p] == later[i];
            assert(key_lt(k, next[j][p].0));
        }
        assert forall|a: int, b: int| 0 <= a < b < merged.len() implies key_lt(
            #[trigger] merged[a].0,
            #[trigger] merged[b].0,
        ) by {
            assert(merged[b] == later[b - 1]);
            if a > 0 {
                assert(merged[a] == later[a - 1]);
            }
        }
        assert forall|i: int| 0 <= i < merged.len() implies from_first_holder(
            streams,
            #[trigger] merged[i],
        ) by {
            if i == 0 {
                assert(streams[w][0] == head);
                assert(has_entry(streams[w], head));
            } else {
                let e = later[i - 1];
                assert(merged[i] == e);
                assert(key_lt(k, e.0));
                lemma_key_trichotomy(k, e.0);
                assert(from_first_holder(next, e));
                let j = choose|j: int|
                    0 <= j < next.len() && has_entry(#[trigger] next[j], e) && forall|l: int|
                        0 <= l < j ==> !holds_key(#[trigger] next[l], e.0);
                let p = choose|p: int| 0 <= p < next[j].len() && #[trigger] next[j][p] == e;
                assert(has_entry(streams[j], next[j][p]));
                assert forall|l: int| 0 <= l < j implies !holds_key(#[trigger] streams[l], e.0) by {
                    if holds_key(streams[l], e.0) {
                        let q = choose|q: int| 0 <= q < streams[l].len() && (#[trigger] streams[l][q]).0 == e.0;
                        assert(has_entry(next[l], streams[l][q]));
                        let r = choose|r: int| 0 <= r < next[l].len() && #[trigger] next[l][r] == streams[l][q];
                        assert(next[l][r].0 == e.0);
                        assert(holds_key(next[l], e.0));
                    }
                }
            }
        }
        assert forall|j: int, p: int| 0 <= j < streams.len() && 0 <= p < streams[j].len() implies holds_key(
            merged,
            (#[trigger] streams[j][p]).0,
        ) by {
            let e = streams[j][p];
            if e.0 == k {
                assert(merged[0].0 == e.0);
            } else {
                assert(has_entry(next[j], e));
                let r = choose|r: int| 0 <= r < next[j].len() && #[trigger] next[j][r] == e;
                assert(holds_key(later, next[j][r].0));
                let i = choose|i: int| 0 <= i < later.len() && (#[trigger] later[i]).0 == e.0;
                assert(merged[i + 1] == later[i]);
            }
        }
    } else {
        assert forall|j: int, p: int| 0 <= j < streams.len() && 0 <= p < streams[j].len() implies holds_key(
            merged,
            (#[trigger] streams[j][p]).0,
        ) by {
            assert(streams[j].len() == 0);
        }
    }
}

/// Each of the streams from its lower bound for `key` on: what iterators
/// give that have each been moved to `key`.
pub open spec fn sought(full: Seq<Seq<Entry>>, key: Seq<u8>) -> Seq<Seq<Entry>> {
    Seq::new(full.len(), |j: int| full[j].skip(lower_bound(full[j], key)))
}

/// Merging sorted iterators that have each been moved to `key` gives no key
/// below `key`, and begins with the least key of all the streams that is not
/// below `key`; it gives nothing only if there is no such key.
pub proof fn lemma_merge_after_seek(full: Seq<Seq<Entry>>, key: Seq<u8>)
    requires
        all_sorted(full),
    ensures
        all_sorted(sought(full, key)),
        forall|i: int|
            0 <= i < merge_all(sought(full, key)).len() ==> key_le(
                key,
                (#[trigger] merge_all(sought(full, key))[i]).0,
            ),
        forall|j: int, p: int|
            0 <= j < full.len() && 0 <= p < full[j].len() && key_le(key, (#[trigger] full[j][p]).0) ==> {
                &&& merge_all(sought(full, key)).len() > 0
                &&& key_le(merge_all(sought(full, key))[0].0, full[j][p].0)
            },
{
    let streams = sought(full, key);
    let merged = merge_all(streams);
    assert forall|j: int| 0 <= j < streams.len() implies strictly_sorted(#[trigger] streams[j]) by {
        assert(strictly_sorted(full[j]));
        lemma_lower_bound_splits(full[j], key);
        let lb = lower_bound(full[j], key);
        assert forall|a: int, b: int| 0 <= a < b < streams[j].len() implies key_lt(
            #[trigger] streams[j][a].0,
            #[trigger] streams[j][b].0,
        ) by {
            assert(streams[j][a] == full[j][lb + a]);
            assert(streams[j][b] == full[j][lb + b]);
        }
    }
    lemma_merge_precedence(streams);
    assert forall|i: int| 0 <= i < merged.len() implies key_le(key, (#[trigger] merged[i]).0) by {
        assert(from_first_holder(streams, merged[i]));
        let j = choose|j: int| 0 <= j < streams.len() && has_entry(#[trigger] streams[j], merged[i]);
        let p = choose|p: int| 0 <= p < streams[j].len() && #[trigger] streams[j][p] == merged[i];
        assert(strictly_sorted(full[j]));
        lemma_lower_bound_splits(full[j], key);
        let lb = lower_bound(full[j], key);
        assert(streams[j][p] == full[j][lb + p]);
    }
    assert forall|j: int, p: int|
        0 <= j < full.len() && 0 <= p < full[j].len() && key_le(key, (#[trigger] full[j][p]).0) implies merged.len()
            > 0 && key_le(merged[0].0, full[j][p].0) by {
        lemma_lower_bound_splits(full[j], key);
        let lb = lower_bound(full[j], key);
        if p < lb {
            assert(key_lt(full[j][p].0, key));
            crate::key::lemma_key_le_not_lt(key, full[j][p].0);
        }
        assert(streams[j][p - lb] == full[j][p]);
        assert(holds_key(merged, streams[j][p - lb].0));
        let i = choose|i: int| 0 <= i < merged.len() && (#[trigger] merged[i]).0 == full[j][p].0;
        if i > 0 {
            assert(key_lt(merged[0].0, merged[i].0));
        }
    }
}

/// The entries that each of the iterators has yet to give.
pub open spec fn streams_of<I: StorageIterator>(iters: Seq<Box<I>>) -> Seq<Seq<Entry>> {
    Seq::new(iters.len(), |i: int| iters[i].rest())
}

/// Whether one of the iterators may fail with the error `e`.
pub open spec fn any_fails<I: StorageIterator>(iters: Seq<Box<I>>, e: StorageError) -> bool {
    exists|i: int| 0 <= i < iters.len() && (#[trigger] iters[i]).fails_with(e)
}

/// The streams that are left when, in a step of the merge whose winner is
/// `cur`, the step of the iterator at `failed` fails. That iterator is gone.
/// The others that stood on the winner's key have been stepped over it, if
/// their turn came before: the turn of the winner comes last, that of the
/// others in the order in which they stand.
pub open spec fn after_failure(before: Seq<Seq<Entry>>, cur: int, failed: int) -> Seq<Seq<Entry>> {
    Seq::new(
        (before.len() - 1) as nat,
        |j: int|
            {
                let o = if j < failed {
                    j
                } else {
                    j + 1
                };
                if o != cur && (o < failed || failed == cur) && before[o].len() > 0 && before[o][0].0
                    == before[cur][0].0 {
                    tail(before[o])
                } else {
                    before[o]
                }
            },
    )
}

/// How a step of the merge of `before` that failed with `e` has left the
/// merge: the iterator at `failed` stood on the winner's key, `e` is an
/// error that it may fail with, and what is left is `after_failure`.
pub open spec fn step_failed_at<I: StorageIterator>(
    before: Seq<Box<I>>,
    after: Seq<Box<I>>,
    e: StorageError,
    failed: int,
) -> bool {
    let streams = streams_of(before);
    let cur = winner(streams);
    &&& 0 <= cur < before.len()
    &&& 0 <= failed < before.len()
    &&& streams[cur].len() > 0
    &&& streams[failed].len() > 0
    &&& streams[failed][0].0 == streams[cur][0].0
    &&& before[failed].fails_with(e)
    &&& streams_of(after) == after_failure(streams, cur, failed)
}

/// What each of the iterators draws from; nothing for one without entries.
pub open spec fn counts_of<I: StorageIterator>(iters: Seq<Box<I>>) -> Seq<nat> {
    Seq::new(
        iters.len(),
        |i: int|
            if iters[i].rest().len() > 0 {
                iters[i].sources()
            } else {
                0
            },
    )
}

/// The sum of the first `n` of `counts`.
pub open spec fn sum_upto(counts: Seq<nat>, n: int) -> nat
    decreases n,
{
    if n <= 0 {
        0
    } else {
        sum_upto(counts, n - 1) + counts[n - 1]
    }
}

/// The sum of all `counts`.
pub open spec fn sum_of(counts: Seq<nat>) -> nat {
    sum_upto(counts, counts.len() as int)
}

/// Taking a count out of the list takes it out of the sums that it was in.
proof fn lemma_sum_without(counts: Seq<nat>, i: int, n: int)
    requires
        0 <= i < counts.len(),
        0 <= n < counts.len(),
    ensures
        sum_upto(counts.remove(i), n) == (if n <= i {
            sum_upto(counts, n)
        } else {
            (sum_upto(counts, n + 1) - counts[i]) as nat
        }),
        n >= i ==> sum_upto(counts, n + 1) >= counts[i],
    decreases n,
{
    let rest = counts.remove(i);
    if n > 0 {
        lemma_sum_without(counts, i, n - 1);
        if n <= i {
            assert(rest[n - 1] == counts[n - 1]);
        } else {
            assert(rest[n - 1] == counts[n]);
        }
    }
}

/// Merge multiple iterators of the same type. If the same key occurs multiple times in some
/// iterators, prefer the one with smaller index.
pub struct MergeIterator<I: StorageIterator> {
    /// The iterators that are merged, the one that goes first in front.
    iters: Vec<Box<I>>,
    /// Index of the iterator whose entry is the current one; the number of
    /// iterators if there is none.
    current: usize,
}

impl<I: StorageIterator> MergeIterator<I> {
    /// The iterators that the merge holds, the one that goes first in front.
    pub closed spec fn children(&self) -> Seq<Box<I>> {
        self.iters@
    }

    /// Merges `iters`; where several of them hold a key, the one in front
    /// goes first. Iterators without entries are left out from the start.
    pub fn create(iters: Vec<Box<I>>) -> (it: Self)
        requires
            forall|i: int| 0 <= i < iters@.len() ==> (#[trigger] iters@[i]).wf(),
        ensures
            it.wf(),
            it.rest() == merge_all(streams_of(iters@)),
            (forall|i: int| 0 <= i < iters@.len() ==> (#[trigger] iters@[i]).sound()) ==> it.sound(),
            it.sources() == sum_of(counts_of(iters@)),
            forall|e: StorageError| #[trigger] it.fails_with(e) ==> any_fails(iters@, e),
    {
        let mut merge_iter = MergeIterator { iters, current: 0 };
        merge_iter.drop_finished();
        merge_iter.current = merge_iter.find_winner();
        merge_iter
    }

    /// Finds the iterator whose current entry has the smallest key; of
    /// several, the one in front.
    fn find_winner(&self) -> (w: usize)
        requires
            forall|i: int| 0 <= i < self.iters@.len() ==> (#[trigger] self.iters@[i]).wf(),
        ensures
            w == (if winner(streams_of(self.iters@)) < 0 {
                self.iters@.len() as int
            } else {
                winner(streams_of(self.iters@))
            }),
    {
        let n: usize = self.iters.len();
        let ghost streams = streams_of(self.iters@);
        let mut best: usize = n;
        let mut i: usize = 0;
        while i < n
            invariant
                n == self.iters@.len(),
                streams == streams_of(self.iters@),
                0 <= i <= n,
                forall|j: int| 0 <= j < self.iters@.len() ==> (#[trigger] self.iters@[j]).wf(),
                best == n <==> winner_upto(streams, i as int) < 0,
                best < n ==> best == winner_upto(streams, i as int) && streams[best as int].len() > 0,
                best <= n,
            decreases n - i,
        {
            assert(self.iters@[i as int].wf());
            assert(streams[i as int] == self.iters@[i as int].rest());
            if self.iters[i].is_valid() {
                if best == n {
                    best = i;
                } else {
                    assert(self.iters@[best as int].wf());
                    assert(streams[best as int] == self.iters@[best as int].rest());
                    if key_less(self.iters[i].key(), self.iters[best].key()) {
                        best = i;
                    }
                }
            }
            proof {
                lemma_winner_upto(streams, i as int);
            }
            i = i + 1;
        }
        best
    }

    /// Takes the iterators that have no entry left out of the merge.
    fn drop_finished(&mut self)
        requires
            forall|j: int| 0 <= j < old(self).iters@.len() ==> (#[trigger] old(self).iters@[j]).wf(),
        ensures
            forall|j: int| 0 <= j < final(self).iters@.len() ==> (#[trigger] final(self).iters@[j]).wf(),
            forall|j: int|
                0 <= j < final(self).iters@.len() ==> (#[trigger] final(self).iters@[j]).rest().len() > 0,
            merge_all(streams_of(final(self).iters@)) == merge_all(streams_of(old(self).iters@)),
            final(self).current == old(self).current,
            (forall|j: int| 0 <= j < old(self).iters@.len() ==> (#[trigger] old(self).iters@[j]).sound())
                ==> forall|j: int|
                0 <= j < final(self).iters@.len() ==> (#[trigger] final(self).iters@[j]).sound(),
            sum_of(counts_of(final(self).iters@)) == sum_of(counts_of(old(self).iters@)),
            forall|j: int, e: StorageError|
                0 <= j < final(self).iters@.len() && #[trigger] final(self).iters@[j].fails_with(e) ==> any_fails(
                    old(self).iters@,
                    e,
                ),
    {
        let mut i: usize = self.iters.len();
        while i > 0
            invariant
                0 <= i <= self.iters@.len(),
                forall|j: int| 0 <= j < self.iters@.len() ==> (#[trigger] self.iters@[j]).wf(),
                forall|j: int| i <= j < self.iters@.len() ==> (#[trigger] self.iters@[j]).rest().len() > 0,
                merge_all(streams_of(self.iters@)) == merge_all(streams_of(old(self).iters@)),
                self.current == old(self).current,
                (forall|j: int| 0 <= j < old(self).iters@.len() ==> (#[trigger] old(self).iters@[j]).sound())
                    ==> forall|j: int| 0 <= j < self.iters@.len() ==> (#[trigger] self.iters@[j]).sound(),
                sum_of(counts_of(self.iters@)) == sum_of(counts_of(old(self).iters@)),
                forall|j: int, e: StorageError|
                    0 <= j < self.iters@.len() && #[trigger] self.iters@[j].fails_with(e) ==> any_fails(
                        old(self).iters@,
                        e,
                    ),
            decreases i,
        {
            i = i - 1;
            assert(self.iters@[i as int].wf());
            if !self.iters[i].is_valid() {
                let ghost prev = self.iters@;
                let _ = self.iters.remove(i);
                proof {
                    assert(streams_of(self.iters@) =~= streams_of(prev).remove(i as int));
                    lemma_merge_without_empty(streams_of(prev), i as int);
                    assert forall|j: int, e: StorageError|
                        0 <= j < self.iters@.len() && #[trigger] self.iters@[j].fails_with(e) implies any_fails(
                        old(self).iters@,
                        e,
                    ) by {
                        if j < i {
                            assert(self.iters@[j] == prev[j]);
                        } else {
                            assert(self.iters@[j] == prev[j + 1]);
                        }
                    }
                    assert(counts_of(self.iters@) =~= counts_of(prev).remove(i as int));
                    assert(counts_of(prev)[i as int] == 0);
                    lemma_sum_without(counts_of(prev), i as int, prev.len() - 1);
                    assert forall|j: int| 0 <= j < self.iters@.len() implies (#[trigger] self.iters@[j]).wf()
                        && (i <= j ==> self.iters@[j].rest().len() > 0) by {
                        if j < i {
                            assert(self.iters@[j] == prev[j]);
                        } else {
                            assert(self.iters@[j] == prev[j + 1]);
                        }
                    }
                    if forall|j: int| 0 <= j < prev.len() ==> (#[trigger] prev[j]).sound() {
                        assert forall|j: int| 0 <= j < self.iters@.len() implies (
                        #[trigger] self.iters@[j]).sound() by {
                            if j < i {
                                assert(self.iters@[j] == prev[j]);
                            } else {
                                assert(self.iters@[j] == prev[j + 1]);
                            }
                        }
                    }
                }
            }
        }
    }

    /// Takes in the outcome of the step of the iterator at `child`. After a
    /// step that succeeded the merge is left as it is. After one that failed
    /// the iterator is taken out of the merge, the winner is found anew, and
    /// the error is handed on.
    fn settle(&mut self, child: usize, step: Result<(), StorageError>) -> (r: Result<(), StorageError>)
        requires
            child < old(self).iters@.len(),
            forall|j: int| 0 <= j < old(self).iters@.len() ==> (#[trigger] old(self).iters@[j]).wf(),
        ensures
            r == step,
            step is Ok ==> *final(self) == *old(self),
            step is Err ==> final(self).wf() && final(self).iters@ == old(self).iters@.remove(child as int),
    {
        if step.is_err() {
            let ghost prev = self.iters@;
            let _ = self.iters.remove(child);
            assert forall|j: int| 0 <= j < self.iters@.len() implies (#[trigger] self.iters@[j]).wf() by {
                if j < child {
                    assert(self.iters@[j] == prev[j]);
                } else {
                    assert(self.iters@[j] == prev[j + 1]);
                }
            }
            self.current = self.find_winner();
        }
        step
    }
}

impl<I: StorageIterator> StorageIterator for MergeIterator<I> {
    /// Every merged iterator is in order, and `current` names the winner.
    closed spec fn wf(&self) -> bool {
        &&& forall|i: int| 0 <= i < self.iters@.len() ==> (#[trigger] self.iters@[i]).wf()
        &&& self.current == (if winner(streams_of(self.iters@)) < 0 {
            self.iters@.len() as int
        } else {
            winner(streams_of(self.iters@))
        })
    }

    /// The streams of the merged iterators, merged.
    open spec fn rest(&self) -> Seq<Entry> {
        merge_all(streams_of(self.children()))
    }

    /// Every merged iterator is sound.
    open spec fn sound(&self) -> bool {
        forall|i: int| 0 <= i < self.children().len() ==> (#[trigger] self.children()[i]).sound()
    }

    /// An error that one of the merged iterators may fail with.
    open spec fn fails_with(&self, e: StorageError) -> bool {
        any_fails(self.children(), e)
    }

    /// What the merged iterators that have entries draw from, together.
    open spec fn sources(&self) -> nat {
        sum_of(counts_of(self.children()))
    }

    fn value(&self) -> (v: &[u8]) {
        proof {
            lemma_merge_all_head(streams_of(self.iters@));
            assert(self.iters@[self.current as int].wf());
        }
        self.iters[self.current].value()
    }

    fn key(&self) -> (k: &[u8]) {
        proof {
            lemma_merge_all_head(streams_of(self.iters@));
            assert(self.iters@[self.current as int].wf());
        }
        self.iters[self.current].key()
    }

    fn is_valid(&self) -> (b: bool) {
        proof {
            lemma_merge_all_head(streams_of(self.iters@));
        }
        self.current < self.iters.len()
    }

    /// Steps every other iterator that stands on the current key over it,
    /// then the current one, drops those that have no entry left, and finds
    /// the next winner. The first error of a step is handed on, and the
    /// iterator whose step failed is dropped.
    fn next(&mut self) -> (r: Result<(), StorageError>)
        ensures
            old(self).rest().len() == 0 ==> r is Ok,
            r is Err ==> exists|failed: int| #[trigger]
                step_failed_at(old(self).children(), final(self).children(), r->Err_0, failed),
    {
        let n: usize = self.iters.len();
        if self.current >= n {
            proof {
                lemma_merge_all_head(streams_of(self.iters@));
            }
            return Ok(());
        }
        let ghost before = streams_of(self.iters@);
        proof {
            lemma_merge_all_head(before);
            assert(self.iters@[self.current as int].wf());
        }
        let key: Vec<u8> = {
            let k: &[u8] = self.iters[self.current].key();
            copy_range(k, 0, k.len())
        };
        assert(before[self.current as int].len() > 0);
        assert(key@ =~= before[self.current as int][0].0);
        let cur: usize = self.current;
        let mut i: usize = 0;
        proof {
            assert(self.children() == self.iters@);
            if old(self).sound() {
                assert forall|j: int| 0 <= j < self.iters@.len() implies (#[trigger] self.iters@[j]).sound() by {
                    assert(self.children()[j].sound());
                }
            }
        }
        while i < n
            invariant
                old(self).rest().len() > 0,
                n == self.iters@.len(),
                n == before.len(),
                before == streams_of(old(self).iters@),
                0 <= i <= n,
                cur < n,
                cur == winner(before),
                before[cur as int].len() > 0,
                key@ == before[cur as int][0].0,
                forall|j: int| 0 <= j < self.iters@.len() ==> (#[trigger] self.iters@[j]).wf(),
                forall|j: int|
                    0 <= j < i && j != cur ==> (#[trigger] self.iters@[j]).rest() == advance_all(before, key@)[j],
                forall|j: int| i <= j < n || j == cur ==> (#[trigger] self.iters@[j]) == old(self).iters@[j],
                old(self).sound() ==> forall|j: int|
                    0 <= j < self.iters@.len() ==> (#[trigger] self.iters@[j]).sound(),
                forall|j: int, e: StorageError|
                    0 <= j < self.iters@.len() && #[trigger] self.iters@[j].fails_with(e) ==> any_fails(
                        old(self).iters@,
                        e,
                    ),
            decreases n - i,
        {
            assert(self.iters@[i as int].wf());
            assert(self.iters@[i as int].rest() == before[i as int]);
            if i != cur && self.iters[i].is_valid() && key_equal(self.iters[i].key(), key.as_slice()) {
                let ghost prev = self.iters@;
                let step = self.iters[i].next();
                assert(forall|j: int| 0 <= j < n && j != i ==> self.iters@[j] == prev[j]);
                let ghost stepped = self.iters@;
                if let Err(e) = self.settle(i, step) {
                    proof {
                        assert(streams_of(self.iters@) =~= after_failure(before, cur as int, i as int)) by {
                            assert forall|j: int| 0 <= j < self.iters@.len() implies #[trigger] streams_of(
                                self.iters@,
                            )[j] == after_failure(before, cur as int, i as int)[j] by {
                                if j < i {
                                    assert(self.iters@[j] == stepped[j]);
                                } else {
                                    assert(self.iters@[j] == stepped[j + 1]);
                                }
                            }
                        }
                        assert(old(self).iters@[i as int].fails_with(e));
                        assert(before[i as int].len() > 0 && before[i as int][0].0 == key@);
                        assert(step_failed_at(old(self).children(), self.children(), e, i as int));
                    }
                    return Err(e);
                }
            }
            i = i + 1;
        }
        let ghost prev = self.iters@;
        assert(self.iters@[cur as int].wf());
        let step = self.iters[cur].next();
        assert(forall|j: int| 0 <= j < n && j != cur ==> self.iters@[j] == prev[j]);
        let ghost stepped = self.iters@;
        if let Err(e) = self.settle(cur, step) {
            proof {
                assert(streams_of(self.iters@) =~= after_failure(before, cur as int, cur as int)) by {
                    assert forall|j: int| 0 <= j < self.iters@.len() implies #[trigger] streams_of(
                        self.iters@,
                    )[j] == after_failure(before, cur as int, cur as int)[j] by {
                        if j < cur {
                            assert(self.iters@[j] == stepped[j]);
                        } else {
                            assert(self.iters@[j] == stepped[j + 1]);
                        }
                    }
                }
                assert(old(self).iters@[cur as int].fails_with(e));
                assert(step_failed_at(old(self).children(), self.children(), e, cur as int));
            }
            return Err(e);
        }
        proof {
            assert(streams_of(self.iters@) =~= advance_all(before, key@));
        }
        self.drop_finished();
        self.current = self.find_winner();
        Ok(())
    }

    /// The sum of what the merged iterators that have entries count.
    fn num_active_iterators(&self) -> (n: usize) {
        let ghost counts = counts_of(self.iters@);
        let mut total: usize = 0;
        let mut i: usize = 0;
        while i < self.iters.len()
            invariant
                0 <= i <= self.iters@.len(),
                counts == counts_of(self.iters@),
                forall|j: int| 0 <= j < self.iters@.len() ==> (#[trigger] self.iters@[j]).wf(),
                total == counted(sum_upto(counts, i as int)),
            decreases self.iters@.len() - i,
        {
            assert(self.iters@[i as int].wf());
            if self.iters[i].is_valid() {
                total = total.saturating_add(self.iters[i].num_active_iterators());
            }
            i = i + 1;
        }
        total
    }
}

} // verus!
