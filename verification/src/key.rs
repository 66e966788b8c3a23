//! Keys and values are plain byte strings; keys are ordered lexicographically.

use vstd::prelude::*;

verus! {

/// Longest key, in bytes, that the block and table formats can carry.
pub const MAX_KEY_LEN: usize = 65535;

/// Longest value, in bytes, that the block format can carry.
pub const MAX_VALUE_LEN: usize = 65535;

/// A key is a non-empty byte string of at most 65535 bytes. The empty string
/// is kept free so that it can stand for "no current entry".
pub open spec fn valid_key(k: Seq<u8>) -> bool {
    1 <= k.len() <= 65535
}

/// A value is a byte string of at most 65535 bytes; the empty one marks a deletion.
pub open spec fn valid_value(v: Seq<u8>) -> bool {
    v.len() <= 65535
}

/// The first position at or after `i` where `a` and `b` differ or one of them ends.
pub open spec fn agree_from(a: Seq<u8>, b: Seq<u8>, i: int) -> int
    decreases a.len() - i,
{
    if 0 <= i < a.len() && i < b.len() && a[i] == b[i] {
        agree_from(a, b, i + 1)
    } else {
        i
    }
}

/// Length of the longest common prefix of `a` and `b`.
pub open spec fn common_prefix_len(a: Seq<u8>, b: Seq<u8>) -> int {
    agree_from(a, b, 0)
}

/// Strict lexicographic order on byte strings.
pub open spec fn key_lt(a: Seq<u8>, b: Seq<u8>) -> bool {
    let p = common_prefix_len(a, b);
    p < b.len() && (p == a.len() || a[p] < b[p])
}

/// Lexicographic order on byte strings.
pub open spec fn key_le(a: Seq<u8>, b: Seq<u8>) -> bool {
    a == b || key_lt(a, b)
}

/// What `agree_from` finds: the strings agree from `i` up to it, and differ there if both go on.
proof fn lemma_agree_from(a: Seq<u8>, b: Seq<u8>, i: int)
    requires
        0 <= i <= a.len(),
        i <= b.len(),
    ensures
        i <= agree_from(a, b, i) <= a.len(),
        agree_from(a, b, i) <= b.len(),
        forall|j: int| i <= j < agree_from(a, b, i) ==> a[j] == b[j],
        agree_from(a, b, i) < a.len() && agree_from(a, b, i) < b.len() ==> a[agree_from(a, b, i)]
            != b[agree_from(a, b, i)],
    decreases a.len() - i,
{
    if i < a.len() && i < b.len() && a[i] == b[i] {
        lemma_agree_from(a, b, i + 1);
    }
}

/// The common prefix length is a length of both strings up to which they
/// agree, and just behind which they differ, if both go on.
pub proof fn lemma_common_prefix(a: Seq<u8>, b: Seq<u8>)
    ensures
        0 <= common_prefix_len(a, b) <= a.len(),
        common_prefix_len(a, b) <= b.len(),
        forall|j: int| 0 <= j < common_prefix_len(a, b) ==> a[j] == b[j],
        common_prefix_len(a, b) < a.len() && common_prefix_len(a, b) < b.len() ==> a[common_prefix_len(
            a,
            b,
        )] != b[common_prefix_len(a, b)],
{
    lemma_agree_from(a, b, 0);
}

/// Only one length has the properties that `lemma_common_prefix` states.
pub proof fn lemma_common_prefix_unique(a: Seq<u8>, b: Seq<u8>, q: int)
    requires
        0 <= q <= a.len(),
        q <= b.len(),
        forall|j: int| 0 <= j < q ==> a[j] == b[j],
        q < a.len() && q < b.len() ==> a[q] != b[q],
    ensures
        common_prefix_len(a, b) == q,
{
    lemma_common_prefix(a, b);
    let p = common_prefix_len(a, b);
    if p < q {
        assert(a[p] == b[p]);
    } else if q < p {
        assert(a[q] == b[q]);
    }
}

/// The common prefix of two strings does not depend on their order.
pub proof fn lemma_common_prefix_symmetric(a: Seq<u8>, b: Seq<u8>)
    ensures
        common_prefix_len(a, b) == common_prefix_len(b, a),
{
    lemma_common_prefix(a, b);
    lemma_common_prefix_unique(b, a, common_prefix_len(a, b));
}

/// Of two byte strings exactly one holds: the first is smaller, they are
/// equal, or the second is smaller.
pub proof fn lemma_key_trichotomy(a: Seq<u8>, b: Seq<u8>)
    ensures
        key_lt(a, b) || a == b || key_lt(b, a),
        !(key_lt(a, b) && a == b),
        !(key_lt(b, a) && a == b),
        !(key_lt(a, b) && key_lt(b, a)),
{
    lemma_common_prefix(a, b);
    lemma_common_prefix_symmetric(a, b);
    let p = common_prefix_len(a, b);
    if p == a.len() && p == b.len() {
        assert(a =~= b);
    }
}

/// The strict order is transitive.
pub proof fn lemma_key_lt_transitive(a: Seq<u8>, b: Seq<u8>, c: Seq<u8>)
    requires
        key_lt(a, b),
        key_lt(b, c),
    ensures
        key_lt(a, c),
{
    lemma_common_prefix(a, b);
    lemma_common_prefix(b, c);
    let p = common_prefix_len(a, b);
    let q = common_prefix_len(b, c);
    let r = if p <= q { p } else { q };
    assert forall|j: int| 0 <= j < r implies a[j] == c[j] by {
        assert(a[j] == b[j]);
        assert(b[j] == c[j]);
    }
    if p < q {
        assert(b[p] == c[p]);
    } else if q < p {
        assert(a[q] == b[q]);
    }
    lemma_common_prefix_unique(a, c, r);
}

/// `key_le` is the strict order or equality; it is transitive too.
pub proof fn lemma_key_le_transitive(a: Seq<u8>, b: Seq<u8>, c: Seq<u8>)
    requires
        key_le(a, b),
        key_le(b, c),
    ensures
        key_le(a, c),
        key_lt(a, b) || key_lt(b, c) ==> key_lt(a, c),
{
    if key_lt(a, b) && key_lt(b, c) {
        lemma_key_lt_transitive(a, b, c);
    }
}

/// `key_le(a, b)` holds exactly when `b` is not strictly below `a`.
pub proof fn lemma_key_le_not_lt(a: Seq<u8>, b: Seq<u8>)
    ensures
        key_le(a, b) <==> !key_lt(b, a),
{
    lemma_key_trichotomy(a, b);
}

/// Whether `k` is a key that the formats can carry.
pub fn is_valid_key(k: &[u8]) -> (b: bool)
    ensures
        b == valid_key(k@),
{
    1 <= k.len() && k.len() <= MAX_KEY_LEN
}

/// Whether `v` is a value that the formats can carry.
pub fn is_valid_value(v: &[u8]) -> (b: bool)
    ensures
        b == valid_value(v@),
{
    v.len() <= MAX_VALUE_LEN
}

/// Computes the length of the longest common prefix of two byte strings.
pub fn common_prefix(a: &[u8], b: &[u8]) -> (p: usize)
    ensures
        p == common_prefix_len(a@, b@),
{
    let mut i: usize = 0;
    while i < a.len() && i < b.len() && a[i] == b[i]
        invariant
            0 <= i <= a@.len(),
            i <= b@.len(),
            agree_from(a@, b@, 0) == agree_from(a@, b@, i as int),
        decreases a@.len() - i,
    {
        i = i + 1;
    }
    i
}

/// Whether `a` comes strictly before `b` in lexicographic order.
pub fn key_less(a: &[u8], b: &[u8]) -> (r: bool)
    ensures
        r == key_lt(a@, b@),
{
    let p: usize = common_prefix(a, b);
    proof {
        lemma_common_prefix(a@, b@);
    }
    p < b.len() && (p == a.len() || a[p] < b[p])
}

/// Whether two byte strings are the same.
pub fn key_equal(a: &[u8], b: &[u8]) -> (r: bool)
    ensures
        r == (a@ == b@),
{
    let p: usize = common_prefix(a, b);
    proof {
        lemma_common_prefix(a@, b@);
        if p == a@.len() && p == b@.len() {
            assert(a@ =~= b@);
        }
    }
    p == a.len() && p == b.len()
}

/// Whether `a` comes before `b` in lexicographic order or equals it.
pub fn key_less_or_equal(a: &[u8], b: &[u8]) -> (r: bool)
    ensures
        r == key_le(a@, b@),
{
    proof {
        lemma_key_le_not_lt(a@, b@);
    }
    !key_less(b, a)
}

} // verus!
