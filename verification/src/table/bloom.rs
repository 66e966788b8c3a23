//! A Bloom filter over the hashes of a table's keys: a hash that was put in
//! is always found again; one that was not is mostly told apart.

use crate::error::StorageError;
use crate::wire::{copy_range, put_slice};
use vstd::prelude::*;

verus! {

/// The hash of a key under which the filter knows it (FNV-1a, 32 bits).
pub open spec fn key_hash_spec(key: Seq<u8>) -> u32
    decreases key.len(),
{
    if key.len() == 0 {
        2166136261u32
    } else {
        hash_step(key_hash_spec(key.drop_last()), key.last())
    }
}

/// One step of the key hash: mix in a byte, multiply, keep 32 bits.
pub open spec fn hash_step(h: u32, b: u8) -> u32 {
    (((h ^ (b as u32)) as int * 16777619) % 4294967296) as u32
}

/// The distance between the places that are probed for the hash `h`.
pub open spec fn probe_delta(h: u32) -> u32 {
    (h >> 17) | (h << 15)
}

/// The hash value from which probe number `j` is taken.
pub open spec fn probe_hash(h: u32, j: int) -> u32
    decreases j,
{
    if j <= 0 {
        h
    } else {
        ((probe_hash(h, j - 1) as int + probe_delta(h) as int) % 4294967296) as u32
    }
}

/// The bit that probe number `j` for the hash `h` falls on, in a filter of `len` bytes.
pub open spec fn probe_pos(len: int, h: u32, j: int) -> int {
    probe_hash(h, j) as int % (len * 8)
}

/// Whether bit number `pos` of the filter is set.
pub open spec fn bit_is_set(filter: Seq<u8>, pos: int) -> bool {
    (filter[pos / 8] >> ((pos % 8) as u8)) & 1u8 == 1u8
}

/// Whether all `k` places that belong to `h` are set in `filter`. A filter
/// without bits, or with more than 30 probes, tells nothing apart.
pub open spec fn may_contain_spec(filter: Seq<u8>, k: u8, h: u32) -> bool {
    k > 30 || filter.len() == 0 || forall|j: int|
        0 <= j < k ==> bit_is_set(filter, #[trigger] probe_pos(filter.len() as int, h, j))
}

/// Number of places probed for each hash in a filter with `bits_per_key`
/// bits to the key: 69 hundredths of that number, and 1 to 30.
pub open spec fn probes_for(bits_per_key: int) -> int {
    if bits_per_key >= 44 {
        30
    } else if bits_per_key < 2 {
        1
    } else {
        bits_per_key * 69 / 100
    }
}

/// Number of bytes of a filter for `num_keys` keys with `bits_per_key` bits
/// to the key: room for 64 bits at least and 2^30 bits at most.
pub open spec fn filter_len(num_keys: int, bits_per_key: int) -> int {
    let bits = num_keys * bits_per_key;
    if bits > 1073741824 {
        134217728
    } else if bits < 64 {
        8
    } else {
        (bits + 7) / 8
    }
}

/// Whether bit `pos` of a filter of `len` bytes is one that is set for the
/// first `n` of `keys`, or by the first `c` probes for the key behind them.
pub open spec fn marked(keys: Seq<u32>, k: int, len: int, n: int, c: int, pos: int) -> bool {
    exists|a: int, j: int|
        0 <= a <= n && a < keys.len() && 0 <= j < (if a < n {
            k
        } else {
            c
        }) && pos == #[trigger] probe_pos(len, keys[a], j)
}

/// Whether `written` is the filter of the hashes `keys` with `bits_per_key`
/// bits to the key, as it is written: the field of bits in which the places
/// of those hashes are set and no others, and the number of probes behind it.
pub open spec fn is_filter_of(written: Seq<u8>, keys: Seq<u32>, bits_per_key: int) -> bool {
    let len = filter_len(keys.len() as int, bits_per_key);
    &&& written.len() == len + 1
    &&& written[len] == probes_for(bits_per_key)
    &&& forall|pos: int|
        0 <= pos < len * 8 ==> (#[trigger] bit_is_set(written.subrange(0, len), pos) <==> marked(
            keys,
            probes_for(bits_per_key),
            len,
            keys.len() as int,
            0,
            pos,
        ))
}

/// Setting a bit of a byte sets that bit and leaves the other bits as they are.
proof fn lemma_set_bit(b: u8, s: u8, t: u8)
    requires
        s < 8,
        t < 8,
    ensures
        ((b | (1u8 << s)) >> s) & 1u8 == 1u8,
        t != s ==> ((b | (1u8 << s)) >> t) & 1u8 == (b >> t) & 1u8,
        (0u8 >> t) & 1u8 == 0u8,
{
    assert(((b | (1u8 << s)) >> s) & 1u8 == 1u8) by (bit_vector)
        requires
            s < 8,
    ;
    assert(t != s ==> ((b | (1u8 << s)) >> t) & 1u8 == (b >> t) & 1u8) by (bit_vector)
        requires
            s < 8,
            t < 8,
    ;
    assert((0u8 >> t) & 1u8 == 0u8) by (bit_vector);
}

/// Setting bit `pos` of a filter sets that bit and leaves the other bits as
/// they are.
proof fn lemma_set_filter_bit(before: Seq<u8>, after: Seq<u8>, pos: int)
    requires
        0 <= pos < before.len() * 8,
        after == before.update(pos / 8, before[pos / 8] | (1u8 << ((pos % 8) as u8))),
    ensures
        forall|p: int|
            0 <= p < before.len() * 8 ==> (#[trigger] bit_is_set(after, p) <==> bit_is_set(before, p) || p
                == pos),
{
    assert forall|p: int| 0 <= p < before.len() * 8 implies (#[trigger] bit_is_set(after, p)
        <==> bit_is_set(before, p) || p == pos) by {
        if p / 8 == pos / 8 {
            lemma_set_bit(before[pos / 8], (pos % 8) as u8, (p % 8) as u8);
        }
    }
}

/// Computes the hash of a key under which the filter knows it.
pub fn key_hash(key: &[u8]) -> (h: u32)
    ensures
        h == key_hash_spec(key@),
{
    let mut h: u32 = 2166136261;
    let mut i: usize = 0;
    assert(key@.subrange(0, 0) =~= Seq::<u8>::empty());
    while i < key.len()
        invariant
            0 <= i <= key@.len(),
            h == key_hash_spec(key@.subrange(0, i as int)),
        decreases key@.len() - i,
    {
        let mixed: u32 = h ^ (key[i] as u32);
        proof {
            let next = key@.subrange(0, i as int + 1);
            assert(next.drop_last() =~= key@.subrange(0, i as int));
            assert(next.last() == key@[i as int]);
        }
        h = ((mixed as u64 * 16777619u64) % 4294967296u64) as u32;
        i = i + 1;
    }
    assert(key@.subrange(0, key@.len() as int) =~= key@);
    h
}

/// One more probe for the key behind the first `n` marks the place of that
/// probe, and nothing else.
proof fn lemma_marked_step(keys: Seq<u32>, k: int, len: int, n: int, c: int)
    requires
        0 <= n < keys.len(),
        0 <= c < k,
    ensures
        forall|pos: int|
            #[trigger] marked(keys, k, len, n, c + 1, pos) <==> marked(keys, k, len, n, c, pos) || pos
                == probe_pos(len, keys[n], c),
{
    assert forall|pos: int| #[trigger]
        marked(keys, k, len, n, c + 1, pos) <==> marked(keys, k, len, n, c, pos) || pos == probe_pos(
            len,
            keys[n],
            c,
        ) by {
        if marked(keys, k, len, n, c + 1, pos) {
            let (a, j) = choose|a: int, j: int|
                0 <= a <= n && a < keys.len() && 0 <= j < (if a < n {
                    k
                } else {
                    c + 1
                }) && pos == #[trigger] probe_pos(len, keys[a], j);
            if !(a == n && j == c) {
                assert(pos == probe_pos(len, keys[a], j));
                assert(marked(keys, k, len, n, c, pos));
            }
        }
        if marked(keys, k, len, n, c, pos) {
            let (a, j) = choose|a: int, j: int|
                0 <= a <= n && a < keys.len() && 0 <= j < (if a < n {
                    k
                } else {
                    c
                }) && pos == #[trigger] probe_pos(len, keys[a], j);
            assert(pos == probe_pos(len, keys[a], j));
            assert(marked(keys, k, len, n, c + 1, pos));
        }
        if pos == probe_pos(len, keys[n], c) {
            assert(marked(keys, k, len, n, c + 1, pos));
        }
    }
}

/// All probes for the key behind the first `n` mark what that key with the
/// first `n` marks.
proof fn lemma_marked_next_key(keys: Seq<u32>, k: int, len: int, n: int)
    requires
        0 <= n < keys.len(),
    ensures
        forall|pos: int| #[trigger] marked(keys, k, len, n, k, pos) <==> marked(keys, k, len, n + 1, 0, pos),
{
    assert forall|pos: int| #[trigger]
        marked(keys, k, len, n, k, pos) <==> marked(keys, k, len, n + 1, 0, pos) by {
        if marked(keys, k, len, n, k, pos) {
            let (a, j) = choose|a: int, j: int|
                0 <= a <= n && a < keys.len() && 0 <= j < (if a < n {
                    k
                } else {
                    k
                }) && pos == #[trigger] probe_pos(len, keys[a], j);
            assert(pos == probe_pos(len, keys[a], j));
            assert(marked(keys, k, len, n + 1, 0, pos));
        }
        if marked(keys, k, len, n + 1, 0, pos) {
            let (a, j) = choose|a: int, j: int|
                0 <= a <= n + 1 && a < keys.len() && 0 <= j < (if a < n + 1 {
                    k
                } else {
                    0
                }) && pos == #[trigger] probe_pos(len, keys[a], j);
            assert(pos == probe_pos(len, keys[a], j));
            assert(marked(keys, k, len, n, k, pos));
        }
    }
}

/// A Bloom filter: a field of bits and the number of places probed for each hash.
pub struct Bloom {
    /// The bits, eight to a byte, lowest bit first.
    pub(crate) filter: Vec<u8>,
    /// Number of places that are probed for each hash.
    pub(crate) k: u8,
}

impl Bloom {
    /// The bits of the filter.
    pub closed spec fn bits(&self) -> Seq<u8> {
        self.filter@
    }

    /// Number of places that are probed for each hash.
    pub closed spec fn probes(&self) -> u8 {
        self.k
    }

    /// The filter as it is written: its bits, then the number of probes in one byte.
    pub open spec fn encoding(&self) -> Seq<u8> {
        self.bits().push(self.probes())
    }

    /// Whether the filter lets the hash `h` through.
    pub open spec fn lets_through(&self, h: u32) -> bool {
        may_contain_spec(self.bits(), self.probes(), h)
    }

    /// Reads a filter back: the last byte is the number of probes, the bytes
    /// before it are the bits. Nothing at all is a format error.
    pub fn decode(buf: &[u8]) -> (r: Result<Bloom, StorageError>)
        ensures
            match r {
                Ok(b) => buf@.len() >= 1 && b.encoding() == buf@,
                Err(e) => e == StorageError::Format && buf@.len() == 0,
            },
    {
        let len: usize = buf.len();
        if len == 0 {
            return Err(StorageError::Format);
        }
        let filter: Vec<u8> = copy_range(buf, 0, len - 1);
        let b = Bloom { filter, k: buf[len - 1] };
        assert(b.encoding() =~= buf@);
        Ok(b)
    }

    /// Writes the filter behind what `buf` holds.
    pub fn encode(&self, buf: &mut Vec<u8>)
        ensures
            final(buf)@ == old(buf)@ + self.encoding(),
    {
        put_slice(buf, self.filter.as_slice());
        buf.push(self.k);
        assert(buf@ =~= old(buf)@ + self.encoding());
    }

    /// Builds the filter of the hashes `keys`: in a field of about
    /// `bits_per_key` bits for each of them, the places that belong to the
    /// hashes are set and no others. So every hash of `keys` is let through.
    pub fn build_from_keys(keys: &[u32], bits_per_key: usize) -> (b: Bloom)
        ensures
            b.probes() == probes_for(bits_per_key as int),
            b.bits().len() == filter_len(keys@.len() as int, bits_per_key as int),
            forall|pos: int|
                0 <= pos < b.bits().len() * 8 ==> (#[trigger] bit_is_set(b.bits(), pos) <==> marked(
                    keys@,
                    b.probes() as int,
                    b.bits().len() as int,
                    keys@.len() as int,
                    0,
                    pos,
                )),
            forall|i: int| 0 <= i < keys@.len() ==> b.lets_through(#[trigger] keys@[i]),
            is_filter_of(b.encoding(), keys@, bits_per_key as int),
    {
        let k: u8 = if bits_per_key >= 44 {
            30
        } else if bits_per_key < 2 {
            1
        } else {
            (bits_per_key * 69 / 100) as u8
        };
        let nbytes: usize = match keys.len().checked_mul(bits_per_key) {
            Some(n) => if n > 1073741824 {
                134217728
            } else if n < 64 {
                8
            } else {
                (n + 7) / 8
            },
            None => 134217728,
        };
        let nbits: usize = nbytes * 8;
        let mut filter: Vec<u8> = vec![0u8; nbytes];
        proof {
            assert forall|pos: int| 0 <= pos < nbits implies (#[trigger] bit_is_set(filter@, pos) <==> marked(
                keys@,
                k as int,
                nbytes as int,
                0,
                0,
                pos,
            )) by {
                lemma_set_bit(0u8, 0u8, (pos % 8) as u8);
            }
        }
        let mut i: usize = 0;
        while i < keys.len()
            invariant
                0 <= i <= keys@.len(),
                1 <= k <= 30,
                8 <= nbytes <= 134217728,
                nbits == nbytes * 8,
                filter@.len() == nbytes,
                forall|pos: int|
                    0 <= pos < nbits ==> (#[trigger] bit_is_set(filter@, pos) <==> marked(
                        keys@,
                        k as int,
                        nbytes as int,
                        i as int,
                        0,
                        pos,
                    )),
            decreases keys@.len() - i,
        {
            let h0: u32 = keys[i];
            let delta: u32 = (h0 >> 17) | (h0 << 15);
            let mut h: u32 = h0;
            let mut j: u8 = 0;
            while j < k
                invariant
                    0 <= j <= k,
                    1 <= k <= 30,
                    0 <= i < keys@.len(),
                    h0 == keys@[i as int],
                    delta == probe_delta(h0),
                    h == probe_hash(h0, j as int),
                    8 <= nbytes <= 134217728,
                    nbits == nbytes * 8,
                    filter@.len() == nbytes,
                    forall|pos: int|
                        0 <= pos < nbits ==> (#[trigger] bit_is_set(filter@, pos) <==> marked(
                            keys@,
                            k as int,
                            nbytes as int,
                            i as int,
                            j as int,
                            pos,
                        )),
                decreases k - j,
            {
                let pos: usize = (h as usize) % nbits;
                let ghost before = filter@;
                let byte: u8 = filter[pos / 8];
                let shift: u8 = (pos % 8) as u8;
                filter[pos / 8] = byte | (1u8 << shift);
                proof {
                    assert(pos as int == probe_pos(nbytes as int, keys@[i as int], j as int));
                    lemma_set_filter_bit(before, filter@, pos as int);
                    lemma_marked_step(keys@, k as int, nbytes as int, i as int, j as int);
                }
                h = ((h as u64 + delta as u64) % 4294967296u64) as u32;
                j = j + 1;
            }
            proof {
                lemma_marked_next_key(keys@, k as int, nbytes as int, i as int);
            }
            i = i + 1;
        }
        let b = Bloom { filter, k };
        proof {
            assert forall|a: int| 0 <= a < keys@.len() implies b.lets_through(#[trigger] keys@[a]) by {
                assert forall|c: int| 0 <= c < k implies bit_is_set(
                    b.bits(),
                    #[trigger] probe_pos(nbytes as int, keys@[a], c),
                ) by {
                    let p = probe_pos(nbytes as int, keys@[a], c);
                    assert(marked(keys@, k as int, nbytes as int, keys@.len() as int, 0, p));
                }
            }
            assert(b.encoding().subrange(0, nbytes as int) =~= b.bits());
        }
        b
    }

    /// Whether the hash `h` may have been put into the filter. `false` means
    /// that it was not.
    pub fn may_contain(&self, h: u32) -> (r: bool)
        ensures
            r == self.lets_through(h),
    {
        if self.k > 30 || self.filter.len() == 0 {
            return true;
        }
        if self.filter.len() > usize::MAX / 8 {
            return self.may_contain_wide(h);
        }
        let nbits: usize = self.filter.len() * 8;
        let delta: u32 = (h >> 17) | (h << 15);
        let mut cur: u32 = h;
        let mut j: u8 = 0;
        while j < self.k
            invariant
                0 <= j <= self.k <= 30,
                nbits == self.filter@.len() * 8,
                nbits > 0,
                delta == probe_delta(h),
                cur == probe_hash(h, j as int),
                forall|c: int|
                    0 <= c < j ==> bit_is_set(self.filter@, #[trigger] probe_pos(self.filter@.len() as int, h, c)),
            decreases self.k - j,
        {
            let pos: usize = (cur as usize) % nbits;
            if (self.filter[pos / 8] >> ((pos % 8) as u8)) & 1u8 != 1u8 {
                assert(!bit_is_set(self.filter@, probe_pos(self.filter@.len() as int, h, j as int)));
                return false;
            }
            cur = ((cur as u64 + delta as u64) % 4294967296u64) as u32;
            j = j + 1;
        }
        true
    }

    /// The same test for a filter so long that the number of its bits is no
    /// `usize`: every hash falls into its first 2^32 bits.
    fn may_contain_wide(&self, h: u32) -> (r: bool)
        requires
            self.k <= 30,
            self.filter@.len() > usize::MAX / 8,
        ensures
            r == self.lets_through(h),
    {
        let delta: u32 = (h >> 17) | (h << 15);
        let mut cur: u32 = h;
        let mut j: u8 = 0;
        while j < self.k
            invariant
                0 <= j <= self.k <= 30,
                self.filter@.len() > usize::MAX / 8,
                delta == probe_delta(h),
                cur == probe_hash(h, j as int),
                forall|c: int|
                    0 <= c < j ==> bit_is_set(self.filter@, #[trigger] probe_pos(self.filter@.len() as int, h, c)),
            decreases self.k - j,
        {
            let pos: usize = cur as usize;
            assert(probe_pos(self.filter@.len() as int, h, j as int) == pos) by {
                assert(usize::MAX >= 4294967295);
                assert(self.filter@.len() * 8 > cur);
                vstd::arithmetic::div_mod::lemma_small_mod(cur as nat, (self.filter@.len() * 8) as nat);
            }
            if (self.filter[pos / 8] >> ((pos % 8) as u8)) & 1u8 != 1u8 {
                assert(!bit_is_set(self.filter@, probe_pos(self.filter@.len() as int, h, j as int)));
                return false;
            }
            cur = ((cur as u64 + delta as u64) % 4294967296u64) as u32;
            j = j + 1;
        }
        true
    }
}

} // verus!
