//! The append-only byte region that the copying interner stores its entries in.
//!
//! An entry is an eight-byte little-endian element count, then the raw bytes,
//! then (when the region is null-terminated) one zero byte.
use vstd::prelude::*;

verus! {

/// Size of the header that precedes each entry's raw bytes.
pub const METADATA_SIZE: usize = 8;

/// Largest capacity the region may ever reach.
pub const MAX_ARENA_SIZE: usize = 0x4000_0000;

/// The header bytes of an entry holding `n` elements.
pub open spec fn header_bytes(n: u64) -> Seq<u8> {
    seq![
        n as u8,
        (n >> 8u64) as u8,
        (n >> 16u64) as u8,
        (n >> 24u64) as u8,
        (n >> 32u64) as u8,
        (n >> 40u64) as u8,
        (n >> 48u64) as u8,
        (n >> 56u64) as u8,
    ]
}

/// The element count that eight header bytes describe.
pub open spec fn header_value(b: Seq<u8>) -> u64 {
    (b[0] as u64) | ((b[1] as u64) << 8u64) | ((b[2] as u64) << 16u64) | ((b[3] as u64) << 24u64)
        | ((b[4] as u64) << 32u64) | ((b[5] as u64) << 40u64) | ((b[6] as u64) << 48u64) | ((
    b[7] as u64) << 56u64)
}

/// Number of bytes an entry of `n` raw bytes takes in the region.
pub open spec fn entry_size(n: nat, null_terminated: bool) -> nat {
    METADATA_SIZE as nat + n + if null_terminated {
        1nat
    } else {
        0nat
    }
}

/// The bytes of the entry that stores `v`.
pub open spec fn encode_entry(v: Seq<u8>, null_terminated: bool) -> Seq<u8> {
    header_bytes(v.len() as u64) + v + if null_terminated {
        seq![0u8]
    } else {
        Seq::<u8>::empty()
    }
}

/// `n` is a power of two.
pub open spec fn is_pow2(n: nat) -> bool
    decreases n,
{
    if n == 1 {
        true
    } else if n < 2 || n % 2 == 1 {
        false
    } else {
        is_pow2(n / 2)
    }
}

/// `p` is the smallest power of two that is at least `n`.
pub open spec fn is_next_pow2(n: nat, p: nat) -> bool {
    is_pow2(p) && n <= p && (p == 1 || p / 2 < n)
}

pub open spec fn max_nat(a: nat, b: nat) -> nat {
    if a >= b {
        a
    } else {
        b
    }
}

/// The capacity the region takes on when it must grow from `old_cap` to fit
/// `needed` more bytes: exactly `needed` for the first allocation, then the
/// next power of two of `max(2 * old_cap, old_cap + needed)`, held at the
/// maximum size (itself a power of two) when that is larger.
pub open spec fn grown_capacity(old_cap: nat, needed: nat, p: nat) -> bool {
    if old_cap == 0 {
        p == needed
    } else {
        let t = max_nat(2 * old_cap, old_cap + needed);
        if t <= MAX_ARENA_SIZE {
            is_next_pow2(t, p)
        } else {
            p == MAX_ARENA_SIZE
        }
    }
}

proof fn lemma_header_round_trip(n: u64)
    ensures
        header_value(header_bytes(n)) == n,
{
    let b = header_bytes(n);
    let (b0, b1, b2, b3, b4, b5, b6, b7) = (b[0], b[1], b[2], b[3], b[4], b[5], b[6], b[7]);
    assert(b0 == n as u8 && b1 == (n >> 8u64) as u8 && b2 == (n >> 16u64) as u8 && b3 == (n
        >> 24u64) as u8 && b4 == (n >> 32u64) as u8 && b5 == (n >> 40u64) as u8 && b6 == (n
        >> 48u64) as u8 && b7 == (n >> 56u64) as u8);
    assert((b0 == n as u8 && b1 == (n >> 8u64) as u8 && b2 == (n >> 16u64) as u8 && b3 == (n
        >> 24u64) as u8 && b4 == (n >> 32u64) as u8 && b5 == (n >> 40u64) as u8 && b6 == (n
        >> 48u64) as u8 && b7 == (n >> 56u64) as u8) ==> ((b0 as u64) | ((b1 as u64) << 8u64)
        | ((b2 as u64) << 16u64) | ((b3 as u64) << 24u64) | ((b4 as u64) << 32u64) | ((
    b5 as u64) << 40u64) | ((b6 as u64) << 48u64) | ((b7 as u64) << 56u64)) == n)
        by (bit_vector);
}

proof fn lemma_pow2_below_double(p: nat, m: nat)
    requires
        is_pow2(p),
        is_pow2(m),
        p < 2 * m,
    ensures
        p <= m,
    decreases m,
{
    if m != 1 && p != 1 {
        lemma_pow2_below_double(p / 2, m / 2);
    }
}

proof fn lemma_max_is_pow2()
    ensures
        is_pow2(MAX_ARENA_SIZE as nat),
{
    reveal_with_fuel(is_pow2, 32);
}

/// The smallest power of two that is at least `n`.
pub fn next_power_of_two(n: usize) -> (p: usize)
    requires
        n <= MAX_ARENA_SIZE * 2,
    ensures
        is_next_pow2(n as nat, p as nat),
{
    let mut p: usize = 1;
    proof {
        reveal_with_fuel(is_pow2, 2);
        lemma_max_is_pow2();
    }
    while p < n
        invariant
            is_pow2(p as nat),
            is_pow2(MAX_ARENA_SIZE as nat),
            n <= MAX_ARENA_SIZE * 2,
            1 <= p <= MAX_ARENA_SIZE * 2,
            p == 1 || p / 2 < n,
        decreases MAX_ARENA_SIZE * 2 - p,
    {
        proof {
            lemma_pow2_below_double(p as nat, MAX_ARENA_SIZE as nat);
        }
        let q = p * 2;
        assert(q / 2 == p);
        assert(q % 2 == 0);
        assert(q > p);
        p = q;
    }
    p
}

/// `a` and `b` hold the same bytes.
pub fn bytes_equal(a: &[u8], b: &[u8]) -> (r: bool)
    ensures
        r == (a@ == b@),
{
    if a.len() != b.len() {
        return false;
    }
    let mut i: usize = 0;
    while i < a.len()
        invariant
            a@.len() == b@.len(),
            i <= a@.len(),
            forall|j: int| 0 <= j < i ==> a@[j] == b@[j],
        decreases a@.len() - i,
    {
        if a[i] != b[i] {
            return false;
        }
        i = i + 1;
    }
    assert(a@ =~= b@);
    true
}

/// Append-only growable byte region holding encoded entries, addressed by the
/// offset at which each entry starts.
pub struct StackBuf {
    bytes: Vec<u8>,
    cap: usize,
    null_terminated: bool,
    stored: Ghost<Map<usize, Seq<u8>>>,
}

impl StackBuf {
    /// The values stored in the region, by the offset of their entry.
    pub closed spec fn entries(&self) -> Map<usize, Seq<u8>> {
        self.stored@
    }

    /// The offset at which the next entry will be written.
    pub closed spec fn end(&self) -> nat {
        self.bytes@.len()
    }

    /// The capacity that the growth policy has reserved so far.
    pub closed spec fn capacity(&self) -> nat {
        self.cap as nat
    }

    /// Whether each entry is followed by a zero byte.
    pub closed spec fn null_terminated(&self) -> bool {
        self.null_terminated
    }

    /// The written bytes fit in the reserved capacity, and each stored value's
    /// entry lies, encoded, at its offset.
    pub closed spec fn wf(&self) -> bool {
        &&& self.bytes@.len() <= self.cap <= MAX_ARENA_SIZE
        &&& forall|off: usize| #[trigger]
            self.stored@.contains_key(off) ==> {
                let v = self.stored@[off];
                &&& off + entry_size(v.len(), self.null_terminated) <= self.bytes@.len()
                &&& self.bytes@.subrange(
                    off as int,
                    off + entry_size(v.len(), self.null_terminated),
                ) == encode_entry(v, self.null_terminated)
            }
    }

    /// Every entry starts before the end of the region.
    pub proof fn lemma_entries_below_end(&self)
        requires
            self.wf(),
        ensures
            forall|o: usize| #[trigger] self.entries().contains_key(o) ==> o < self.end(),
            self.end() <= MAX_ARENA_SIZE,
    {
        assert forall|o: usize| #[trigger] self.entries().contains_key(o) implies o < self.end() by {
            assert(o + entry_size(self.stored@[o].len(), self.null_terminated) <= self.bytes@.len());
        }
    }

    /// An empty region; nothing is allocated until the first write.
    pub fn new(null_terminated: bool) -> (r: StackBuf)
        ensures
            r.wf(),
            r.entries() == Map::<usize, Seq<u8>>::empty(),
            r.end() == 0,
            r.capacity() == 0,
            r.null_terminated() == null_terminated,
    {
        StackBuf { bytes: Vec::new(), cap: 0, null_terminated, stored: Ghost(Map::empty()) }
    }

    /// Whether each entry is followed by a zero byte.
    pub fn is_null_terminated(&self) -> (r: bool)
        ensures
            r == self.null_terminated(),
    {
        self.null_terminated
    }

    /// The number of bytes written so far.
    pub fn len(&self) -> (r: usize)
        ensures
            r == self.end(),
    {
        self.bytes.len()
    }

    /// The capacity that the growth policy has reserved so far.
    pub fn reserved(&self) -> (r: usize)
        ensures
            r == self.capacity(),
    {
        self.cap
    }

    /// Bytes still free in the reserved capacity.
    pub fn remaining_size(&self) -> (r: usize)
        requires
            self.wf(),
        ensures
            r == self.capacity() - self.end(),
    {
        self.cap - self.bytes.len()
    }

    /// Whether an entry of `new_size` bytes does not fit in what remains.
    pub fn should_resize(&self, new_size: usize) -> (r: bool)
        requires
            self.wf(),
        ensures
            r == (new_size > self.capacity() - self.end()),
    {
        new_size > self.remaining_size()
    }

    /// The offset at which the next entry starts. Entries hold bytes, whose
    /// alignment is one, so no padding is ever needed.
    pub fn next_aligned_idx(&self) -> (r: usize)
        ensures
            r == self.end(),
    {
        self.bytes.len()
    }

    /// The capacity to grow to so that `needed` more bytes fit.
    pub fn new_capacity(&self, needed: usize) -> (r: usize)
        requires
            self.wf(),
            self.end() + needed <= MAX_ARENA_SIZE,
        ensures
            grown_capacity(self.capacity(), needed as nat, r as nat),
            self.end() + needed <= r <= MAX_ARENA_SIZE,
    {
        if self.cap == 0 {
            return needed;
        }
        let doubled = self.cap * 2;
        let summed = self.cap + needed;
        let t = if doubled >= summed {
            doubled
        } else {
            summed
        };
        if t > MAX_ARENA_SIZE {
            MAX_ARENA_SIZE
        } else {
            let p = next_power_of_two(t);
            proof {
                lemma_max_is_pow2();
                if p > 1 {
                    assert(p % 2 == 0);
                    lemma_pow2_below_double(p as nat, MAX_ARENA_SIZE as nat);
                }
            }
            p
        }
    }

    /// Grows the reserved capacity by the growth policy so that `needed`
    /// more bytes fit; the stored bytes stay as they are.
    pub fn resize(&mut self, needed: usize)
        requires
            old(self).wf(),
            old(self).end() + needed <= MAX_ARENA_SIZE,
        ensures
            final(self).wf(),
            final(self).entries() == old(self).entries(),
            final(self).end() == old(self).end(),
            final(self).null_terminated() == old(self).null_terminated(),
            grown_capacity(old(self).capacity(), needed as nat, final(self).capacity()),
            final(self).end() + needed <= final(self).capacity(),
    {
        let new_cap = self.new_capacity(needed);
        let additional = new_cap - self.bytes.len();
        self.bytes.reserve(additional);
        self.cap = new_cap;
    }

    /// Appends the entry of `v` and returns the offset at which it starts,
    /// growing the region first when the entry does not fit.
    pub fn write_to_buf(&mut self, v: &[u8]) -> (start: usize)
        requires
            old(self).wf(),
            old(self).end() + entry_size(v@.len(), old(self).null_terminated()) <= MAX_ARENA_SIZE,
        ensures
            final(self).wf(),
            start == old(self).end(),
            final(self).entries() == old(self).entries().insert(start, v@),
            final(self).end() == old(self).end() + entry_size(v@.len(), old(self).null_terminated()),
            final(self).null_terminated() == old(self).null_terminated(),
            if entry_size(v@.len(), old(self).null_terminated()) > old(self).capacity()
                - old(self).end() {
                grown_capacity(
                    old(self).capacity(),
                    entry_size(v@.len(), old(self).null_terminated()),
                    final(self).capacity(),
                )
            } else {
                final(self).capacity() == old(self).capacity()
            },
    {
        let dyn_size = v.len();
        let total_size = METADATA_SIZE + dyn_size + if self.null_terminated {
            1
        } else {
            0
        };
        if self.should_resize(total_size) {
            self.resize(total_size);
        }
        let start = self.next_aligned_idx();
        let ghost pre = *self;
        let ghost before = self.bytes@;
        let n = dyn_size as u64;
        self.bytes.push(#[verifier::truncate] (n as u8));
        self.bytes.push(#[verifier::truncate] ((n >> 8u64) as u8));
        self.bytes.push(#[verifier::truncate] ((n >> 16u64) as u8));
        self.bytes.push(#[verifier::truncate] ((n >> 24u64) as u8));
        self.bytes.push(#[verifier::truncate] ((n >> 32u64) as u8));
        self.bytes.push(#[verifier::truncate] ((n >> 40u64) as u8));
        self.bytes.push(#[verifier::truncate] ((n >> 48u64) as u8));
        self.bytes.push(#[verifier::truncate] ((n >> 56u64) as u8));
        assert(self.bytes@ =~= before + header_bytes(n));
        let mut i: usize = 0;
        while i < dyn_size
            invariant
                dyn_size == v@.len(),
                i <= dyn_size,
                self.stored == pre.stored,
                self.cap == pre.cap,
                self.null_terminated == pre.null_terminated,
                self.bytes@ =~= before + header_bytes(n) + v@.subrange(0, i as int),
            decreases dyn_size - i,
        {
            self.bytes.push(v[i]);
            i = i + 1;
            assert(self.bytes@ =~= before + header_bytes(n) + v@.subrange(0, i as int));
        }
        if self.null_terminated {
            self.bytes.push(0u8);
        }
        let ghost entry = encode_entry(v@, self.null_terminated);
        assert(self.bytes@ =~= before + entry);
        proof {
            let old_stored = self.stored@;
            self.stored = Ghost(old_stored.insert(start, v@));
            assert forall|off: usize| #[trigger]
                self.stored@.contains_key(off) implies {
                let w = self.stored@[off];
                &&& off + entry_size(w.len(), self.null_terminated) <= self.bytes@.len()
                &&& self.bytes@.subrange(
                    off as int,
                    off + entry_size(w.len(), self.null_terminated),
                ) == encode_entry(w, self.null_terminated)
            } by {
                if off == start {
                    assert(self.bytes@.subrange(
                        off as int,
                        off + entry_size(v@.len(), self.null_terminated),
                    ) =~= entry);
                } else {
                    let w = self.stored@[off];
                    assert(pre.stored@.contains_key(off));
                    assert(self.bytes@.subrange(
                        off as int,
                        off + entry_size(w.len(), self.null_terminated),
                    ) =~= before.subrange(
                        off as int,
                        off + entry_size(w.len(), self.null_terminated),
                    ));
                }
            }
        }
        start
    }

    /// The element count recorded in the header of the entry at `offset`.
    pub fn get_metadata(&self, offset: usize) -> (n: usize)
        requires
            self.wf(),
            self.entries().contains_key(offset),
        ensures
            n == self.entries()[offset].len(),
    {
        let ghost v = self.stored@[offset];
        proof {
            let e = self.bytes@.subrange(
                offset as int,
                offset + entry_size(v.len(), self.null_terminated),
            );
            assert(e == encode_entry(v, self.null_terminated));
            assert(self.bytes@.subrange(offset as int, offset + 8) =~= e.subrange(0, 8));
            assert(e.subrange(0, 8) =~= header_bytes(v.len() as u64));
            lemma_header_round_trip(v.len() as u64);
        }
        let b = &self.bytes;
        let h = (b[offset] as u64) | ((b[offset + 1] as u64) << 8u64) | ((b[offset + 2] as u64)
            << 16u64) | ((b[offset + 3] as u64) << 24u64) | ((b[offset + 4] as u64) << 32u64) | ((
        b[offset + 5] as u64) << 40u64) | ((b[offset + 6] as u64) << 48u64) | ((b[offset
            + 7] as u64) << 56u64);
        proof {
            let hb = self.bytes@.subrange(offset as int, offset + 8);
            assert(h == header_value(hb));
        }
        h as usize
    }

    /// The value stored in the entry at `offset`.
    pub fn get_unchecked(&self, offset: usize) -> (r: &[u8])
        requires
            self.wf(),
            self.entries().contains_key(offset),
        ensures
            r@ == self.entries()[offset],
    {
        let ghost v = self.stored@[offset];
        let n = self.get_metadata(offset);
        let start = offset + METADATA_SIZE;
        proof {
            let e = self.bytes@.subrange(
                offset as int,
                offset + entry_size(v.len(), self.null_terminated),
            );
            assert(e == encode_entry(v, self.null_terminated));
            assert(self.bytes@.subrange(start as int, start + n) =~= e.subrange(8, 8 + n));
            assert(encode_entry(v, self.null_terminated).subrange(8, 8 + n) =~= v);
        }
        &self.bytes.as_slice()[start..start + n]
    }

    /// The value stored in the entry at `offset` followed by its terminating
    /// zero byte.
    pub fn get_terminated(&self, offset: usize) -> (r: &[u8])
        requires
            self.wf(),
            self.null_terminated(),
            self.entries().contains_key(offset),
        ensures
            r@ == self.entries()[offset].push(0u8),
    {
        let ghost v = self.stored@[offset];
        let n = self.get_metadata(offset);
        let start = offset + METADATA_SIZE;
        proof {
            let e = self.bytes@.subrange(
                offset as int,
                offset + entry_size(v.len(), self.null_terminated),
            );
            assert(e == encode_entry(v, self.null_terminated));
            assert(self.bytes@.subrange(start as int, start + n + 1) =~= e.subrange(8, 9 + n));
            assert(encode_entry(v, self.null_terminated).subrange(8, 9 + n) =~= v.push(0u8));
        }
        &self.bytes.as_slice()[start..start + n + 1]
    }
}

} // verus!
