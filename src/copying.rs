//! The copying interner: each distinct value is copied once into an arena and
//! handed out as a handle holding the offset of its entry.
use vstd::prelude::*;
use crate::arena::{bytes_equal, entry_size, StackBuf, MAX_ARENA_SIZE};
use crate::index::{content_hash, index_get, index_insert, index_new, index_view, make_hash, HashIndex};

verus! {

/// Some entry of `entries` holds `v`.
pub open spec fn holds_value(entries: Map<usize, Seq<u8>>, v: Seq<u8>) -> bool {
    exists|o: usize| #[trigger] entries.contains_key(o) && entries[o] == v
}

/// The offset of the entry that holds `v` (meaningful when one does).
pub open spec fn offset_of(entries: Map<usize, Seq<u8>>, v: Seq<u8>) -> usize {
    choose|o: usize| #[trigger] entries.contains_key(o) && entries[o] == v
}

/// No two entries hold the same value.
pub open spec fn unique_values(entries: Map<usize, Seq<u8>>) -> bool {
    forall|o1: usize, o2: usize|
        #[trigger] entries.contains_key(o1) && #[trigger] entries.contains_key(o2) && entries[o1]
            == entries[o2] ==> o1 == o2
}

/// Contents that an interner can have: values stored once, every entry
/// starting before `end`, and `end` within the arena's maximum size.
pub open spec fn valid_contents(entries: Map<usize, Seq<u8>>, end: nat) -> bool {
    &&& unique_values(entries)
    &&& forall|o: usize| #[trigger] entries.contains_key(o) ==> o < end
    &&& end <= MAX_ARENA_SIZE
}

/// The entries, the next free offset and the offset handed out after
/// interning `v`: the existing entry when one holds `v`, else a new entry at
/// `end`.
pub open spec fn intern_spec(entries: Map<usize, Seq<u8>>, end: nat, nt: bool, v: Seq<u8>) -> (
    Map<usize, Seq<u8>>,
    nat,
    usize,
) {
    if holds_value(entries, v) {
        (entries, end, offset_of(entries, v))
    } else {
        (entries.insert(end as usize, v), end + entry_size(v.len(), nt), end as usize)
    }
}

/// As `intern_spec`, but nothing is handed out when `v` was already stored.
pub open spec fn intern_once_spec(
    entries: Map<usize, Seq<u8>>,
    end: nat,
    nt: bool,
    v: Seq<u8>,
) -> (Map<usize, Seq<u8>>, nat, Option<usize>) {
    if holds_value(entries, v) {
        (entries, end, None)
    } else {
        (entries.insert(end as usize, v), end + entry_size(v.len(), nt), Some(end as usize))
    }
}

/// Interner that copies each distinct byte sequence once into its own arena.
pub struct Interner {
    index_table: HashIndex,
    buf: StackBuf,
}

/// A handle to a value stored in an `Interner`. Handles compare by the offset
/// of their entry, which tells values apart only among handles of one
/// interner.
pub struct Interned<'a> {
    offset: usize,
    interner: &'a StackBuf,
}

impl<'a> Interned<'a> {
    /// The offset of the entry this handle stands for.
    pub closed spec fn offset(&self) -> usize {
        self.offset
    }

    /// The value this handle stands for.
    pub closed spec fn view(&self) -> Seq<u8> {
        self.interner.entries()[self.offset]
    }

    /// Whether the owning interner writes a zero byte after each value.
    pub closed spec fn null_terminated(&self) -> bool {
        self.interner.null_terminated()
    }

    #[verifier::type_invariant]
    closed spec fn inv(&self) -> bool {
        &&& self.interner.wf()
        &&& self.interner.entries().contains_key(self.offset)
    }

    /// The offset of the entry this handle stands for.
    pub fn locator(&self) -> (r: usize)
        ensures
            r == self.offset(),
    {
        self.offset
    }

    /// The interned value.
    pub fn val(&self) -> (r: &'a [u8])
        ensures
            r@ == self@,
    {
        proof {
            use_type_invariant(self);
        }
        self.interner.get_unchecked(self.offset)
    }

    /// The interned value followed by the zero byte that the null-terminated
    /// layout writes after it, for consumers that expect a terminated array.
    pub fn as_c_arr(&self) -> (r: &'a [u8])
        requires
            self.null_terminated(),
        ensures
            r@ == self@.push(0u8),
    {
        proof {
            use_type_invariant(self);
        }
        self.interner.get_terminated(self.offset)
    }
}

impl<'a> PartialEq for Interned<'a> {
    fn eq(&self, rhs: &Self) -> (r: bool)
        ensures
            r == (self.offset() == rhs.offset()),
    {
        self.offset == rhs.offset
    }
}

impl<'a> vstd::std_specs::cmp::PartialEqSpecImpl for Interned<'a> {
    open spec fn obeys_eq_spec() -> bool {
        true
    }

    open spec fn eq_spec(&self, rhs: &Self) -> bool {
        self.offset() == rhs.offset()
    }
}

impl<'a> Eq for Interned<'a> {
}

/// Copies the locators of a list.
fn copy_list(l: &Vec<usize>) -> (r: Vec<usize>)
    ensures
        r@ == l@,
{
    let mut r: Vec<usize> = Vec::new();
    let mut i: usize = 0;
    while i < l.len()
        invariant
            i <= l@.len(),
            r@ == l@.subrange(0, i as int),
        decreases l@.len() - i,
    {
        r.push(l[i]);
        i = i + 1;
        assert(r@ =~= l@.subrange(0, i as int));
    }
    assert(l@.subrange(0, l@.len() as int) =~= l@);
    r
}

impl Interner {
    /// The stored values, by the offset of their entry.
    pub closed spec fn entries(&self) -> Map<usize, Seq<u8>> {
        self.buf.entries()
    }

    /// The offset at which the next new value will be stored.
    pub closed spec fn end(&self) -> nat {
        self.buf.end()
    }

    /// Whether a zero byte follows each stored value.
    pub closed spec fn null_terminated(&self) -> bool {
        self.buf.null_terminated()
    }

    /// The index files exactly the stored entries, each under the hash of its
    /// value, and no value is stored twice.
    pub closed spec fn wf(&self) -> bool {
        let ix = index_view(self.index_table);
        let entries = self.buf.entries();
        &&& self.buf.wf()
        &&& unique_values(entries)
        &&& forall|h: u64, i: int|
            #![trigger ix[h][i]]
            ix.contains_key(h) && 0 <= i < ix[h].len() ==> entries.contains_key(ix[h][i])
                && content_hash(entries[ix[h][i]]) == h
        &&& forall|o: usize| #[trigger]
            entries.contains_key(o) ==> ix.contains_key(content_hash(entries[o])) && ix[content_hash(
                entries[o],
            )].contains(o)
    }

    fn new_with(null_terminated: bool) -> (r: Interner)
        ensures
            r.wf(),
            r.entries().is_empty(),
            r.end() == 0,
            r.null_terminated() == null_terminated,
    {
        Interner { index_table: index_new(), buf: StackBuf::new(null_terminated) }
    }

    /// An empty interner.
    pub fn new() -> (r: Interner)
        ensures
            r.wf(),
            r.entries().is_empty(),
            r.end() == 0,
            !r.null_terminated(),
    {
        Interner::new_with(false)
    }

    /// An empty interner that writes a zero byte after each stored value.
    pub fn new_with_null_delim() -> (r: Interner)
        ensures
            r.wf(),
            r.entries().is_empty(),
            r.end() == 0,
            r.null_terminated(),
    {
        Interner::new_with(true)
    }

    /// The contents of a well-formed interner are valid.
    pub proof fn lemma_contents_valid(&self)
        requires
            self.wf(),
        ensures
            valid_contents(self.entries(), self.end()),
    {
        self.buf.lemma_entries_below_end();
    }

    /// The number of arena bytes that the stored entries take.
    pub fn arena_len(&self) -> (r: usize)
        ensures
            r == self.end(),
    {
        self.buf.len()
    }

    /// Whether a zero byte follows each stored value.
    pub fn is_null_terminated(&self) -> (r: bool)
        ensures
            r == self.null_terminated(),
    {
        self.buf.is_null_terminated()
    }

    /// The offset of the entry holding `v`, if any, found by probing the
    /// locators filed under its hash and comparing the stored values.
    fn find(&self, hash: u64, v: &[u8]) -> (r: Option<usize>)
        requires
            self.wf(),
            hash == content_hash(v@),
        ensures
            match r {
                Some(o) => self.entries().contains_key(o) && self.entries()[o] == v@,
                None => !holds_value(self.entries(), v@),
            },
    {
        let ghost ix = index_view(self.index_table);
        match index_get(&self.index_table, hash) {
            None => None,
            Some(bucket) => {
                let mut i: usize = 0;
                while i < bucket.len()
                    invariant
                        self.buf.wf(),
                        ix == index_view(self.index_table),
                        ix.contains_key(hash),
                        bucket@ == ix[hash],
                        i <= bucket@.len(),
                        forall|h: u64, k: int|
                            #![trigger ix[h][k]]
                            ix.contains_key(h) && 0 <= k < ix[h].len() ==> self.entries().contains_key(
                                ix[h][k],
                            ),
                        forall|k: int| 0 <= k < i ==> self.entries()[#[trigger] bucket@[k]] != v@,
                    decreases bucket@.len() - i,
                {
                    let o = bucket[i];
                    assert(ix[hash][i as int] == o);
                    let stored = self.buf.get_unchecked(o);
                    if bytes_equal(stored, v) {
                        return Some(o);
                    }
                    i = i + 1;
                }
                proof {
                    if holds_value(self.entries(), v@) {
                        let o = offset_of(self.entries(), v@);
                        let k = bucket@.index_of(o);
                        assert(bucket@[k] == o);
                    }
                }
                None
            },
        }
    }

    /// Stores `v` at the end of the arena and files its offset under `hash`.
    fn insert_new(&mut self, hash: u64, v: &[u8]) -> (o: usize)
        requires
            old(self).wf(),
            hash == content_hash(v@),
            !holds_value(old(self).entries(), v@),
            old(self).end() + entry_size(v@.len(), old(self).null_terminated()) <= MAX_ARENA_SIZE,
        ensures
            final(self).wf(),
            o == old(self).end(),
            final(self).entries() == old(self).entries().insert(o, v@),
            final(self).end() == old(self).end() + entry_size(v@.len(), old(self).null_terminated()),
            final(self).null_terminated() == old(self).null_terminated(),
            final(self).entries().contains_key(o),
    {
        let ghost old_entries = self.buf.entries();
        proof {
            self.buf.lemma_entries_below_end();
        }
        let ghost old_ix = index_view(self.index_table);
        let mut bucket = match index_get(&self.index_table, hash) {
            Some(l) => copy_list(l),
            None => Vec::new(),
        };
        let offset = self.buf.write_to_buf(v);
        proof {
            assert(!old_entries.contains_key(offset));
        }
        bucket.push(offset);
        index_insert(&mut self.index_table, hash, bucket);
        proof {
            let entries = self.buf.entries();
            let ix = index_view(self.index_table);
            assert forall|o1: usize, o2: usize|
                #[trigger] entries.contains_key(o1) && #[trigger] entries.contains_key(o2)
                    && entries[o1] == entries[o2] implies o1 == o2 by {
                if o1 != offset && o2 != offset {
                    assert(old_entries.contains_key(o1) && old_entries.contains_key(o2));
                } else if o1 != offset {
                    assert(old_entries.contains_key(o1) && old_entries[o1] == v@);
                } else if o2 != offset {
                    assert(old_entries.contains_key(o2) && old_entries[o2] == v@);
                }
            }
            assert forall|h: u64, i: int|
                ix.contains_key(h) && 0 <= i < ix[h].len() implies entries.contains_key(
                #[trigger] ix[h][i],
            ) && content_hash(entries[ix[h][i]]) == h by {
                if h != hash || i < ix[h].len() - 1 {
                    assert(old_ix.contains_key(h) && 0 <= i < old_ix[h].len() && old_ix[h][i]
                        == ix[h][i]);
                    assert(old_entries.contains_key(old_ix[h][i]));
                }
            }
            assert forall|o: usize| #[trigger]
                entries.contains_key(o) implies ix.contains_key(content_hash(entries[o]))
                && ix[content_hash(entries[o])].contains(o) by {
                if o == offset {
                    assert(ix[hash][ix[hash].len() - 1] == o);
                } else {
                    assert(old_entries.contains_key(o));
                    let h = content_hash(entries[o]);
                    assert(old_ix.contains_key(h) && old_ix[h].contains(o));
                    let k = old_ix[h].index_of(o);
                    if h == hash {
                        assert(ix[h][k] == o);
                    }
                }
            }
        }
        offset
    }

    /// Interns `internee`: the handle of the entry that already holds it, or
    /// of a new entry at the end of the arena.
    pub fn intern(&mut self, internee: &[u8]) -> (r: Interned<'_>)
        requires
            old(self).wf(),
            holds_value(old(self).entries(), internee@) || old(self).end() + entry_size(
                internee@.len(),
                old(self).null_terminated(),
            ) <= MAX_ARENA_SIZE,
        ensures
            final(self).wf(),
            ({
                let (entries, end, offset) = intern_spec(
                    old(self).entries(),
                    old(self).end(),
                    old(self).null_terminated(),
                    internee@,
                );
                &&& final(self).entries() == entries
                &&& final(self).end() == end
                &&& r.offset() == offset
            }),
            final(self).null_terminated() == old(self).null_terminated(),
            r@ == internee@,
            r.null_terminated() == old(self).null_terminated(),
    {
        let hash = make_hash(internee);
        let offset = match self.find(hash, internee) {
            Some(o) => {
                proof {
                    let c = offset_of(self.entries(), internee@);
                    assert(self.entries().contains_key(c) && self.entries()[c] == internee@);
                }
                o
            },
            None => self.insert_new(hash, internee),
        };
        Interned { offset, interner: &self.buf }
    }

    /// Interns `internee` only when no entry holds it yet, and returns its new
    /// handle; returns `None` when it was already stored.
    pub fn intern_once(&mut self, internee: &[u8]) -> (r: Option<Interned<'_>>)
        requires
            old(self).wf(),
            holds_value(old(self).entries(), internee@) || old(self).end() + entry_size(
                internee@.len(),
                old(self).null_terminated(),
            ) <= MAX_ARENA_SIZE,
        ensures
            final(self).wf(),
            ({
                let (entries, end, offset) = intern_once_spec(
                    old(self).entries(),
                    old(self).end(),
                    old(self).null_terminated(),
                    internee@,
                );
                &&& final(self).entries() == entries
                &&& final(self).end() == end
                &&& match r {
                    Some(h) => offset == Some(h.offset()) && h@ == internee@ && h.null_terminated()
                        == old(self).null_terminated(),
                    None => offset is None,
                }
            }),
            final(self).null_terminated() == old(self).null_terminated(),
    {
        let hash = make_hash(internee);
        match self.find(hash, internee) {
            Some(_) => None,
            None => {
                let offset = self.insert_new(hash, internee);
                Some(Interned { offset, interner: &self.buf })
            },
        }
    }
}

/// The entries and next free offset after interning each of `vs` in turn.
pub open spec fn intern_all(entries: Map<usize, Seq<u8>>, end: nat, nt: bool, vs: Seq<Seq<u8>>) -> (
    Map<usize, Seq<u8>>,
    nat,
)
    decreases vs.len(),
{
    if vs.len() == 0 {
        (entries, end)
    } else {
        let (e, n) = intern_all(entries, end, nt, vs.drop_last());
        let (e2, n2, _) = intern_spec(e, n, nt, vs.last());
        (e2, n2)
    }
}

/// The arena bytes that entries for all of `vs` take together.
pub open spec fn total_entry_size(vs: Seq<Seq<u8>>, nt: bool) -> nat
    decreases vs.len(),
{
    if vs.len() == 0 {
        0
    } else {
        total_entry_size(vs.drop_last(), nt) + entry_size(vs.last().len(), nt)
    }
}

/// One interning keeps the contents valid, keeps every earlier entry, and
/// hands out an entry that holds the value.
pub proof fn lemma_intern_step(entries: Map<usize, Seq<u8>>, end: nat, nt: bool, v: Seq<u8>)
    requires
        valid_contents(entries, end),
        end + entry_size(v.len(), nt) <= MAX_ARENA_SIZE,
    ensures
        ({
            let (e1, n1, o1) = intern_spec(entries, end, nt, v);
            &&& valid_contents(e1, n1)
            &&& end <= n1 <= end + entry_size(v.len(), nt)
            &&& e1.contains_key(o1) && e1[o1] == v
            &&& forall|o: usize| #[trigger]
                entries.contains_key(o) ==> e1.contains_key(o) && e1[o] == entries[o]
            &&& forall|o: usize| #[trigger] e1.contains_key(o) ==> entries.contains_key(o) || o == o1
            &&& forall|o: usize| #[trigger] e1.contains_key(o) && e1[o] == v ==> o == o1
        }),
{
    if !holds_value(entries, v) {
        let e1 = entries.insert(end as usize, v);
        assert forall|o1: usize, o2: usize|
            #[trigger] e1.contains_key(o1) && #[trigger] e1.contains_key(o2) && e1[o1] == e1[o2]
            implies o1 == o2 by {
            if o1 != end as usize && o2 != end as usize {
                assert(entries.contains_key(o1) && entries.contains_key(o2));
            } else if o1 != end as usize {
                assert(entries.contains_key(o1) && entries[o1] == v);
            } else if o2 != end as usize {
                assert(entries.contains_key(o2) && entries[o2] == v);
            }
        }
        assert forall|o: usize| #[trigger] e1.contains_key(o) && e1[o] == v implies o == end as usize by {
            if o != end as usize {
                assert(entries.contains_key(o) && entries[o] == v);
            }
        }
    } else {
        let o1 = offset_of(entries, v);
        assert(entries.contains_key(o1) && entries[o1] == v);
    }
}

/// Interning a value twice hands out the same offset, the second call
/// changes nothing, and exactly one entry holds the value.
pub proof fn lemma_intern_idempotent(entries: Map<usize, Seq<u8>>, end: nat, nt: bool, v: Seq<u8>)
    requires
        valid_contents(entries, end),
        end + entry_size(v.len(), nt) <= MAX_ARENA_SIZE,
    ensures
        ({
            let (e1, n1, o1) = intern_spec(entries, end, nt, v);
            let (e2, n2, o2) = intern_spec(e1, n1, nt, v);
            &&& o2 == o1
            &&& e2 == e1
            &&& n2 == n1
            &&& e2.contains_key(o1) && e2[o1] == v
            &&& forall|o: usize| #[trigger] e2.contains_key(o) && e2[o] == v ==> o == o1
        }),
{
    lemma_intern_step(entries, end, nt, v);
    let (e1, n1, o1) = intern_spec(entries, end, nt, v);
    assert(holds_value(e1, v));
    let c = offset_of(e1, v);
    assert(e1.contains_key(c) && e1[c] == v);
}

/// The handle that interning hands out reads back the value interned.
pub proof fn lemma_intern_round_trip(entries: Map<usize, Seq<u8>>, end: nat, nt: bool, v: Seq<u8>)
    requires
        valid_contents(entries, end),
        end + entry_size(v.len(), nt) <= MAX_ARENA_SIZE,
    ensures
        ({
            let (e1, n1, o1) = intern_spec(entries, end, nt, v);
            e1.contains_key(o1) && e1[o1] == v
        }),
{
    lemma_intern_step(entries, end, nt, v);
}

/// Interning two different values hands out different offsets.
pub proof fn lemma_intern_distinct(
    entries: Map<usize, Seq<u8>>,
    end: nat,
    nt: bool,
    v1: Seq<u8>,
    v2: Seq<u8>,
)
    requires
        valid_contents(entries, end),
        end + entry_size(v1.len(), nt) + entry_size(v2.len(), nt) <= MAX_ARENA_SIZE,
        v1 != v2,
    ensures
        ({
            let (e1, n1, o1) = intern_spec(entries, end, nt, v1);
            let (e2, n2, o2) = intern_spec(e1, n1, nt, v2);
            o1 != o2
        }),
{
    lemma_intern_step(entries, end, nt, v1);
    let (e1, n1, o1) = intern_spec(entries, end, nt, v1);
    lemma_intern_step(e1, n1, nt, v2);
}

/// On a value not stored yet, `intern_once` hands out a handle, a second
/// `intern_once` hands out none, and a later `intern` hands out the first
/// handle's offset again.
pub proof fn lemma_intern_once_then_none(entries: Map<usize, Seq<u8>>, end: nat, nt: bool, v: Seq<u8>)
    requires
        valid_contents(entries, end),
        !holds_value(entries, v),
        end + entry_size(v.len(), nt) <= MAX_ARENA_SIZE,
    ensures
        ({
            let (e1, n1, r1) = intern_once_spec(entries, end, nt, v);
            let (e2, n2, r2) = intern_once_spec(e1, n1, nt, v);
            let (e3, n3, o3) = intern_spec(e2, n2, nt, v);
            &&& r1 is Some
            &&& r2 is None
            &&& e2 == e1 && n2 == n1
            &&& r1 == Some(o3)
        }),
{
    lemma_intern_idempotent(entries, end, nt, v);
}

/// Interning any number of further values keeps every earlier entry, with the
/// value it held, and leaves every one of those values stored.
pub proof fn lemma_growth_keeps_values(
    entries: Map<usize, Seq<u8>>,
    end: nat,
    nt: bool,
    vs: Seq<Seq<u8>>,
)
    requires
        valid_contents(entries, end),
        end + total_entry_size(vs, nt) <= MAX_ARENA_SIZE,
    ensures
        ({
            let (e, n) = intern_all(entries, end, nt, vs);
            &&& valid_contents(e, n)
            &&& end <= n <= end + total_entry_size(vs, nt)
            &&& forall|o: usize| #[trigger]
                entries.contains_key(o) ==> e.contains_key(o) && e[o] == entries[o]
            &&& forall|i: int| 0 <= i < vs.len() ==> holds_value(e, #[trigger] vs[i])
        }),
    decreases vs.len(),
{
    if vs.len() > 0 {
        let rest = vs.drop_last();
        lemma_growth_keeps_values(entries, end, nt, rest);
        let (e, n) = intern_all(entries, end, nt, rest);
        lemma_intern_step(e, n, nt, vs.last());
        let (e2, n2, o2) = intern_spec(e, n, nt, vs.last());
        assert forall|i: int| 0 <= i < vs.len() implies holds_value(e2, #[trigger] vs[i]) by {
            if i < vs.len() - 1 {
                assert(rest[i] == vs[i]);
                assert(holds_value(e, rest[i]));
                let c = offset_of(e, rest[i]);
                assert(e.contains_key(c) && e[c] == rest[i]);
                assert(e2.contains_key(c) && e2[c] == vs[i]);
            } else {
                assert(e2.contains_key(o2) && e2[o2] == vs[i]);
            }
        }
    }
}

/// A collection type and the type of its elements.
pub trait Collection {
    type Output;
}

impl<T> Collection for [T] {
    type Output = T;
}

impl Collection for str {
    type Output = u8;
}

impl Default for Interner {
    fn default() -> (r: Interner)
        ensures
            r.wf(),
            r.entries().is_empty(),
            r.end() == 0,
            !r.null_terminated(),
    {
        Interner::new()
    }
}

} // verus!
