//! The no-copy interner: each distinct value is recorded by the reference it
//! was first interned through, which must outlive the interner.
use vstd::prelude::*;
use crate::arena::bytes_equal;
use crate::index::{content_hash, index_get, index_insert, index_new, index_view, make_hash, HashIndex};

verus! {

/// Some recorded value equals `v`.
pub open spec fn records_value(values: Seq<Seq<u8>>, v: Seq<u8>) -> bool {
    exists|i: int| 0 <= i < values.len() && #[trigger] values[i] == v
}

/// No value is recorded twice.
pub open spec fn distinct_values(values: Seq<Seq<u8>>) -> bool {
    forall|i: int, j: int|
        0 <= i < values.len() && 0 <= j < values.len() && #[trigger] values[i] == #[trigger] values[j]
            ==> i == j
}

/// The position of the recorded value equal to `v` (meaningful when one is).
pub open spec fn position_of(values: Seq<Seq<u8>>, v: Seq<u8>) -> int {
    choose|i: int| 0 <= i < values.len() && #[trigger] values[i] == v
}

/// The recorded values and the position handed out after interning `v`: the
/// position of the recorded equal value, else a new last position.
pub open spec fn record_spec(values: Seq<Seq<u8>>, v: Seq<u8>) -> (Seq<Seq<u8>>, usize) {
    if records_value(values, v) {
        (values, position_of(values, v) as usize)
    } else {
        (values.push(v), values.len() as usize)
    }
}

/// Interner that stores the references it is given, one per distinct value.
pub struct Interner<'a> {
    table: HashIndex,
    refs: Vec<&'a [u8]>,
}

/// A handle to a value recorded in a no-copy `Interner`. Handles compare by
/// the recorded reference they stand for, which tells values apart only among
/// handles of one interner.
pub struct Interned<'a> {
    inner: &'a [u8],
    index: usize,
}

impl<'a> Interned<'a> {
    /// The position of the recorded reference this handle stands for.
    pub closed spec fn index(&self) -> usize {
        self.index
    }

    /// The value this handle stands for.
    pub closed spec fn view(&self) -> Seq<u8> {
        self.inner@
    }

    /// The interned value, through the reference that was recorded for it.
    pub fn val(&self) -> (r: &'a [u8])
        ensures
            r@ == self@,
    {
        self.inner
    }
}

impl<'a> PartialEq for Interned<'a> {
    fn eq(&self, rhs: &Self) -> (r: bool)
        ensures
            r == (self.index() == rhs.index()),
    {
        self.index == rhs.index
    }
}

impl<'a> vstd::std_specs::cmp::PartialEqSpecImpl for Interned<'a> {
    open spec fn obeys_eq_spec() -> bool {
        true
    }

    open spec fn eq_spec(&self, rhs: &Self) -> bool {
        self.index() == rhs.index()
    }
}

impl<'a> Eq for Interned<'a> {
}

/// Copies the positions of a list.
fn copy_list(l: &Vec<usize>) -> (r: Vec<usize>)
    ensures
        r@ == l@,
{
    let mut r: Vec<usize> = Vec::new();
    let mut i: usize = 0;
    while i < l.len()
        invariant
            i <= l@.len(),
            r@ == l@.subrange(0, i as int),
        decreases l@.len() - i,
    {
        r.push(l[i]);
        i = i + 1;
        assert(r@ =~= l@.subrange(0, i as int));
    }
    assert(l@.subrange(0, l@.len() as int) =~= l@);
    r
}

impl<'a> Interner<'a> {
    /// The recorded values, in the order they were first interned.
    pub closed spec fn values(&self) -> Seq<Seq<u8>> {
        self.refs@.map_values(|r: &'a [u8]| r@)
    }

    /// The index files exactly the recorded positions, each under the hash of
    /// its value, and no value is recorded twice.
    pub closed spec fn wf(&self) -> bool {
        let ix = index_view(self.table);
        let values = self.values();
        &&& distinct_values(values)
        &&& forall|h: u64, k: int|
            #![trigger ix[h][k]]
            ix.contains_key(h) && 0 <= k < ix[h].len() ==> ix[h][k] < values.len()
                && content_hash(values[ix[h][k] as int]) == h
        &&& forall|i: int|
            0 <= i < values.len() ==> ix.contains_key(content_hash(#[trigger] values[i]))
                && ix[content_hash(values[i])].contains(i as usize)
    }

    /// An empty interner.
    pub fn new() -> (r: Interner<'a>)
        ensures
            r.wf(),
            r.values().len() == 0,
    {
        Interner { table: index_new(), refs: Vec::new() }
    }

    /// The number of distinct values recorded.
    pub fn len(&self) -> (r: usize)
        ensures
            r == self.values().len(),
    {
        self.refs.len()
    }

    /// The position of the recorded value equal to `v`, if any.
    fn find(&self, hash: u64, v: &[u8]) -> (r: Option<usize>)
        requires
            self.wf(),
            hash == content_hash(v@),
        ensures
            match r {
                Some(p) => p < self.values().len() && self.values()[p as int] == v@,
                None => !records_value(self.values(), v@),
            },
    {
        let ghost ix = index_view(self.table);
        match index_get(&self.table, hash) {
            None => None,
            Some(bucket) => {
                let mut i: usize = 0;
                while i < bucket.len()
                    invariant
                        self.wf(),
                        ix == index_view(self.table),
                        ix.contains_key(hash),
                        bucket@ == ix[hash],
                        i <= bucket@.len(),
                        forall|k: int|
                            0 <= k < i ==> self.values()[#[trigger] bucket@[k] as int] != v@,
                    decreases bucket@.len() - i,
                {
                    let o = bucket[i];
                    assert(ix[hash][i as int] == o);
                    let stored: &[u8] = self.refs[o];
                    assert(stored@ == self.values()[o as int]);
                    if bytes_equal(stored, v) {
                        assert(o < self.values().len());
                        return Some(o);
                    }
                    i = i + 1;
                }
                let n = self.refs.len();
                proof {
                    assert(self.values().len() == n);
                    if records_value(self.values(), v@) {
                        let j = choose|j: int|
                            0 <= j < self.values().len() && #[trigger] self.values()[j] == v@;
                        assert(ix[hash].contains(j as usize));
                        let k = choose|k: int| 0 <= k < bucket@.len() && bucket@[k] == j as usize;
                        assert(self.values()[bucket@[k] as int] != v@);
                    }
                }
                None
            },
        }
    }

    /// Records `internee` at a new last position, filed under `hash`.
    fn insert_new(&mut self, hash: u64, internee: &'a [u8]) -> (i: usize)
        requires
            old(self).wf(),
            hash == content_hash(internee@),
            !records_value(old(self).values(), internee@),
        ensures
            final(self).wf(),
            i == old(self).values().len(),
            final(self).values() == old(self).values().push(internee@),
    {
        let ghost old_values = self.values();
        let ghost old_ix = index_view(self.table);
        let mut bucket = match index_get(&self.table, hash) {
            Some(l) => copy_list(l),
            None => Vec::new(),
        };
        let i = self.refs.len();
        self.refs.push(internee);
        assert(self.values() =~= old_values.push(internee@));
        bucket.push(i);
        index_insert(&mut self.table, hash, bucket);
        proof {
            let values = self.values();
            let ix = index_view(self.table);
            assert forall|a: int, b: int|
                0 <= a < values.len() && 0 <= b < values.len() && #[trigger] values[a]
                    == #[trigger] values[b] implies a == b by {
                if a != i && b != i {
                    assert(old_values[a] == values[a] && old_values[b] == values[b]);
                } else if a != i {
                    assert(old_values[a] == internee@);
                } else if b != i {
                    assert(old_values[b] == internee@);
                }
            }
            assert forall|h: u64, k: int|
                ix.contains_key(h) && 0 <= k < ix[h].len() implies #[trigger] ix[h][k]
                < values.len() && content_hash(values[ix[h][k] as int]) == h by {
                if h != hash || k < ix[h].len() - 1 {
                    assert(old_ix.contains_key(h) && 0 <= k < old_ix[h].len() && old_ix[h][k]
                        == ix[h][k]);
                }
            }
            assert forall|j: int| 0 <= j < values.len() implies ix.contains_key(
                content_hash(#[trigger] values[j]),
            ) && ix[content_hash(values[j])].contains(j as usize) by {
                if j == i {
                    assert(ix[hash][ix[hash].len() - 1] == j as usize);
                } else {
                    assert(old_values[j] == values[j]);
                    let h = content_hash(values[j]);
                    assert(old_ix.contains_key(h) && old_ix[h].contains(j as usize));
                    let k = old_ix[h].index_of(j as usize);
                    if h == hash {
                        assert(ix[h][k] == j as usize);
                    }
                }
            }
        }
        i
    }

    /// Interns `internee`: the handle of the reference recorded for an equal
    /// value, or of `internee` itself, recorded now.
    pub fn intern(&mut self, internee: &'a [u8]) -> (r: Interned<'a>)
        requires
            old(self).wf(),
        ensures
            final(self).wf(),
            ({
                let (values, i) = record_spec(old(self).values(), internee@);
                &&& final(self).values() == values
                &&& r.index() == i
            }),
            r@ == internee@,
    {
        let hash = make_hash(internee);
        match self.find(hash, internee) {
            Some(i) => {
                proof {
                    assert(self.values()[i as int] == internee@);
                    let j = position_of(self.values(), internee@);
                    assert(self.values()[j] == internee@);
                }
                let inner: &'a [u8] = self.refs[i];
                assert(inner@ == self.values()[i as int]);
                Interned { inner, index: i }
            },
            None => {
                let i = self.insert_new(hash, internee);
                Interned { inner: internee, index: i }
            },
        }
    }

    /// Interns `internee` only when no equal value is recorded yet, and
    /// returns its new handle; returns `None` when one was.
    pub fn intern_once(&mut self, internee: &'a [u8]) -> (r: Option<Interned<'a>>)
        requires
            old(self).wf(),
        ensures
            final(self).wf(),
            match r {
                Some(h) => !records_value(old(self).values(), internee@) && final(self).values()
                    == old(self).values().push(internee@) && h.index() == old(self).values().len()
                    && h@ == internee@,
                None => records_value(old(self).values(), internee@) && final(self).values()
                    == old(self).values(),
            },
    {
        let hash = make_hash(internee);
        match self.find(hash, internee) {
            Some(_) => None,
            None => {
                let i = self.insert_new(hash, internee);
                Some(Interned { inner: internee, index: i })
            },
        }
    }
}

/// Interning a value twice through a no-copy interner hands out the same
/// position, and the second call records nothing.
pub proof fn lemma_record_idempotent(values: Seq<Seq<u8>>, v: Seq<u8>)
    requires
        distinct_values(values),
        values.len() < usize::MAX,
    ensures
        ({
            let (s1, i1) = record_spec(values, v);
            let (s2, i2) = record_spec(s1, v);
            &&& i2 == i1
            &&& s2 == s1
            &&& s1[i1 as int] == v
        }),
{
    let (s1, i1) = record_spec(values, v);
    if !records_value(values, v) {
        assert(s1[values.len() as int] == v);
        assert(records_value(s1, v));
        let j = position_of(s1, v);
        if j != values.len() {
            assert(values[j] == v);
        }
    } else {
        let j = position_of(values, v);
        assert(values[j] == v);
    }
}

/// Interning two different values through a no-copy interner hands out
/// different positions.
pub proof fn lemma_record_distinct(values: Seq<Seq<u8>>, v1: Seq<u8>, v2: Seq<u8>)
    requires
        distinct_values(values),
        values.len() + 2 < usize::MAX,
        v1 != v2,
    ensures
        ({
            let (s1, i1) = record_spec(values, v1);
            let (s2, i2) = record_spec(s1, v2);
            i1 != i2
        }),
{
    let (s1, i1) = record_spec(values, v1);
    lemma_record_idempotent(values, v1);
    if records_value(s1, v2) {
        let j = position_of(s1, v2);
        assert(s1[j] == v2);
    }
}

impl<'a> Default for Interner<'a> {
    fn default() -> (r: Interner<'a>)
        ensures
            r.wf(),
            r.values().len() == 0,
    {
        Interner::new()
    }
}

} // verus!
