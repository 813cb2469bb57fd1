//! The hash index: content hash to the locators of the values with that hash.
use vstd::prelude::*;

verus! {

/// The hash map from content hash to the locators filed under it: a
/// hashbrown::HashMap, whose probing and resizing keep every binding, held
/// here because Verus does not take the map type's allocator bound.
#[verifier::external_body]
pub struct HashIndex {
    map: hashbrown::HashMap<u64, Vec<usize>>,
}

/// What a hash index holds: each hash with its list of locators.
pub uninterp spec fn index_view(m: HashIndex) -> Map<u64, Seq<usize>>;

/// The 64-bit SipHash-1-3 digest, under std's fixed default keys, of a byte
/// sequence.
pub uninterp spec fn content_hash(b: Seq<u8>) -> u64;

/// Relies on hashbrown::HashMap::new: the map starts empty.
#[verifier::external_body]
pub(crate) fn index_new() -> (r: HashIndex)
    ensures
        index_view(r).is_empty(),
{
    HashIndex { map: hashbrown::HashMap::new() }
}

/// Relies on hashbrown::HashMap::get: the list filed under `h`, if any.
#[verifier::external_body]
pub(crate) fn index_get(m: &HashIndex, h: u64) -> (r: Option<&Vec<usize>>)
    ensures
        match r {
            Some(l) => index_view(*m).contains_key(h) && l@ == index_view(*m)[h],
            None => !index_view(*m).contains_key(h),
        },
{
    m.map.get(&h)
}

/// Relies on hashbrown::HashMap::insert: `h` is then bound to `l`, and every
/// other key keeps its list.
#[verifier::external_body]
pub(crate) fn index_insert(m: &mut HashIndex, h: u64, l: Vec<usize>)
    ensures
        index_view(*final(m)) == index_view(*old(m)).insert(h, l@),
{
    m.map.insert(h, l);
}

/// Relies on std's DefaultHasher as built by `new` (SipHash-1-3 under fixed
/// keys), fed the bytes of `val` and finished: the digest depends on the
/// bytes alone.
#[verifier::external_body]
pub fn make_hash(val: &[u8]) -> (r: u64)
    ensures
        r == content_hash(val@),
{
    let mut state = std::collections::hash_map::DefaultHasher::new();
    std::hash::Hasher::write(&mut state, val);
    std::hash::Hasher::finish(&state)
}

} // verus!
