//! The copying interner specialised to text.
use vstd::prelude::*;
use vstd::utf8::{decode_utf8, encode_utf8, valid_utf8};
use crate::arena::{entry_size, MAX_ARENA_SIZE};
use crate::copying::{holds_value, intern_once_spec, intern_spec, Interned, Interner};

verus! {

broadcast use vstd::utf8::encode_utf8_valid_utf8, vstd::utf8::encode_utf8_decode_utf8;

/// Relies on std::str::from_utf8: it succeeds exactly on well-formed UTF-8,
/// and then gives the string whose bytes those are.
#[verifier::external_body]
pub(crate) fn str_from_utf8(b: &[u8]) -> (r: Option<&str>)
    ensures
        r is Some <==> valid_utf8(b@),
        r matches Some(s) ==> encode_utf8(s@) == b@,
{
    std::str::from_utf8(b).ok()
}

/// The string whose UTF-8 encoding `b` is.
pub(crate) fn decode_stored(b: &[u8]) -> (r: &str)
    requires
        valid_utf8(b@),
    ensures
        r@ == decode_utf8(b@),
        encode_utf8(r@) == b@,
{
    match str_from_utf8(b) {
        Some(s) => s,
        None => {
            proof {
                assert(false);
            }
            ""
        },
    }
}

/// Interner that copies each distinct string once into its own arena.
pub struct StringInterner {
    inner: Interner,
}

/// A handle to a string stored in a `StringInterner`; handles compare by the
/// entry they stand for.
pub struct IStr<'a> {
    inner: Interned<'a>,
}

impl<'a> IStr<'a> {
    /// The interned string.
    pub closed spec fn view(&self) -> Seq<char> {
        decode_utf8(self.inner@)
    }

    /// The stored bytes of the interned string.
    pub closed spec fn bytes(&self) -> Seq<u8> {
        self.inner@
    }

    /// The offset of the entry this handle stands for.
    pub closed spec fn offset(&self) -> usize {
        self.inner.offset()
    }

    /// Whether the owning interner writes a zero byte after each string.
    pub closed spec fn null_terminated(&self) -> bool {
        self.inner.null_terminated()
    }

    #[verifier::type_invariant]
    closed spec fn inv(&self) -> bool {
        valid_utf8(self.inner@)
    }

    /// The offset of the entry this handle stands for.
    pub fn locator(&self) -> (r: usize)
        ensures
            r == self.offset(),
    {
        self.inner.locator()
    }

    /// The interned string.
    pub fn val(&self) -> (r: &'a str)
        ensures
            r@ == self@,
            encode_utf8(r@) == self.bytes(),
    {
        proof {
            use_type_invariant(self);
        }
        decode_stored(self.inner.val())
    }

    /// The UTF-8 bytes of the interned string followed by a zero byte.
    pub fn as_char_ptr(&self) -> (r: &'a [u8])
        requires
            self.null_terminated(),
        ensures
            r@ == self.bytes().push(0u8),
    {
        self.inner.as_c_arr()
    }
}

impl<'a> PartialEq for IStr<'a> {
    fn eq(&self, rhs: &Self) -> (r: bool)
        ensures
            r == (self.offset() == rhs.offset()),
    {
        self.inner == rhs.inner
    }
}

impl<'a> vstd::std_specs::cmp::PartialEqSpecImpl for IStr<'a> {
    open spec fn obeys_eq_spec() -> bool {
        true
    }

    open spec fn eq_spec(&self, rhs: &Self) -> bool {
        self.offset() == rhs.offset()
    }
}

impl<'a> Eq for IStr<'a> {
}

impl StringInterner {
    /// The stored strings' bytes, by the offset of their entry.
    pub closed spec fn entries(&self) -> Map<usize, Seq<u8>> {
        self.inner.entries()
    }

    /// The offset at which the next new string will be stored.
    pub closed spec fn end(&self) -> nat {
        self.inner.end()
    }

    /// Whether a zero byte follows each stored string.
    pub closed spec fn null_terminated(&self) -> bool {
        self.inner.null_terminated()
    }

    /// The underlying interner is well formed.
    pub closed spec fn wf(&self) -> bool {
        self.inner.wf()
    }

    /// An empty interner.
    pub fn new() -> (r: StringInterner)
        ensures
            r.wf(),
            r.entries().is_empty(),
            r.end() == 0,
            !r.null_terminated(),
    {
        StringInterner { inner: Interner::new() }
    }

    /// An empty interner that writes a zero byte after each stored string.
    pub fn new_with_null_terminator() -> (r: StringInterner)
        ensures
            r.wf(),
            r.entries().is_empty(),
            r.end() == 0,
            r.null_terminated(),
    {
        StringInterner { inner: Interner::new_with_null_delim() }
    }

    /// The number of arena bytes that the stored entries take.
    pub fn arena_len(&self) -> (r: usize)
        ensures
            r == self.end(),
    {
        self.inner.arena_len()
    }

    /// Interns `s`: the handle of the entry that already holds it, or of a
    /// new entry.
    pub fn intern(&mut self, s: &str) -> (r: IStr<'_>)
        requires
            old(self).wf(),
            holds_value(old(self).entries(), encode_utf8(s@)) || old(self).end() + entry_size(
                encode_utf8(s@).len(),
                old(self).null_terminated(),
            ) <= MAX_ARENA_SIZE,
        ensures
            final(self).wf(),
            ({
                let (entries, end, offset) = intern_spec(
                    old(self).entries(),
                    old(self).end(),
                    old(self).null_terminated(),
                    encode_utf8(s@),
                );
                &&& final(self).entries() == entries
                &&& final(self).end() == end
                &&& r.offset() == offset
            }),
            final(self).null_terminated() == old(self).null_terminated(),
            r@ == s@,
            r.bytes() == encode_utf8(s@),
            r.null_terminated() == old(self).null_terminated(),
    {
        let inner = self.inner.intern(s.as_bytes());
        IStr { inner }
    }

    /// Interns `s` only when it is not stored yet, and returns its new handle;
    /// returns `None` when it was.
    pub fn intern_once(&mut self, s: &str) -> (r: Option<IStr<'_>>)
        requires
            old(self).wf(),
            holds_value(old(self).entries(), encode_utf8(s@)) || old(self).end() + entry_size(
                encode_utf8(s@).len(),
                old(self).null_terminated(),
            ) <= MAX_ARENA_SIZE,
        ensures
            final(self).wf(),
            ({
                let (entries, end, offset) = intern_once_spec(
                    old(self).entries(),
                    old(self).end(),
                    old(self).null_terminated(),
                    encode_utf8(s@),
                );
                &&& final(self).entries() == entries
                &&& final(self).end() == end
                &&& match r {
                    Some(h) => offset == Some(h.offset()) && h@ == s@ && h.null_terminated()
                        == old(self).null_terminated(),
                    None => offset is None,
                }
            }),
            final(self).null_terminated() == old(self).null_terminated(),
    {
        match self.inner.intern_once(s.as_bytes()) {
            Some(inner) => Some(IStr { inner }),
            None => None,
        }
    }
}

impl Default for StringInterner {
    fn default() -> (r: StringInterner)
        ensures
            r.wf(),
            r.entries().is_empty(),
            r.end() == 0,
            !r.null_terminated(),
    {
        StringInterner::new()
    }
}

} // verus!
