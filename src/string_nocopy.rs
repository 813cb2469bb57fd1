//! The no-copy interner specialised to text.
use vstd::prelude::*;
use vstd::utf8::{decode_utf8, encode_utf8, valid_utf8};
use crate::nocopy::{record_spec, records_value, Interned, Interner};
use crate::string_copy::decode_stored;

verus! {

broadcast use vstd::utf8::encode_utf8_valid_utf8, vstd::utf8::encode_utf8_decode_utf8;

/// Interner that records the string references it is given, one per distinct
/// string.
pub struct StringInterner<'a> {
    inner: Interner<'a>,
}

/// A handle to a string recorded in a no-copy `StringInterner`; handles
/// compare by the recorded reference they stand for.
pub struct IStr<'a> {
    inner: Interned<'a>,
}

impl<'a> IStr<'a> {
    /// The interned string.
    pub closed spec fn view(&self) -> Seq<char> {
        decode_utf8(self.inner@)
    }

    /// The position of the recorded reference this handle stands for.
    pub closed spec fn index(&self) -> usize {
        self.inner.index()
    }

    #[verifier::type_invariant]
    closed spec fn inv(&self) -> bool {
        valid_utf8(self.inner@)
    }

    /// The interned string, through the reference recorded for it.
    pub fn val(&self) -> (r: &'a str)
        ensures
            r@ == self@,
    {
        proof {
            use_type_invariant(self);
        }
        decode_stored(self.inner.val())
    }
}

impl<'a> PartialEq for IStr<'a> {
    fn eq(&self, rhs: &Self) -> (r: bool)
        ensures
            r == (self.index() == rhs.index()),
    {
        self.inner == rhs.inner
    }
}

impl<'a> vstd::std_specs::cmp::PartialEqSpecImpl for IStr<'a> {
    open spec fn obeys_eq_spec() -> bool {
        true
    }

    open spec fn eq_spec(&self, rhs: &Self) -> bool {
        self.index() == rhs.index()
    }
}

impl<'a> Eq for IStr<'a> {
}

impl<'a> StringInterner<'a> {
    /// The recorded strings' bytes, in the order they were first interned.
    pub closed spec fn values(&self) -> Seq<Seq<u8>> {
        self.inner.values()
    }

    /// The underlying interner is well formed.
    pub closed spec fn wf(&self) -> bool {
        self.inner.wf()
    }

    /// An empty interner.
    pub fn new() -> (r: StringInterner<'a>)
        ensures
            r.wf(),
            r.values().len() == 0,
    {
        StringInterner { inner: Interner::new() }
    }

    /// The number of distinct strings recorded.
    pub fn len(&self) -> (r: usize)
        ensures
            r == self.values().len(),
    {
        self.inner.len()
    }

    /// Interns `s`: the handle of the reference recorded for an equal string,
    /// or of `s` itself, recorded now.
    pub fn intern(&mut self, s: &'a str) -> (r: IStr<'a>)
        requires
            old(self).wf(),
        ensures
            final(self).wf(),
            ({
                let (values, i) = record_spec(old(self).values(), encode_utf8(s@));
                &&& final(self).values() == values
                &&& r.index() == i
            }),
            r@ == s@,
    {
        let inner = self.inner.intern(s.as_bytes());
        IStr { inner }
    }

    /// Interns `s` only when no equal string is recorded yet, and returns its
    /// new handle; returns `None` when one was.
    pub fn intern_once(&mut self, s: &'a str) -> (r: Option<IStr<'a>>)
        requires
            old(self).wf(),
        ensures
            final(self).wf(),
            match r {
                Some(h) => !records_value(old(self).values(), encode_utf8(s@))
                    && final(self).values() == old(self).values().push(encode_utf8(s@))
                    && h.index() == old(self).values().len() && h@ == s@,
                None => records_value(old(self).values(), encode_utf8(s@)) && final(self).values()
                    == old(self).values(),
            },
    {
        match self.inner.intern_once(s.as_bytes()) {
            Some(inner) => Some(IStr { inner }),
            None => None,
        }
    }
}

impl<'a> Default for StringInterner<'a> {
    fn default() -> (r: StringInterner<'a>)
        ensures
            r.wf(),
            r.values().len() == 0,
    {
        StringInterner::new()
    }
}

} // verus!
