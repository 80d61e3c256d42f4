//! String interner: dense integer identifiers for distinct words, assigned
//! in first-occurrence order and used to keep chain keys compact. The
//! interner of the string-interner crate is held in an opaque struct, since
//! its type cannot be declared here: its own bounds name the crate's
//! `Backend` trait.

use vstd::prelude::*;
use string_interner::Symbol;

verus! {

/// Wraps string_interner::StringInterner with its default string backend:
/// symbols are dense indices in interning order.
#[verifier::external_body]
pub struct Interner {
    inner: string_interner::StringInterner<string_interner::DefaultBackend>,
}

/// The words an interner holds, ordered by identifier: the word interned as
/// id `i` stands at position `i`.
pub uninterp spec fn interner_words(it: Interner) -> Seq<Seq<char>>;

/// The greatest number of words the interner's 32-bit symbols can hold.
pub open spec fn interner_capacity() -> nat {
    0xFFFF_FFFEnat
}

impl Interner {
    /// Relies on StringInterner::new: an empty interner.
    #[verifier::external_body]
    pub fn new() -> (r: Interner)
        ensures
            interner_words(r) == (Seq::<Seq<char>>::empty()),
    {
        Interner { inner: string_interner::StringInterner::new() }
    }

    /// Relies on StringInterner::len: how many distinct words are interned.
    #[verifier::external_body]
    pub fn len(&self) -> (n: usize)
        ensures
            n == interner_words(*self).len(),
    {
        self.inner.len()
    }

    /// Relies on StringInterner::get: the identifier of an already-interned
    /// word, if any.
    #[verifier::external_body]
    pub fn get(&self, w: &str) -> (r: Option<u64>)
        ensures
            match r {
                Some(id) => id < interner_words(*self).len()
                    && interner_words(*self)[id as int] == w@,
                None => !interner_words(*self).contains(w@),
            },
            interner_words(*self).contains(w@) ==> r is Some,
    {
        self.inner.get(w).map(|sym| sym.to_usize() as u64)
    }

    /// Relies on StringInterner::get_or_intern: returns the existing
    /// identifier of the word, or appends the word and returns the next
    /// dense identifier.
    #[verifier::external_body]
    pub fn get_or_intern(&mut self, w: &str) -> (id: u64)
        requires
            interner_words(*old(self)).len() < interner_capacity(),
        ensures
            interner_words(*old(self)).contains(w@) ==> {
                &&& interner_words(*final(self)) == interner_words(*old(self))
                &&& id < interner_words(*old(self)).len()
                &&& interner_words(*old(self))[id as int] == w@
            },
            !interner_words(*old(self)).contains(w@) ==> {
                &&& interner_words(*final(self)) == interner_words(*old(self)).push(w@)
                &&& id == interner_words(*old(self)).len()
            },
    {
        self.inner.get_or_intern(w).to_usize() as u64
    }

    /// Relies on StringInterner::resolve: the word interned under a live
    /// identifier.
    #[verifier::external_body]
    pub fn resolve(&self, id: u64) -> (r: String)
        requires
            id < interner_words(*self).len(),
        ensures
            r@ == interner_words(*self)[id as int],
    {
        let sym = <string_interner::DefaultSymbol as Symbol>::try_from_usize(id as usize).unwrap();
        self.inner.resolve(sym).unwrap().to_string()
    }
}

} // verus!
