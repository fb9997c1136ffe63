//! An ontology term identifier: an opaque, equality-comparable value printed
//! as a colon-joined `prefix:local` pair, e.g. `HP:0001250`.

use vstd::prelude::*;

use crate::text::str_eq;

verus! {

/// A term identifier. Held as the full colon-joined text.
#[derive(Debug)]
pub struct TermId {
    value: String,
}

impl TermId {
    /// The full `prefix:local` text.
    pub closed spec fn spec_value(self) -> Seq<char> {
        self.value@
    }

    /// Build an identifier from its prefix and local part.
    pub fn new(prefix: &str, local: &str) -> (r: Self)
        ensures
            r.spec_value() == prefix@ + ":"@ + local@,
    {
        let mut value = prefix.to_owned();
        value.append(":");
        value.append(local);
        TermId { value }
    }

    /// Take an identifier from its colon-joined text, e.g. `HP:0001250`.
    /// Returns `None` when the text holds no colon.
    pub fn from_curie(s: &str) -> (r: Option<Self>)
        ensures
            r is Some <==> s@.contains(':'),
            r is Some ==> r->0.spec_value() == s@,
    {
        let len = s.unicode_len();
        for i in 0..len
            invariant
                len == s@.len(),
                forall|j: int| 0 <= j < i ==> s@[j] != ':',
        {
            if s.get_char(i) == ':' {
                return Some(TermId { value: s.to_owned() });
            }
        }
        proof {
            assert(!s@.contains(':'));
        }
        None
    }

    /// Wrap an identifier text that is already known to be well formed.
    pub(crate) fn from_text(s: &str) -> (r: Self)
        ensures
            r.spec_value() == s@,
    {
        TermId { value: s.to_owned() }
    }

    /// The colon-joined text of the identifier.
    pub fn curie(&self) -> (r: String)
        ensures
            r@ == self.spec_value(),
    {
        self.value.clone()
    }

    /// Equality of identifiers.
    pub fn matches(&self, other: &TermId) -> (r: bool)
        ensures
            r == (self.spec_value() == other.spec_value()),
    {
        str_eq(self.value.as_str(), other.value.as_str())
    }
}

impl Clone for TermId {
    fn clone(&self) -> (r: Self)
        ensures
            r.spec_value() == self.spec_value(),
    {
        TermId { value: self.value.clone() }
    }
}

impl PartialEq for TermId {
    fn eq(&self, other: &Self) -> (r: bool) {
        str_eq(self.value.as_str(), other.value.as_str())
    }
}

impl vstd::std_specs::cmp::PartialEqSpecImpl for TermId {
    open spec fn obeys_eq_spec() -> bool {
        true
    }

    open spec fn eq_spec(&self, other: &Self) -> bool {
        self.spec_value() == other.spec_value()
    }
}

} // verus!
