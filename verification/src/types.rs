//! Resource, action and subject newtypes.
//!
//! Resources and actions are non-empty names that never contain `:`,
//! the delimiter reserved by the persistent key encoding.

use vstd::prelude::*;

verus! {

use crate::strings::chars_vec;
use crate::strings::cmp_chars;

/// A name is acceptable as a resource or action: non-empty, and free of
/// the reserved key delimiter `:`.
pub open spec fn spec_valid_name(s: Seq<char>) -> bool {
    s.len() > 0 && forall|i: int| 0 <= i < s.len() ==> s[i] != ':'
}

/// Decides `spec_valid_name`.
pub fn valid_name(s: &str) -> (r: bool)
    ensures
        r == spec_valid_name(s@),
{
    let v = chars_vec(s);
    if v.len() == 0 {
        return false;
    }
    let mut i: usize = 0;
    while i < v.len()
        invariant
            i <= v@.len(),
            v@ == s@,
            forall|j: int| 0 <= j < i ==> v@[j] != ':',
        decreases v@.len() - i,
    {
        if v[i] == ':' {
            return false;
        }
        i = i + 1;
    }
    true
}

/// A named object to which access is requested, such as a path.
#[derive(Debug, Clone)]
pub struct Resource {
    name: String,
}

impl View for Resource {
    type V = Seq<char>;

    closed spec fn view(&self) -> Seq<char> {
        self.name@
    }
}

impl Resource {
    /// Wraps a name. The name must be non-empty and free of `:`.
    pub fn new(s: &str) -> (r: Resource)
        requires
            spec_valid_name(s@),
        ensures
            r@ == s@,
    {
        Resource { name: s.to_owned() }
    }

    /// The wrapped name.
    pub fn as_str(&self) -> (r: &str)
        ensures
            r@ == self@,
    {
        self.name.as_str()
    }

    /// A copy with the same name.
    pub fn dup(&self) -> (r: Resource)
        ensures
            r == *self,
    {
        Resource { name: self.name.clone() }
    }

    /// Wraps a name read back from storage, unvalidated.
    pub fn from_raw(s: String) -> (r: Resource)
        ensures
            r@ == s@,
    {
        Resource { name: s }
    }
}

impl PartialEq for Resource {
    fn eq(&self, other: &Resource) -> (r: bool) {
        self.name == other.name
    }
}

impl vstd::std_specs::cmp::PartialEqSpecImpl for Resource {
    open spec fn obeys_eq_spec() -> bool {
        true
    }

    open spec fn eq_spec(&self, other: &Resource) -> bool {
        self@ == other@
    }
}

/// A verb describing the attempted operation on a resource.
#[derive(Debug, Clone)]
pub struct Action {
    name: String,
}

impl View for Action {
    type V = Seq<char>;

    closed spec fn view(&self) -> Seq<char> {
        self.name@
    }
}

impl Action {
    /// Wraps a name. The name must be non-empty and free of `:`.
    pub fn new(s: &str) -> (r: Action)
        requires
            spec_valid_name(s@),
        ensures
            r@ == s@,
    {
        Action { name: s.to_owned() }
    }

    /// The wrapped name.
    pub fn as_str(&self) -> (r: &str)
        ensures
            r@ == self@,
    {
        self.name.as_str()
    }

    /// A copy with the same name.
    pub fn dup(&self) -> (r: Action)
        ensures
            r == *self,
    {
        Action { name: self.name.clone() }
    }

    /// Wraps a name read back from storage, unvalidated.
    pub fn from_raw(s: String) -> (r: Action)
        ensures
            r@ == s@,
    {
        Action { name: s }
    }
}

impl PartialEq for Action {
    fn eq(&self, other: &Action) -> (r: bool) {
        self.name == other.name
    }
}

impl vstd::std_specs::cmp::PartialEqSpecImpl for Action {
    open spec fn obeys_eq_spec() -> bool {
        true
    }

    open spec fn eq_spec(&self, other: &Action) -> bool {
        self@ == other@
    }
}

/// The identity on whose behalf a request is made.
#[derive(Debug, Clone)]
pub struct Subject {
    name: String,
}

impl View for Subject {
    type V = Seq<char>;

    closed spec fn view(&self) -> Seq<char> {
        self.name@
    }
}

impl Subject {
    /// Wraps an identity identifier.
    pub fn new(s: &str) -> (r: Subject)
        ensures
            r@ == s@,
    {
        Subject { name: s.to_owned() }
    }

    /// The wrapped identifier.
    pub fn as_str(&self) -> (r: &str)
        ensures
            r@ == self@,
    {
        self.name.as_str()
    }
}

/// Three-way comparison of two resources in lexicographic name order.
pub fn cmp_resource(a: &Resource, b: &Resource) -> (r: i8)
    ensures
        r == -1i8 || r == 0i8 || r == 1i8,
        (r == -1i8) == crate::strings::lex_lt(a@, b@),
        (r == 0i8) == (a@ == b@),
        (r == 1i8) == crate::strings::lex_lt(b@, a@),
{
    let va = chars_vec(a.as_str());
    let vb = chars_vec(b.as_str());
    cmp_chars(&va, &vb)
}

/// Three-way comparison of two actions in lexicographic name order.
pub fn cmp_action(a: &Action, b: &Action) -> (r: i8)
    ensures
        r == -1i8 || r == 0i8 || r == 1i8,
        (r == -1i8) == crate::strings::lex_lt(a@, b@),
        (r == 0i8) == (a@ == b@),
        (r == 1i8) == crate::strings::lex_lt(b@, a@),
{
    let va = chars_vec(a.as_str());
    let vb = chars_vec(b.as_str());
    cmp_chars(&va, &vb)
}

} // verus!
