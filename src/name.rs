//! Names that entities can be given and looked up by, one path segment each.
use vstd::prelude::*;
use vstd::std_specs::iter::IteratorSpec;

verus! {

/// A non-empty name holding neither `.` nor `/`, the path separators.
#[derive(Clone, Debug, PartialEq, Eq, Hash)]
pub struct Name(String);

/// `s` is usable as a name.
pub open spec fn valid_name(s: Seq<char>) -> bool {
    s.len() > 0 && forall|i: int| 0 <= i < s.len() ==> s[i] != '.' && s[i] != '/'
}

impl Name {
    pub closed spec fn view(&self) -> Seq<char> {
        self.0@
    }

    /// The name `s`, or `None` where `s` is empty or holds a `.` or a `/`.
    pub fn new(s: String) -> (r: Option<Name>)
        ensures
            r is Some <==> valid_name(s@),
            r is Some ==> r->Some_0@ == s@,
    {
        if s.as_str().is_empty() {
            return None;
        }
        for c in it: s.as_str().chars()
            invariant
                it.seq() == s@,
                forall|i: int| 0 <= i < it.index() ==> #[trigger] s@[i] != '.' && s@[i] != '/',
            ensures
                forall|i: int| 0 <= i < s@.len() ==> #[trigger] s@[i] != '.' && s@[i] != '/',
        {
            if c == '.' || c == '/' {
                return None;
            }
        }
        Some(Name(s))
    }

    /// The name's text.
    pub fn as_str(&self) -> (r: &str)
        ensures
            r@ == self@,
    {
        self.0.as_str()
    }
}

/// A key that looks up a root entity by its name.
pub struct RootName<'a>(pub &'a str);

} // verus!
