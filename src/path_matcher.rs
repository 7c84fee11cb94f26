//! Path filters: a glob, or a plain path that matches everything under it.
use vstd::prelude::*;

use vstd::utf8::encode_utf8;

use crate::engines::{
    compile_glob, glob_compiles, glob_matches, glob_parses, path_has_prefix, path_starts_with,
    LITERAL_LIMIT,
};

verus! {

/// A compiled inclusion/exclusion filter.
#[derive(Debug)]
pub struct PathMatcher {
    maybe_path: String,
    glob: globset::GlobSet,
}

impl PathMatcher {
    /// The text the matcher was built from.
    pub closed spec fn source(&self) -> Seq<char> {
        self.maybe_path@
    }

    /// Whether this matcher accepts `path`: `path` lies under the pattern
    /// taken as a plain path, or the pattern taken as a glob matches it.
    pub open spec fn accepts(&self, path: Seq<char>) -> bool {
        path_starts_with(path, self.source()) || glob_matches(self.source(), path)
    }

    /// Builds a matcher from `maybe_glob`; fails when it is not valid glob
    /// syntax, or when its translation outgrows globset's size limit.
    pub fn new(maybe_glob: &str) -> (r: Result<PathMatcher, globset::Error>)
        requires
            encode_utf8(maybe_glob@).len() <= LITERAL_LIMIT,
        ensures
            r is Ok ==> glob_parses(maybe_glob@),
            r is Ok <==> glob_compiles(maybe_glob@),
            r matches Ok(m) ==> m.source() == maybe_glob@,
    {
        match compile_glob(maybe_glob) {
            Ok(glob) => Ok(PathMatcher { maybe_path: maybe_glob.to_string(), glob }),
            Err(e) => Err(e),
        }
    }

    pub fn is_match(&self, other: &str) -> (r: bool)
        ensures
            r == self.accepts(other@),
            other@ == self.source() ==> r,
    {
        path_has_prefix(other, self.maybe_path.as_str()) || self.glob_is_match(other)
    }

    /// Relies on globset's `GlobSet::is_match`; `glob` is the set of the one
    /// glob parsed from `maybe_path`, and neither field changes after.
    #[verifier::external_body]
    fn glob_is_match(&self, path: &str) -> (r: bool)
        ensures
            r == glob_matches(self.source(), path@),
    {
        self.glob.is_match(path)
    }

    /// The pattern text, as it was given.
    pub fn as_str(&self) -> (r: &str)
        ensures
            r@ == self.source(),
    {
        self.maybe_path.as_str()
    }

    /// The pattern text as an owned string; this is how a matcher is shown.
    pub fn to_string(&self) -> (r: String)
        ensures
            r@ == self.source(),
    {
        self.maybe_path.clone()
    }
}

} // verus!
