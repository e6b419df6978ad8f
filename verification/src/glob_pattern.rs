//! An optional shell-style glob over file paths.
use vstd::prelude::*;
use crate::error::Error;

verus! {

/// The error that `glob::Pattern::new` reports for a malformed pattern.
/// Nothing is known of what it holds.
#[verifier::external_type_specification]
#[verifier::external_body]
pub struct ExPatternError(glob::PatternError);

/// Whether `glob::Pattern::new` accepts the pattern text.
pub uninterp spec fn glob_valid(pattern: Seq<char>) -> bool;

/// Whether the pattern compiled from the text by `glob::Pattern::new` matches
/// the path under `glob::Pattern::matches`, that is, with the default match
/// options and the path separators of the platform the crate is built for.
pub uninterp spec fn glob_matches(pattern: Seq<char>, path: Seq<char>) -> bool;

/// Calls `glob::Pattern::new` and drops the pattern: `Ok` exactly for the
/// texts that it accepts, and otherwise the error that the call returned.
#[verifier::external_body]
fn check_pattern(pattern: &str) -> (result: Result<(), glob::PatternError>)
    ensures
        result is Ok <==> glob_valid(pattern@),
{
    match glob::Pattern::new(pattern) {
        Ok(_) => Ok(()),
        Err(error) => Err(error),
    }
}

/// Compiles the text with `glob::Pattern::new` and calls
/// `glob::Pattern::matches` on the path. The text must be one that compiles.
#[verifier::external_body]
fn pattern_matches(pattern: &str, path: &str) -> (result: bool)
    requires
        glob_valid(pattern@),
    ensures
        result == glob_matches(pattern@, path@),
{
    match glob::Pattern::new(pattern) {
        Ok(compiled) => compiled.matches(path),
        Err(_) => false,
    }
}

/// The text of an optional path.
pub open spec fn path_text(path: Option<&str>) -> Option<Seq<char>> {
    match path {
        Some(text) => Some(text@),
        None => None,
    }
}

/// Whether a filter with the given pattern lets the path through. Without a
/// pattern every path that has a text passes; a path without a text never
/// passes.
pub open spec fn accepts(pattern: Option<Seq<char>>, path: Option<Seq<char>>) -> bool {
    match (pattern, path) {
        (Some(pattern), Some(path)) => glob_matches(pattern, path),
        (Some(_), None) => false,
        (None, Some(_)) => true,
        (None, None) => false,
    }
}

/// A filter on file paths: a glob pattern, or none.
#[derive(Debug)]
pub struct GlobPattern {
    pattern: Option<String>,
}

impl View for GlobPattern {
    type V = Option<Seq<char>>;

    closed spec fn view(&self) -> Option<Seq<char>> {
        match self.pattern {
            Some(text) => Some(text@),
            None => None,
        }
    }
}

impl Clone for GlobPattern {
    fn clone(&self) -> (result: Self)
        ensures
            result@ == self@,
    {
        proof {
            use_type_invariant(self);
        }
        match &self.pattern {
            Some(text) => GlobPattern { pattern: Some(text.clone()) },
            None => GlobPattern { pattern: None },
        }
    }
}

impl GlobPattern {
    #[verifier::type_invariant]
    pub closed spec fn compiles(self) -> bool {
        match self.pattern {
            Some(text) => glob_valid(text@),
            None => true,
        }
    }

    /// Builds the filter. A pattern that is not a well-formed glob is
    /// rejected with `Error::PatternError`; no pattern at all is accepted.
    pub fn new(pattern: Option<String>) -> (result: Result<Self, Error>)
        ensures
            match pattern {
                None => result is Ok && result->Ok_0@ == None::<Seq<char>>,
                Some(text) => if glob_valid(text@) {
                    result is Ok && result->Ok_0@ == Some(text@)
                } else {
                    result is Err && result->Err_0 is PatternError
                },
            },
    {
        match pattern {
            Some(text) => {
                match check_pattern(text.as_str()) {
                    Ok(_) => Ok(GlobPattern { pattern: Some(text) }),
                    Err(error) => Err(Error::PatternError(error)),
                }
            },
            None => Ok(GlobPattern { pattern: None }),
        }
    }

    /// Whether the filter lets `path` through; `None` stands for a path that
    /// has no text form.
    pub fn matches(&self, path: Option<&str>) -> (result: bool)
        ensures
            result == accepts(self@, path_text(path)),
    {
        proof {
            use_type_invariant(self);
        }
        match (&self.pattern, path) {
            (Some(pattern), Some(path)) => pattern_matches(pattern.as_str(), path),
            (Some(_), None) => false,
            (None, Some(_)) => true,
            (None, None) => false,
        }
    }
}

} // verus!
