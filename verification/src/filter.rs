//! Trackability: whether an emote's display name matches the pattern the
//! process was configured with.
//!
//! Matching is delegated to the `regex` crate; the pattern is anchored as
//! `^pattern.*$`, so it effectively selects names by a configured prefix
//! expression. The result of a match is a pure function of the pattern and
//! the name, named by `trackable_by`.

use vstd::prelude::*;

verus! {

pub uninterp spec fn trackable_by(pattern: Seq<char>, name: Seq<char>) -> bool;

/// Relies on `regex::Regex::new` and `regex::Regex::is_match`: whether
/// `text` matches the anchored expression `^pattern.*$`. Both are pure
/// functions of their string arguments, so the result depends on `pattern`
/// and `text` alone; a pattern that does not compile matches nothing.
#[verifier::external_body]
fn anchored_regex_match(pattern: &str, text: &str) -> (b: bool)
    ensures
        b == trackable_by(pattern@, text@),
{
    match regex::Regex::new(&format!("^{}.*$", pattern)) {
        Ok(re) => re.is_match(text),
        Err(_) => false,
    }
}

/// Decides whether an emote name matches the inclusion pattern supplied at
/// process start. Pure: no state beyond the configured pattern, and total
/// for any name.
pub struct TrackabilityFilter {
    pattern: String,
}

impl TrackabilityFilter {
    /// The configured inclusion pattern.
    pub closed spec fn pattern_view(&self) -> Seq<char> {
        self.pattern@
    }

    pub fn new(pattern: String) -> (filter: TrackabilityFilter)
        ensures
            filter.pattern_view() == pattern@,
    {
        TrackabilityFilter { pattern }
    }

    /// Whether occurrences of the named emote are tracked.
    pub fn is_trackable(&self, name: &str) -> (b: bool)
        ensures
            b == trackable_by(self.pattern_view(), name@),
    {
        anchored_regex_match(self.pattern.as_str(), name)
    }
}

} // verus!
