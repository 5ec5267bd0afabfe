//! Shared behaviour of package components.

use vstd::prelude::*;

verus! {

use crate::tracking::{any_glob_matches, any_glob_match};

/// Selects the files of a component by glob patterns.
#[derive(Clone, Debug)]
pub struct FileMatcher {
    pub patterns: Vec<String>,
}

impl FileMatcher {
    /// A matcher holding the given glob patterns.
    pub fn new(patterns: Vec<String>) -> (r: FileMatcher)
        ensures
            r.patterns == patterns,
    {
        FileMatcher { patterns }
    }

    /// Whether any of the patterns matches the path.
    pub fn matches(&self, path: &str) -> (r: bool)
        ensures
            r == any_glob_matches(self.patterns@.map_values(|p: String| p@), path@),
    {
        any_glob_match(&self.patterns, path)
    }
}

/// Operations every component kind offers.
pub trait ComponentOps {
    /// The matcher selecting this component's files.
    fn files(&self) -> &FileMatcher;
}

/// One named component of a package.
#[derive(Clone, Debug)]
pub struct ComponentSpec {
    pub name: String,
    pub files: FileMatcher,
}

impl ComponentOps for ComponentSpec {
    fn files(&self) -> &FileMatcher {
        &self.files
    }
}

} // verus!
