//! Requirements: a package, the extras asked of it, the versions admitted,
//! and the environments in which all this applies.

use crate::marker::Marker;
use crate::specifier::Specifier;
use crate::text::{normalize_name, normalized};
use vstd::prelude::*;

verus! {

/// A requirement such as `black[colorama]<=23.9.1; python_version >= "3.8"`.
#[derive(Debug, Clone)]
pub struct Requirement {
    /// The package's name, in normal form.
    pub name: String,
    /// The extras asked for, in normal form.
    pub extras: Vec<String>,
    /// The versions admitted: those that lie in every specifier.
    pub specifiers: Vec<Specifier>,
    /// Where the requirement applies; everywhere if there is none.
    pub marker: Option<Marker>,
}

impl Requirement {
    /// A requirement on the package `name`, brought to normal form, with the
    /// given specifiers, without extras or marker.
    pub fn new(name: &str, specifiers: Vec<Specifier>) -> (r: Requirement)
        ensures
            r.name@ == normalized(name@),
            r.extras@.len() == 0,
            r.specifiers == specifiers,
            r.marker is None,
    {
        Requirement { name: normalize_name(name), extras: Vec::new(), specifiers, marker: None }
    }
}

} // verus!
