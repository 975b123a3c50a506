//! A record meant to be filled in by hand: it is rendered to a temporary
//! file, opened for editing, and read back. The rendering and the file
//! handling happen outside the verified core; the record itself is built
//! and inspected here.

use vstd::prelude::*;

verus! {

/// A template record: a name and a date progression, either of which may
/// still be missing.
pub struct SerializeMe {
    pub name: Option<String>,
    pub date_progression: Option<String>,
}

impl SerializeMe {
    /// A record with both fields filled in from the given strings.
    pub fn new(name: &str, date_progression: &str) -> (r: Self)
        ensures
            r.name matches Some(n) && n@ == name@,
            r.date_progression matches Some(d) && d@ == date_progression@,
    {
        SerializeMe {
            name: Some(name.to_owned()),
            date_progression: Some(date_progression.to_owned()),
        }
    }
}

impl Default for SerializeMe {
    /// A blank template: both fields missing.
    fn default() -> (r: Self)
        ensures
            r.name is None,
            r.date_progression is None,
    {
        SerializeMe { name: None, date_progression: None }
    }
}

} // verus!
