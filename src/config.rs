use vstd::prelude::*;

verus! {

/// The roots of one run, with the defaults filled in.
#[derive(Debug, Clone)]
pub struct RunConfig {
    /// The tree that files are read from; `.` unless given.
    pub source: String,
    /// The tree that files are written to; `_site` unless given.
    pub destination: String,
}

impl RunConfig {
    /// The roots of a run: each one given, or its default.
    pub fn resolve(source: Option<&str>, destination: Option<&str>) -> (r: RunConfig)
        ensures
            r.source@ == match source {
                Some(s) => s@,
                None => "."@,
            },
            r.destination@ == match destination {
                Some(d) => d@,
                None => "_site"@,
            },
    {
        let source = match source {
            Some(s) => s,
            None => ".",
        };
        let destination = match destination {
            Some(d) => d,
            None => "_site",
        };
        RunConfig { source: source.to_owned(), destination: destination.to_owned() }
    }
}

} // verus!
