pub mod group;
pub mod laws;
pub mod report;
pub mod style;
pub mod text;

use vstd::prelude::*;

verus! {

/// One resolved package entry from a lockfile: name, version, source origin,
/// optional license string, optional author list.
pub struct Dependency {
    pub name: String,
    pub version: String,
    pub source: String,
    pub license: Option<String>,
    pub authors: Option<Vec<String>>,
}

/// The two display switches of a report: whether author lines are shown,
/// and whether tokens are wrapped in terminal styling.
pub struct Config {
    pub show_authors: bool,
    pub color: bool,
}

/// The license string a record is keyed by: its own license, or "N/A"
/// when none was recorded.
pub open spec fn license_key(d: Dependency) -> Seq<char> {
    match d.license {
        Some(l) => l@,
        None => "N/A"@,
    }
}

/// The authors a record lists, in their recorded order; empty when the
/// record carries none.
pub open spec fn author_list(d: Dependency) -> Seq<Seq<char>> {
    match d.authors {
        Some(a) => a.deep_view(),
        None => Seq::<Seq<char>>::empty(),
    }
}

} // verus!
