//! The rows of one snapshot, as plain values. Identifiers are the 32-bit
//! numbers that the snapshot's source assigned.

use vstd::prelude::*;

verus! {

/// One package, with what the registry shows of it.
#[derive(Debug, Clone)]
pub struct PackageRow {
    pub id: u32,
    pub name: String,
    pub description: String,
    pub homepage: Option<String>,
    pub documentation: Option<String>,
    pub repository: Option<String>,
}

/// One published version of a package.
#[derive(Debug, Clone)]
pub struct VersionRow {
    pub id: u32,
    pub crate_id: u32,
    /// The version number as text, such as `1.4.0-rc.1`.
    pub num: String,
    /// When the version was published: whole seconds since the epoch.
    pub created_secs: i64,
    /// The nanoseconds beyond `created_secs`.
    pub created_nanos: u32,
    /// Whether the version has a library target.
    pub has_lib: bool,
}

/// One dependency edge: version `version_id` depends on package `crate_id`.
/// A version may declare the same target more than once, as a normal, a
/// build and a development dependency.
#[derive(Debug, Clone, Copy)]
pub struct DependencyRow {
    pub version_id: u32,
    pub crate_id: u32,
}

/// The number of versions that the source reports for a package.
#[derive(Debug, Clone, Copy)]
pub struct VersionCountRow {
    pub crate_id: u32,
    pub num_versions: Option<u32>,
}

/// One association of a package with a keyword or a category.
#[derive(Debug, Clone, Copy)]
pub struct TagLink {
    pub crate_id: u32,
    pub tag_id: u32,
}

/// The name of one keyword or category.
#[derive(Debug, Clone)]
pub struct TagName {
    pub id: u32,
    pub name: String,
}

/// All rows of one snapshot, each table in the order in which its rows
/// were delivered.
#[derive(Debug, Clone)]
pub struct Snapshot {
    pub crates: Vec<PackageRow>,
    pub versions: Vec<VersionRow>,
    pub dependencies: Vec<DependencyRow>,
    pub default_versions: Vec<VersionCountRow>,
    pub crates_keywords: Vec<TagLink>,
    pub crates_categories: Vec<TagLink>,
    pub keywords: Vec<TagName>,
    pub categories: Vec<TagName>,
}

} // verus!
