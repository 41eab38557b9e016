//! Builds the per-package aggregates from the rows of a snapshot.

pub mod counts;
pub mod latest;
pub mod library;
pub mod names;
pub mod recent;
pub mod tags;

pub use self::counts::{counts_match, num_versions, version_counts};
pub use self::latest::{
    all_versions, is_first_malformed, latest, latest_match, latest_versions, IngestError, Latest,
};
pub use self::library::{lemma_no_library_version, library_packages, libs};
pub use self::names::{
    first_name, is_name_table, lemma_entry_id_occurs, lemma_every_id_named,
    lemma_named_id_occurs, lemma_one_entry_per_id, name_table, names_match,
};
pub use self::recent::{
    has_most_recent, is_most_recent, later, lemma_most_recent_unique,
    lemma_older_is_not_most_recent, lemma_older_version_is_not_recent, most_recent_ids,
    most_recent_match, most_recent_versions, MostRecent,
};
pub use self::tags::{lists_match, tag_lists, tags_of};
