//! Parsing and presentation logic for the tennis-matches search service:
//! CSV records of players, tourneys and matches, their textual descriptions,
//! search-query text and the in-memory publish/subscribe registry.

pub mod data;
pub mod items;
pub mod number;
pub mod pub_sub;
pub mod text;

pub use data::{Match, TennisPlayer, Tourney};
pub use data::service::{
    add_file_matches, describe_match, is_match_file_name, matches_from_files, players_from_text,
};
pub use data::table::StrTable;
pub use items::{Item, MAX_PARAMS};
pub use pub_sub::PubSub;

use vstd::prelude::*;

verus! {

/// The collection of the search index that holds the match entries.
pub const COLLECTION: &'static str = "search";

/// The bucket of the search index that holds the match entries.
pub const BUCKET: &'static str = "default";

} // verus!
