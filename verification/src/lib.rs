//! Line-oriented text search: the lines of a text that contain a query,
//! with or without regard to letter case, and the configuration that
//! selects between the two.

pub mod config;
pub mod encoding;
pub mod fold;
pub mod laws;
pub mod lines;
pub mod pattern;
pub mod search;

pub use config::Config;
pub use search::{search, search_case_insensitive};

use vstd::prelude::*;
use search::{matching_lines, matching_lines_folded, texts};

verus! {

/// The lines that a search with the settings `config` finds in `contents`.
pub open spec fn found_lines(config: config::ConfigModel, contents: Seq<char>) -> Seq<Seq<char>> {
    if config.case_sensitive {
        matching_lines(config.query, contents)
    } else {
        matching_lines_folded(config.query, contents)
    }
}

/// Searches `contents`, the text of the file that `config` names, with the
/// query and the case rule of `config`, and returns the lines to print, in
/// order. No match is an empty result, not an error.
pub fn run<'a>(config: &Config, contents: &'a str) -> (found: Vec<&'a str>)
    ensures
        texts(found@) == found_lines(config@, contents@),
{
    if config.case_sensitive {
        search(config.query.as_str(), contents)
    } else {
        search_case_insensitive(config.query.as_str(), contents)
    }
}

} // verus!
