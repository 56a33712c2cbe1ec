//! A small verified text-search library: given a query and a text body, it
//! returns the lines of the body that contain the query, either exactly or
//! under simple per-character case folding.

use vstd::prelude::*;

pub mod config;
pub mod search;

verus! {

use crate::config::Config;

/// Runs the search that a configuration calls for over already-loaded file
/// contents, picking the case policy from the configuration.
pub fn run<'a>(config: &Config, contents: &'a str) -> (results: Vec<&'a str>)
    ensures
        results.deep_view() == search::search_results(
            config.query@,
            contents@,
            config.case_sensitive,
        ),
{
    if config.case_sensitive {
        search::search(config.query.as_str(), contents)
    } else {
        search::search_case_insensitive(config.query.as_str(), contents)
    }
}

} // verus!
