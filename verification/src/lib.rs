//! The logic of a terminal tool that amends the latest git commit with
//! `Co-authored-by:` trailers: which contributors are offered, how the
//! picker's list, search, selection and cursor behave, and what the amended
//! message says.
use vstd::prelude::*;

pub mod app;
pub mod git;
pub mod order;
pub mod screen;
pub mod search;
pub mod text;

pub use app::{App, Key};
pub use screen::{Row, RowStyle};
pub use git::{
    amended_message, authors_template, merge_contributors, parse_authors,
    strip_coauthor_trailers, unique_contributors, without_user, Contributor,
};
pub use search::rank_matches;

verus! {

} // verus!
