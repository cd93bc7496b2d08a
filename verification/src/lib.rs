//! A crawl-and-ingest engine for a genealogical graph of academic mentorship.
//!
//! The crawl visits node identifiers of an external source, fetches and
//! extracts a [`parser::ScrapeRecord`] for each, and persists it into a
//! normalized relational store with conflict-skip insert semantics. The
//! store logic, the retry policy of the fetcher, the scheduler's skip
//! decisions and the text-level parsing are verified here; network and
//! database I/O live outside the library.

use vstd::prelude::*;

pub mod fetch;
pub mod mathematician;
pub mod parser;
pub mod scheduler;
pub mod store;

verus! {

} // verus!
