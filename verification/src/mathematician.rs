//! The entities of the genealogical graph, as rows of the relational store.

use vstd::prelude::*;

use crate::parser::Id;

verus! {

/// A mathematician: a node of the graph, keyed by its external identifier.
#[derive(Debug, PartialEq, Eq, Hash, Clone)]
pub struct Mathematician {
    pub id: Id,
    pub name: String,
}

/// The dissertation of a mathematician, keyed by (title, author).
#[derive(Debug, PartialEq, Eq, Hash, Clone)]
pub struct Dissertation {
    pub title: String,
    pub author: Mathematician,
}

/// A school, deduplicated by name.
#[derive(Debug, PartialEq, Eq, Hash, Clone)]
pub struct School {
    pub name: String,
}

/// The country a school lies in; at most one country is recorded per school.
#[derive(Debug, PartialEq, Eq, Hash, Clone)]
pub struct SchoolLocation {
    pub school: School,
    pub country: Country,
}

/// A country, deduplicated by name.
#[derive(Debug, PartialEq, Eq, Hash, Clone)]
pub struct Country {
    pub name: String,
}

/// Where and when a mathematician graduated; at most one per mathematician.
#[derive(Debug, PartialEq, Eq, Hash, Clone)]
pub struct GraduationRecord {
    pub mathematician: Mathematician,
    pub school: School,
    pub year: i32,
}

} // verus!
