//! The crawl scheduler's visit decisions.
//!
//! The scheduler enumerates candidate identifiers, consults the
//! existence oracle before any network work, and drives each visit
//! through its lifecycle. The decisions are here; dispatching tasks,
//! the politeness delay and the I/O they order are the caller's concern.

use vstd::prelude::*;

use crate::parser::Id;
use crate::store::Store;
use crate::store::has_edge;
use crate::store::has_node;

verus! {

/// The lifecycle of one candidate identifier's visit.
#[derive(Debug, PartialEq, Eq, Clone, Copy)]
pub enum VisitState {
    Unvisited,
    Fetching,
    Extracting,
    Ingesting,
    Committed,
    Abandoned,
}

/// What a visit observes at each step of its lifecycle.
#[derive(Debug, PartialEq, Eq, Clone, Copy)]
pub enum VisitEvent {
    /// The oracle answered: the node is already stored.
    OracleKnown,
    /// The oracle answered: the node is not stored yet.
    OracleUnknown,
    FetchSucceeded,
    FetchFailed,
    ExtractSucceeded,
    ExtractFailed,
    IngestSucceeded,
    IngestFailed,
}

/// One step of the visit lifecycle. A known candidate never leaves
/// `Unvisited`; a failure at any stage abandons the visit; the terminal
/// states absorb every further event, as does an event out of order.
pub open spec fn visit_step_m(s: VisitState, e: VisitEvent) -> VisitState {
    match (s, e) {
        (VisitState::Unvisited, VisitEvent::OracleUnknown) => VisitState::Fetching,
        (VisitState::Fetching, VisitEvent::FetchSucceeded) => VisitState::Extracting,
        (VisitState::Fetching, VisitEvent::FetchFailed) => VisitState::Abandoned,
        (VisitState::Extracting, VisitEvent::ExtractSucceeded) => VisitState::Ingesting,
        (VisitState::Extracting, VisitEvent::ExtractFailed) => VisitState::Abandoned,
        (VisitState::Ingesting, VisitEvent::IngestSucceeded) => VisitState::Committed,
        (VisitState::Ingesting, VisitEvent::IngestFailed) => VisitState::Abandoned,
        (_, _) => s,
    }
}

/// The executable step of the visit lifecycle.
pub fn visit_step(s: VisitState, e: VisitEvent) -> (r: VisitState)
    ensures
        r == visit_step_m(s, e),
{
    match (s, e) {
        (VisitState::Unvisited, VisitEvent::OracleUnknown) => VisitState::Fetching,
        (VisitState::Fetching, VisitEvent::FetchSucceeded) => VisitState::Extracting,
        (VisitState::Fetching, VisitEvent::FetchFailed) => VisitState::Abandoned,
        (VisitState::Extracting, VisitEvent::ExtractSucceeded) => VisitState::Ingesting,
        (VisitState::Extracting, VisitEvent::ExtractFailed) => VisitState::Abandoned,
        (VisitState::Ingesting, VisitEvent::IngestSucceeded) => VisitState::Committed,
        (VisitState::Ingesting, VisitEvent::IngestFailed) => VisitState::Abandoned,
        (_, _) => s,
    }
}

/// The states a visit passes through, starting from `init`, one per
/// event observed: the trace of the lifecycle.
pub open spec fn visit_trace_m(init: VisitState, events: Seq<VisitEvent>) -> Seq<VisitState>
    decreases events.len(),
{
    if events.len() == 0 {
        seq![init]
    } else {
        seq![init] + visit_trace_m(visit_step_m(init, events[0]), events.drop_first())
    }
}

/// A candidate the oracle keeps answering "known" for is never fetched:
/// however the rest of the events fall, its visit never leaves
/// `Unvisited`, so it never reaches the fetching state.
pub proof fn lemma_known_node_never_fetched(events: Seq<VisitEvent>)
    requires
        forall|k: int| 0 <= k < events.len() ==> events[k] != VisitEvent::OracleUnknown,
    ensures
        forall|k: int|
            0 <= k < visit_trace_m(VisitState::Unvisited, events).len()
                ==> visit_trace_m(VisitState::Unvisited, events)[k] == VisitState::Unvisited,
    decreases events.len(),
{
    let tr = visit_trace_m(VisitState::Unvisited, events);
    if events.len() > 0 {
        assert(visit_step_m(VisitState::Unvisited, events[0]) == VisitState::Unvisited);
        assert(forall|k: int|
            0 <= k < events.drop_first().len() ==> events.drop_first()[k] != VisitEvent::OracleUnknown);
        lemma_known_node_never_fetched(events.drop_first());
        let rest = visit_trace_m(VisitState::Unvisited, events.drop_first());
        assert(tr == seq![VisitState::Unvisited] + rest);
        assert forall|k: int| 0 <= k < tr.len() implies tr[k] == VisitState::Unvisited by {
            if k >= 1 {
                assert(tr[k] == rest[k - 1]);
            }
        }
    }
}

/// How many hops from a visited node the crawl expands: the node's own
/// students are one hop, and by default their students are not followed
/// within the same visit.
pub const EXPANSION_DEPTH: u32 = 1;

/// Follow neighbors at this depth only while the bound allows it.
pub fn expand_further(depth: u32, bound: u32) -> (r: bool)
    ensures
        r == (depth < bound),
{
    depth < bound
}

/// Why a visit was abandoned. No kind is fatal to the crawl run: the
/// visit's failure is isolated, and storage is untouched, so a later
/// run retries the identifier from scratch.
#[derive(Debug, PartialEq, Eq, Clone, Copy)]
pub enum VisitError {
    /// Every fetch attempt failed.
    FetchExhausted,
    /// The page held no name, the one field a record requires.
    ExtractionFailure,
    /// The ingestion's transaction failed and was rolled back.
    IngestFailure,
}

/// The lifecycle event a visit failure corresponds to.
pub fn event_of_error(e: &VisitError) -> (ev: VisitEvent)
    ensures
        *e == VisitError::FetchExhausted ==> ev == VisitEvent::FetchFailed,
        *e == VisitError::ExtractionFailure ==> ev == VisitEvent::ExtractFailed,
        *e == VisitError::IngestFailure ==> ev == VisitEvent::IngestFailed,
{
    match e {
        VisitError::FetchExhausted => VisitEvent::FetchFailed,
        VisitError::ExtractionFailure => VisitEvent::ExtractFailed,
        VisitError::IngestFailure => VisitEvent::IngestFailed,
    }
}

/// Dispatch a visit only for a candidate the oracle does not know:
/// a stored node is skipped before any fetch.
pub fn dispatch_decision(node_exists: bool) -> (dispatch: bool)
    ensures
        dispatch == !node_exists,
{
    !node_exists
}

/// Consult the store and decide whether to visit this candidate.
pub fn should_visit(store: &Store, id: Id) -> (r: bool)
    ensures
        r == !has_node(store@, id.0 as int),
{
    dispatch_decision(store.has_mathematician(id))
}

/// Re-derive a visited node's student unless both the student node and
/// the edge to it are already stored: the stricter skip condition.
pub fn student_fetch_decision(node_exists: bool, edge_exists: bool) -> (fetch: bool)
    ensures
        fetch == !(node_exists && edge_exists),
{
    !(node_exists && edge_exists)
}

/// Skip re-deriving a visited node's student only when both the student
/// node and the edge to it are already stored; fetch it otherwise.
pub fn should_scrape_student(store: &Store, advisor: Id, student: Id) -> (r: bool)
    ensures
        r == !(has_node(store@, student.0 as int) && has_edge(
            store@,
            advisor.0 as int,
            student.0 as int,
        )),
{
    student_fetch_decision(
        store.has_mathematician(student),
        store.has_advisor_advisee(advisor, student),
    )
}

} // verus!
