//! The relational store of the graph and its transactional ingestion.
//!
//! The store holds the tables of the schema: nodes, schools, countries,
//! school locations, dissertations, graduation records and advisor
//! relations. Every insert is a conflict-skip insert: it does nothing if
//! a row with the same natural key is already present. A visit's rows are
//! gathered in a [`Transaction`] and become visible all at once on commit;
//! a transaction that is rolled back leaves the store untouched.

use vstd::prelude::*;

use crate::mathematician::Country;
use crate::mathematician::Dissertation;
use crate::mathematician::GraduationRecord;
use crate::mathematician::Mathematician;
use crate::mathematician::School;
use crate::mathematician::SchoolLocation;
use crate::parser::Id;
use crate::parser::ScrapeRecord;
use crate::parser::Student;

verus! {

/// A directed mentorship edge from advisor to advisee, keyed by the pair.
#[derive(Debug, PartialEq, Eq, Hash, Clone, Copy)]
pub struct AdvisorRelation {
    pub advisor: Id,
    pub advisee: Id,
}

/// A row of the node table: identifier and display name.
pub struct NodeRow {
    pub id: int,
    pub name: Seq<char>,
}

/// A row of the school-location table.
pub struct LocationRow {
    pub school: Seq<char>,
    pub country: Seq<char>,
}

/// A row of the dissertation table: title and the author's identifier.
pub struct DissertationRow {
    pub title: Seq<char>,
    pub author: int,
}

/// A row of the graduation table: node, school and year.
pub struct GraduationRow {
    pub node: int,
    pub school: Seq<char>,
    pub year: int,
}

/// A row of the advisor-relation table.
pub struct EdgeRow {
    pub advisor: int,
    pub advisee: int,
}

/// The mathematical model of the store: one sequence of rows per table.
#[verifier::ext_equal]
pub struct StoreModel {
    pub nodes: Seq<NodeRow>,
    pub schools: Seq<Seq<char>>,
    pub countries: Seq<Seq<char>>,
    pub school_locations: Seq<LocationRow>,
    pub dissertations: Seq<DissertationRow>,
    pub graduation_records: Seq<GraduationRow>,
    pub advisor_relations: Seq<EdgeRow>,
}

pub open spec fn has_node(m: StoreModel, id: int) -> bool {
    exists|i: int| 0 <= i < m.nodes.len() && m.nodes[i].id == id
}

pub open spec fn has_node_row(m: StoreModel, id: int, name: Seq<char>) -> bool {
    exists|i: int| 0 <= i < m.nodes.len() && m.nodes[i] == (NodeRow { id, name })
}

pub open spec fn has_school(m: StoreModel, name: Seq<char>) -> bool {
    exists|i: int| 0 <= i < m.schools.len() && m.schools[i] == name
}

pub open spec fn has_country(m: StoreModel, name: Seq<char>) -> bool {
    exists|i: int| 0 <= i < m.countries.len() && m.countries[i] == name
}

pub open spec fn has_location(m: StoreModel, school: Seq<char>) -> bool {
    exists|i: int| 0 <= i < m.school_locations.len() && m.school_locations[i].school == school
}

pub open spec fn has_location_row(m: StoreModel, school: Seq<char>, country: Seq<char>) -> bool {
    exists|i: int|
        0 <= i < m.school_locations.len() && m.school_locations[i] == (LocationRow {
            school,
            country,
        })
}

pub open spec fn has_dissertation(m: StoreModel, title: Seq<char>, author: int) -> bool {
    exists|i: int|
        0 <= i < m.dissertations.len() && m.dissertations[i] == (DissertationRow { title, author })
}

pub open spec fn has_graduation(m: StoreModel, node: int) -> bool {
    exists|i: int| 0 <= i < m.graduation_records.len() && m.graduation_records[i].node == node
}

pub open spec fn has_graduation_row(m: StoreModel, node: int, school: Seq<char>, year: int) -> bool {
    exists|i: int|
        0 <= i < m.graduation_records.len() && m.graduation_records[i] == (GraduationRow {
            node,
            school,
            year,
        })
}

pub open spec fn has_edge(m: StoreModel, advisor: int, advisee: int) -> bool {
    exists|i: int|
        0 <= i < m.advisor_relations.len() && m.advisor_relations[i] == (EdgeRow {
            advisor,
            advisee,
        })
}

/// Insert a node row if no row with that identifier exists; first write wins.
pub open spec fn insert_node_m(m: StoreModel, id: int, name: Seq<char>) -> StoreModel {
    if has_node(m, id) {
        m
    } else {
        StoreModel { nodes: m.nodes.push(NodeRow { id, name }), ..m }
    }
}

/// Insert a school if no school of that name exists.
pub open spec fn insert_school_m(m: StoreModel, name: Seq<char>) -> StoreModel {
    if has_school(m, name) {
        m
    } else {
        StoreModel { schools: m.schools.push(name), ..m }
    }
}

/// Insert a country if no country of that name exists.
pub open spec fn insert_country_m(m: StoreModel, name: Seq<char>) -> StoreModel {
    if has_country(m, name) {
        m
    } else {
        StoreModel { countries: m.countries.push(name), ..m }
    }
}

/// Insert a school location; at most one country is recorded per school.
pub open spec fn insert_location_m(m: StoreModel, school: Seq<char>, country: Seq<char>) -> StoreModel {
    if has_location(m, school) {
        m
    } else {
        StoreModel { school_locations: m.school_locations.push(LocationRow { school, country }), ..m }
    }
}

/// Insert a dissertation if none with that title and author exists.
pub open spec fn insert_dissertation_m(m: StoreModel, title: Seq<char>, author: int) -> StoreModel {
    if has_dissertation(m, title, author) {
        m
    } else {
        StoreModel { dissertations: m.dissertations.push(DissertationRow { title, author }), ..m }
    }
}

/// Insert a graduation record; at most one is recorded per node.
pub open spec fn insert_graduation_m(m: StoreModel, node: int, school: Seq<char>, year: int) -> StoreModel {
    if has_graduation(m, node) {
        m
    } else {
        StoreModel {
            graduation_records: m.graduation_records.push(GraduationRow { node, school, year }),
            ..m
        }
    }
}

/// Insert an advisor relation if that exact directed edge is absent.
pub open spec fn insert_edge_m(m: StoreModel, advisor: int, advisee: int) -> StoreModel {
    if has_edge(m, advisor, advisee) {
        m
    } else {
        StoreModel {
            advisor_relations: m.advisor_relations.push(EdgeRow { advisor, advisee }),
            ..m
        }
    }
}

/// Keys are unique: no two rows of a table share their natural key. This
/// holds of the empty store and every insert preserves it, so duplicate
/// rows never arise however often a visit is repeated.
pub open spec fn wf_m(m: StoreModel) -> bool {
    &&& forall|i: int, j: int|
        0 <= i < j < m.nodes.len() ==> m.nodes[i].id != m.nodes[j].id
    &&& forall|i: int, j: int|
        0 <= i < j < m.schools.len() ==> m.schools[i] != m.schools[j]
    &&& forall|i: int, j: int|
        0 <= i < j < m.countries.len() ==> m.countries[i] != m.countries[j]
    &&& forall|i: int, j: int|
        0 <= i < j < m.school_locations.len() ==> m.school_locations[i].school
            != m.school_locations[j].school
    &&& forall|i: int, j: int|
        0 <= i < j < m.dissertations.len() ==> m.dissertations[i] != m.dissertations[j]
    &&& forall|i: int, j: int|
        0 <= i < j < m.graduation_records.len() ==> m.graduation_records[i].node
            != m.graduation_records[j].node
    &&& forall|i: int, j: int|
        0 <= i < j < m.advisor_relations.len() ==> m.advisor_relations[i]
            != m.advisor_relations[j]
}

/// One conflict-skip insert, the unit a transaction is made of.
#[derive(Debug, PartialEq, Eq, Hash, Clone)]
pub enum InsertOp {
    Node(Id, String),
    School(String),
    Country(String),
    SchoolLocation(String, String),
    Dissertation(String, Id),
    Graduation(Id, String, i32),
    Edge(Id, Id),
}

/// What one insert does to the store.
pub open spec fn apply_op_m(m: StoreModel, op: InsertOp) -> StoreModel {
    match op {
        InsertOp::Node(id, name) => insert_node_m(m, id.0 as int, name@),
        InsertOp::School(name) => insert_school_m(m, name@),
        InsertOp::Country(name) => insert_country_m(m, name@),
        InsertOp::SchoolLocation(school, country) => insert_location_m(m, school@, country@),
        InsertOp::Dissertation(title, author) => insert_dissertation_m(m, title@, author.0 as int),
        InsertOp::Graduation(node, school, year) => insert_graduation_m(
            m,
            node.0 as int,
            school@,
            year as int,
        ),
        InsertOp::Edge(advisor, advisee) => insert_edge_m(m, advisor.0 as int, advisee.0 as int),
    }
}

/// What a sequence of inserts, applied in order, does to the store.
pub open spec fn apply_ops_m(m: StoreModel, ops: Seq<InsertOp>) -> StoreModel
    decreases ops.len(),
{
    if ops.len() == 0 {
        m
    } else {
        apply_ops_m(apply_op_m(m, ops[0]), ops.drop_first())
    }
}

/// The inserts one student stub contributes to a visit: a node row and an
/// edge, and nothing when the stub carries no identifier.
pub open spec fn student_ops_m(advisor: Id, s: Student) -> Seq<InsertOp> {
    match s.id {
        Some(sid) => seq![InsertOp::Node(sid, s.name), InsertOp::Edge(advisor, sid)],
        None => Seq::<InsertOp>::empty(),
    }
}

/// The inserts the student list contributes, in document order.
pub open spec fn students_plan_m(advisor: Id, students: Seq<Student>) -> Seq<InsertOp>
    decreases students.len(),
{
    if students.len() == 0 {
        Seq::<InsertOp>::empty()
    } else {
        student_ops_m(advisor, students[0]) + students_plan_m(advisor, students.drop_first())
    }
}

/// The inserts a visit performs for the visited node itself: the node row,
/// then each optional attribute that the record carries.
pub open spec fn head_plan_m(id: Id, r: ScrapeRecord) -> Seq<InsertOp> {
    seq![InsertOp::Node(id, r.name)] + (match r.country {
        Some(c) => seq![InsertOp::Country(c)],
        None => Seq::<InsertOp>::empty(),
    }) + (match r.dissertation {
        Some(d) => seq![InsertOp::Dissertation(d, id)],
        None => Seq::<InsertOp>::empty(),
    }) + (match r.school {
        Some(s) => seq![InsertOp::School(s)] + (match r.country {
            Some(c) => seq![InsertOp::SchoolLocation(s, c)],
            None => Seq::<InsertOp>::empty(),
        }),
        None => Seq::<InsertOp>::empty(),
    }) + (match (r.school, r.year) {
        (Some(s), Some(y)) => seq![InsertOp::School(s), InsertOp::Graduation(id, s, y as i32)],
        _ => Seq::<InsertOp>::empty(),
    })
}

/// Every insert of a visit, in the order the ingestion performs them.
pub open spec fn plan_m(id: Id, r: ScrapeRecord) -> Seq<InsertOp> {
    head_plan_m(id, r) + students_plan_m(id, r.students@)
}

/// The store after ingesting a record for a node: all inserts of the visit
/// applied in order, each skipping silently when its key is already there.
pub open spec fn ingest_m(m: StoreModel, id: Id, r: ScrapeRecord) -> StoreModel {
    apply_ops_m(m, plan_m(id, r))
}

/// One insert keeps keys unique: it only pushes a row whose key no
/// existing row carries.
pub proof fn lemma_apply_op_wf(m: StoreModel, op: InsertOp)
    requires
        wf_m(m),
    ensures
        wf_m(apply_op_m(m, op)),
{
    match op {
        InsertOp::Node(id, name) => {
            if !has_node(m, id.0 as int) {
                assert(forall|i: int|
                    0 <= i < m.nodes.len() ==> m.nodes[i].id != id.0 as int);
            }
        },
        InsertOp::School(name) => {
            if !has_school(m, name@) {
                assert(forall|i: int| 0 <= i < m.schools.len() ==> m.schools[i] != name@);
            }
        },
        InsertOp::Country(name) => {
            if !has_country(m, name@) {
                assert(forall|i: int| 0 <= i < m.countries.len() ==> m.countries[i] != name@);
            }
        },
        InsertOp::SchoolLocation(school, country) => {
            if !has_location(m, school@) {
                assert(forall|i: int|
                    0 <= i < m.school_locations.len() ==> m.school_locations[i].school
                        != school@);
            }
        },
        InsertOp::Dissertation(title, author) => {
            if !has_dissertation(m, title@, author.0 as int) {
                assert(forall|i: int|
                    0 <= i < m.dissertations.len() ==> m.dissertations[i] != (DissertationRow {
                        title: title@,
                        author: author.0 as int,
                    }));
            }
        },
        InsertOp::Graduation(node, school, year) => {
            if !has_graduation(m, node.0 as int) {
                assert(forall|i: int|
                    0 <= i < m.graduation_records.len() ==> m.graduation_records[i].node
                        != node.0 as int);
            }
        },
        InsertOp::Edge(advisor, advisee) => {
            if !has_edge(m, advisor.0 as int, advisee.0 as int) {
                assert(forall|i: int|
                    0 <= i < m.advisor_relations.len() ==> m.advisor_relations[i] != (EdgeRow {
                        advisor: advisor.0 as int,
                        advisee: advisee.0 as int,
                    }));
            }
        },
    }
}

/// A sequence of inserts keeps keys unique.
pub proof fn lemma_apply_ops_wf(m: StoreModel, ops: Seq<InsertOp>)
    requires
        wf_m(m),
    ensures
        wf_m(apply_ops_m(m, ops)),
    decreases ops.len(),
{
    if ops.len() > 0 {
        lemma_apply_op_wf(m, ops[0]);
        lemma_apply_ops_wf(apply_op_m(m, ops[0]), ops.drop_first());
    }
}

/// Ingestion keeps keys unique, however often it runs.
pub proof fn lemma_ingest_wf(m: StoreModel, id: Id, r: ScrapeRecord)
    requires
        wf_m(m),
    ensures
        wf_m(ingest_m(m, id, r)),
{
    lemma_apply_ops_wf(m, plan_m(id, r));
}

/// Every table of the later store begins with the earlier store's rows:
/// ingestion is append-only, nothing is updated or deleted.
pub open spec fn extends_m(m1: StoreModel, m2: StoreModel) -> bool {
    &&& m1.nodes.len() <= m2.nodes.len() && (forall|i: int|
        0 <= i < m1.nodes.len() ==> m2.nodes[i] == m1.nodes[i])
    &&& m1.schools.len() <= m2.schools.len() && (forall|i: int|
        0 <= i < m1.schools.len() ==> m2.schools[i] == m1.schools[i])
    &&& m1.countries.len() <= m2.countries.len() && (forall|i: int|
        0 <= i < m1.countries.len() ==> m2.countries[i] == m1.countries[i])
    &&& m1.school_locations.len() <= m2.school_locations.len() && (forall|i: int|
        0 <= i < m1.school_locations.len() ==> m2.school_locations[i] == m1.school_locations[i])
    &&& m1.dissertations.len() <= m2.dissertations.len() && (forall|i: int|
        0 <= i < m1.dissertations.len() ==> m2.dissertations[i] == m1.dissertations[i])
    &&& m1.graduation_records.len() <= m2.graduation_records.len() && (forall|i: int|
        0 <= i < m1.graduation_records.len() ==> m2.graduation_records[i]
            == m1.graduation_records[i])
    &&& m1.advisor_relations.len() <= m2.advisor_relations.len() && (forall|i: int|
        0 <= i < m1.advisor_relations.len() ==> m2.advisor_relations[i]
            == m1.advisor_relations[i])
}

/// One insert only appends.
pub proof fn lemma_apply_op_extends(m: StoreModel, op: InsertOp)
    ensures
        extends_m(m, apply_op_m(m, op)),
{
}

/// A sequence of inserts only appends.
pub proof fn lemma_apply_ops_extends(m: StoreModel, ops: Seq<InsertOp>)
    ensures
        extends_m(m, apply_ops_m(m, ops)),
    decreases ops.len(),
{
    if ops.len() > 0 {
        lemma_apply_op_extends(m, ops[0]);
        lemma_apply_ops_extends(apply_op_m(m, ops[0]), ops.drop_first());
    }
}

/// A row that is present stays present under any further inserts.
pub proof fn lemma_extends_preserves_has(m1: StoreModel, m2: StoreModel)
    requires
        extends_m(m1, m2),
    ensures
        forall|id: int| #[trigger] has_node(m1, id) ==> has_node(m2, id),
        forall|n: Seq<char>| #[trigger] has_school(m1, n) ==> has_school(m2, n),
        forall|n: Seq<char>| #[trigger] has_country(m1, n) ==> has_country(m2, n),
        forall|sc: Seq<char>| #[trigger] has_location(m1, sc) ==> has_location(m2, sc),
        forall|t: Seq<char>, a: int| #[trigger] has_dissertation(m1, t, a) ==> has_dissertation(
            m2,
            t,
            a,
        ),
        forall|nd: int| #[trigger] has_graduation(m1, nd) ==> has_graduation(m2, nd),
        forall|a: int, b: int| #[trigger] has_edge(m1, a, b) ==> has_edge(m2, a, b),
{
    assert forall|id: int| #[trigger] has_node(m1, id) implies has_node(m2, id) by {
        let i = choose|i: int| 0 <= i < m1.nodes.len() && m1.nodes[i].id == id;
        assert(m2.nodes[i] == m1.nodes[i]);
    }
    assert forall|n: Seq<char>| #[trigger] has_school(m1, n) implies has_school(m2, n) by {
        let i = choose|i: int| 0 <= i < m1.schools.len() && m1.schools[i] == n;
        assert(m2.schools[i] == m1.schools[i]);
    }
    assert forall|n: Seq<char>| #[trigger] has_country(m1, n) implies has_country(m2, n) by {
        let i = choose|i: int| 0 <= i < m1.countries.len() && m1.countries[i] == n;
        assert(m2.countries[i] == m1.countries[i]);
    }
    assert forall|sc: Seq<char>| #[trigger] has_location(m1, sc) implies has_location(m2, sc) by {
        let i = choose|i: int|
            0 <= i < m1.school_locations.len() && m1.school_locations[i].school == sc;
        assert(m2.school_locations[i] == m1.school_locations[i]);
    }
    assert forall|t: Seq<char>, a: int| #[trigger] has_dissertation(m1, t, a) implies
        has_dissertation(m2, t, a) by {
        let i = choose|i: int|
            0 <= i < m1.dissertations.len() && m1.dissertations[i] == (DissertationRow {
                title: t,
                author: a,
            });
        assert(m2.dissertations[i] == m1.dissertations[i]);
    }
    assert forall|nd: int| #[trigger] has_graduation(m1, nd) implies has_graduation(m2, nd) by {
        let i = choose|i: int|
            0 <= i < m1.graduation_records.len() && m1.graduation_records[i].node == nd;
        assert(m2.graduation_records[i] == m1.graduation_records[i]);
    }
    assert forall|a: int, b: int| #[trigger] has_edge(m1, a, b) implies has_edge(m2, a, b) by {
        let i = choose|i: int|
            0 <= i < m1.advisor_relations.len() && m1.advisor_relations[i] == (EdgeRow {
                advisor: a,
                advisee: b,
            });
        assert(m2.advisor_relations[i] == m1.advisor_relations[i]);
    }
}

/// Applying a concatenation is applying the parts in turn.
pub proof fn lemma_apply_ops_append(m: StoreModel, a: Seq<InsertOp>, b: Seq<InsertOp>)
    ensures
        apply_ops_m(m, a + b) == apply_ops_m(apply_ops_m(m, a), b),
    decreases a.len(),
{
    if a.len() == 0 {
        assert(a + b =~= b);
    } else {
        assert((a + b)[0] == a[0]);
        assert((a + b).drop_first() =~= a.drop_first() + b);
        lemma_apply_ops_append(apply_op_m(m, a[0]), a.drop_first(), b);
    }
}

/// After applying one-element and two-element op sequences.
proof fn lemma_apply_one(m: StoreModel, op: InsertOp)
    ensures
        apply_ops_m(m, seq![op]) == apply_op_m(m, op),
{
    let ops = seq![op];
    assert(ops.len() == 1);
    assert(ops[0] == op);
    assert(ops.drop_first() =~= Seq::<InsertOp>::empty());
    assert(apply_ops_m(m, ops) == apply_ops_m(apply_op_m(m, op), ops.drop_first()));
    assert(apply_ops_m(apply_op_m(m, op), Seq::<InsertOp>::empty()) == apply_op_m(m, op));
}

proof fn lemma_apply_two(m: StoreModel, op1: InsertOp, op2: InsertOp)
    ensures
        apply_ops_m(m, seq![op1, op2]) == apply_op_m(apply_op_m(m, op1), op2),
{
    let ops = seq![op1, op2];
    assert(ops.len() == 2);
    assert(ops[0] == op1);
    assert(ops.drop_first() =~= seq![op2]);
    assert(apply_ops_m(m, ops) == apply_ops_m(apply_op_m(m, op1), ops.drop_first()));
    lemma_apply_one(apply_op_m(m, op1), op2);
}

proof fn lemma_node_est(m: StoreModel, id: int, name: Seq<char>)
    ensures
        has_node(insert_node_m(m, id, name), id),
{
    if !has_node(m, id) {
        assert(insert_node_m(m, id, name).nodes[m.nodes.len() as int].id == id);
    }
}

proof fn lemma_school_est(m: StoreModel, name: Seq<char>)
    ensures
        has_school(insert_school_m(m, name), name),
{
    if !has_school(m, name) {
        assert(insert_school_m(m, name).schools[m.schools.len() as int] == name);
    }
}

proof fn lemma_country_est(m: StoreModel, name: Seq<char>)
    ensures
        has_country(insert_country_m(m, name), name),
{
    if !has_country(m, name) {
        assert(insert_country_m(m, name).countries[m.countries.len() as int] == name);
    }
}

proof fn lemma_location_est(m: StoreModel, school: Seq<char>, country: Seq<char>)
    ensures
        has_location(insert_location_m(m, school, country), school),
{
    if !has_location(m, school) {
        assert(insert_location_m(m, school, country).school_locations[m.school_locations.len() as int].school
            == school);
    }
}

proof fn lemma_dissertation_est(m: StoreModel, title: Seq<char>, author: int)
    ensures
        has_dissertation(insert_dissertation_m(m, title, author), title, author),
{
    if !has_dissertation(m, title, author) {
        assert(insert_dissertation_m(m, title, author).dissertations[m.dissertations.len() as int]
            == (DissertationRow { title, author }));
    }
}

proof fn lemma_graduation_est(m: StoreModel, node: int, school: Seq<char>, year: int)
    ensures
        has_graduation(insert_graduation_m(m, node, school, year), node),
{
    if !has_graduation(m, node) {
        assert(insert_graduation_m(m, node, school, year).graduation_records[m.graduation_records.len() as int].node
            == node);
    }
}

proof fn lemma_edge_est(m: StoreModel, advisor: int, advisee: int)
    ensures
        has_edge(insert_edge_m(m, advisor, advisee), advisor, advisee),
{
    if !has_edge(m, advisor, advisee) {
        assert(insert_edge_m(m, advisor, advisee).advisor_relations[m.advisor_relations.len() as int]
            == (EdgeRow { advisor, advisee }));
    }
}

/// A student stub was recorded for its advisor: its node row and the
/// advisor edge are present, provided the stub carried an identifier.
pub open spec fn student_recorded(m: StoreModel, advisor: Id, s: Student) -> bool {
    s.id matches Some(sid) ==> has_node(m, sid.0 as int) && has_edge(
        m,
        advisor.0 as int,
        sid.0 as int,
    )
}

/// Every key that a visit's plan inserts is present in the store.
pub open spec fn plan_keys_present(m: StoreModel, id: Id, r: ScrapeRecord) -> bool {
    &&& has_node(m, id.0 as int)
    &&& (r.country matches Some(c) ==> has_country(m, c@))
    &&& (r.dissertation matches Some(d) ==> has_dissertation(m, d@, id.0 as int))
    &&& (r.school matches Some(sch) ==> has_school(m, sch@) && (r.country is Some
        ==> has_location(m, sch@)) && (r.year is Some ==> has_graduation(m, id.0 as int)))
    &&& (forall|k: int|
        0 <= k < r.students@.len() ==> #[trigger] student_recorded(m, id, r.students@[k]))
}

/// The student inserts record every identified student, and only append.
proof fn lemma_students_establish(m: StoreModel, advisor: Id, ss: Seq<Student>)
    ensures
        extends_m(m, apply_ops_m(m, students_plan_m(advisor, ss))),
        forall|k: int|
            0 <= k < ss.len() ==> #[trigger] student_recorded(
                apply_ops_m(m, students_plan_m(advisor, ss)),
                advisor,
                ss[k],
            ),
    decreases ss.len(),
{
    let plan = students_plan_m(advisor, ss);
    let mfin = apply_ops_m(m, plan);
    lemma_apply_ops_extends(m, plan);
    if ss.len() > 0 {
        let ops0 = student_ops_m(advisor, ss[0]);
        let rest = students_plan_m(advisor, ss.drop_first());
        lemma_apply_ops_append(m, ops0, rest);
        let m1 = apply_ops_m(m, ops0);
        match ss[0].id {
            Some(sid) => {
                lemma_apply_two(m, InsertOp::Node(sid, ss[0].name), InsertOp::Edge(advisor, sid));
                let ma = insert_node_m(m, sid.0 as int, ss[0].name@);
                lemma_node_est(m, sid.0 as int, ss[0].name@);
                lemma_edge_est(ma, advisor.0 as int, sid.0 as int);
                lemma_apply_op_extends(ma, InsertOp::Edge(advisor, sid));
                lemma_extends_preserves_has(ma, m1);
                assert(student_recorded(m1, advisor, ss[0]));
            },
            None => {
                assert(student_recorded(m1, advisor, ss[0]));
            },
        }
        lemma_students_establish(m1, advisor, ss.drop_first());
        lemma_apply_ops_extends(m1, rest);
        lemma_extends_preserves_has(m1, mfin);
        assert(student_recorded(mfin, advisor, ss[0]));
        assert forall|k: int| 0 <= k < ss.len() implies #[trigger] student_recorded(
            mfin,
            advisor,
            ss[k],
        ) by {
            if k >= 1 {
                assert(ss.drop_first()[k - 1] == ss[k]);
                assert(student_recorded(mfin, advisor, ss.drop_first()[k - 1]));
            }
        }
    }
}

/// When every identified student is already recorded, the student inserts
/// change nothing.
proof fn lemma_students_skip(m: StoreModel, advisor: Id, ss: Seq<Student>)
    requires
        forall|k: int| 0 <= k < ss.len() ==> #[trigger] student_recorded(m, advisor, ss[k]),
    ensures
        apply_ops_m(m, students_plan_m(advisor, ss)) == m,
    decreases ss.len(),
{
    if ss.len() > 0 {
        let ops0 = student_ops_m(advisor, ss[0]);
        let rest = students_plan_m(advisor, ss.drop_first());
        lemma_apply_ops_append(m, ops0, rest);
        match ss[0].id {
            Some(sid) => {
                assert(student_recorded(m, advisor, ss[0]));
                lemma_apply_two(m, InsertOp::Node(sid, ss[0].name), InsertOp::Edge(advisor, sid));
            },
            None => {},
        }
        assert(apply_ops_m(m, ops0) == m);
        assert forall|k: int| 0 <= k < ss.drop_first().len() implies #[trigger] student_recorded(
            m,
            advisor,
            ss.drop_first()[k],
        ) by {
            assert(ss.drop_first()[k] == ss[k + 1]);
            assert(student_recorded(m, advisor, ss[k + 1]));
        }
        lemma_students_skip(m, advisor, ss.drop_first());
    }
}

/// The head of the plan, applied, records the node and each attribute.
proof fn lemma_head_establishes(m: StoreModel, id: Id, r: ScrapeRecord)
    ensures
        extends_m(m, apply_ops_m(m, head_plan_m(id, r))),
        has_node(apply_ops_m(m, head_plan_m(id, r)), id.0 as int),
        r.country matches Some(c) ==> has_country(apply_ops_m(m, head_plan_m(id, r)), c@),
        r.dissertation matches Some(d) ==> has_dissertation(
            apply_ops_m(m, head_plan_m(id, r)),
            d@,
            id.0 as int,
        ),
        r.school matches Some(sch) ==> has_school(apply_ops_m(m, head_plan_m(id, r)), sch@) && (
        r.country is Some ==> has_location(apply_ops_m(m, head_plan_m(id, r)), sch@)) && (
        r.year is Some ==> has_graduation(apply_ops_m(m, head_plan_m(id, r)), id.0 as int)),
{
    let g1 = seq![InsertOp::Node(id, r.name)];
    let g2 = match r.country {
        Some(c) => seq![InsertOp::Country(c)],
        None => Seq::<InsertOp>::empty(),
    };
    let g3 = match r.dissertation {
        Some(d) => seq![InsertOp::Dissertation(d, id)],
        None => Seq::<InsertOp>::empty(),
    };
    let g4 = match r.school {
        Some(sch) => seq![InsertOp::School(sch)] + (match r.country {
            Some(c) => seq![InsertOp::SchoolLocation(sch, c)],
            None => Seq::<InsertOp>::empty(),
        }),
        None => Seq::<InsertOp>::empty(),
    };
    let g5 = match (r.school, r.year) {
        (Some(sch), Some(y)) => seq![InsertOp::School(sch), InsertOp::Graduation(id, sch, y as i32)],
        _ => Seq::<InsertOp>::empty(),
    };
    assert(head_plan_m(id, r) == g1 + g2 + g3 + g4 + g5);
    let m1 = apply_ops_m(m, g1);
    let m2 = apply_ops_m(m1, g2);
    let m3 = apply_ops_m(m2, g3);
    let m4 = apply_ops_m(m3, g4);
    let m5 = apply_ops_m(m4, g5);
    lemma_apply_ops_append(m, g1, g2);
    lemma_apply_ops_append(m, g1 + g2, g3);
    lemma_apply_ops_append(m, g1 + g2 + g3, g4);
    lemma_apply_ops_append(m, g1 + g2 + g3 + g4, g5);
    assert(apply_ops_m(m, head_plan_m(id, r)) == m5);

    lemma_apply_one(m, InsertOp::Node(id, r.name));
    lemma_node_est(m, id.0 as int, r.name@);
    lemma_apply_ops_extends(m1, g2);
    lemma_extends_preserves_has(m1, m2);
    match r.country {
        Some(c) => {
            lemma_apply_one(m1, InsertOp::Country(c));
            lemma_country_est(m1, c@);
        },
        None => {},
    }
    lemma_apply_ops_extends(m2, g3);
    lemma_extends_preserves_has(m2, m3);
    match r.dissertation {
        Some(d) => {
            lemma_apply_one(m2, InsertOp::Dissertation(d, id));
            lemma_dissertation_est(m2, d@, id.0 as int);
        },
        None => {},
    }
    lemma_apply_ops_extends(m3, g4);
    lemma_extends_preserves_has(m3, m4);
    match r.school {
        Some(sch) => {
            let ma = insert_school_m(m3, sch@);
            lemma_school_est(m3, sch@);
            match r.country {
                Some(c) => {
                    lemma_apply_ops_append(m3, seq![InsertOp::School(sch)], seq![InsertOp::SchoolLocation(sch, c)]);
                    lemma_apply_one(m3, InsertOp::School(sch));
                    lemma_apply_one(ma, InsertOp::SchoolLocation(sch, c));
                    lemma_location_est(ma, sch@, c@);
                    lemma_apply_op_extends(ma, InsertOp::SchoolLocation(sch, c));
                    lemma_extends_preserves_has(ma, m4);
                },
                None => {
                    assert(g4 =~= seq![InsertOp::School(sch)]);
                    lemma_apply_one(m3, InsertOp::School(sch));
                },
            }
        },
        None => {},
    }
    lemma_apply_ops_extends(m4, g5);
    lemma_extends_preserves_has(m4, m5);
    match (r.school, r.year) {
        (Some(sch), Some(y)) => {
            lemma_apply_two(m4, InsertOp::School(sch), InsertOp::Graduation(id, sch, y as i32));
            let mb = insert_school_m(m4, sch@);
            lemma_school_est(m4, sch@);
            lemma_graduation_est(mb, id.0 as int, sch@, y as int);
            lemma_apply_op_extends(m4, InsertOp::School(sch));
            lemma_extends_preserves_has(m4, mb);
        },
        _ => {},
    }
}

/// When every key of the head is already present, the head changes nothing.
proof fn lemma_head_skips(m: StoreModel, id: Id, r: ScrapeRecord)
    requires
        has_node(m, id.0 as int),
        r.country matches Some(c) ==> has_country(m, c@),
        r.dissertation matches Some(d) ==> has_dissertation(m, d@, id.0 as int),
        r.school matches Some(sch) ==> has_school(m, sch@) && (r.country is Some ==> has_location(
            m,
            sch@,
        )) && (r.year is Some ==> has_graduation(m, id.0 as int)),
    ensures
        apply_ops_m(m, head_plan_m(id, r)) == m,
{
    let g1 = seq![InsertOp::Node(id, r.name)];
    let g2 = match r.country {
        Some(c) => seq![InsertOp::Country(c)],
        None => Seq::<InsertOp>::empty(),
    };
    let g3 = match r.dissertation {
        Some(d) => seq![InsertOp::Dissertation(d, id)],
        None => Seq::<InsertOp>::empty(),
    };
    let g4 = match r.school {
        Some(sch) => seq![InsertOp::School(sch)] + (match r.country {
            Some(c) => seq![InsertOp::SchoolLocation(sch, c)],
            None => Seq::<InsertOp>::empty(),
        }),
        None => Seq::<InsertOp>::empty(),
    };
    let g5 = match (r.school, r.year) {
        (Some(sch), Some(y)) => seq![InsertOp::School(sch), InsertOp::Graduation(id, sch, y as i32)],
        _ => Seq::<InsertOp>::empty(),
    };
    assert(head_plan_m(id, r) == g1 + g2 + g3 + g4 + g5);
    lemma_apply_ops_append(m, g1, g2);
    lemma_apply_ops_append(m, g1 + g2, g3);
    lemma_apply_ops_append(m, g1 + g2 + g3, g4);
    lemma_apply_ops_append(m, g1 + g2 + g3 + g4, g5);
    lemma_apply_one(m, InsertOp::Node(id, r.name));
    match r.country {
        Some(c) => {
            lemma_apply_one(m, InsertOp::Country(c));
        },
        None => {},
    }
    match r.dissertation {
        Some(d) => {
            lemma_apply_one(m, InsertOp::Dissertation(d, id));
        },
        None => {},
    }
    match r.school {
        Some(sch) => {
            match r.country {
                Some(c) => {
                    lemma_apply_ops_append(m, seq![InsertOp::School(sch)], seq![InsertOp::SchoolLocation(sch, c)]);
                    lemma_apply_one(m, InsertOp::School(sch));
                    lemma_apply_one(m, InsertOp::SchoolLocation(sch, c));
                },
                None => {
                    assert(g4 =~= seq![InsertOp::School(sch)]);
                    lemma_apply_one(m, InsertOp::School(sch));
                },
            }
        },
        None => {},
    }
    match (r.school, r.year) {
        (Some(sch), Some(y)) => {
            lemma_apply_two(m, InsertOp::School(sch), InsertOp::Graduation(id, sch, y as i32));
        },
        _ => {},
    }
}

/// Ingesting a record records the node, each attribute the record carries,
/// and every identified student with its edge; and it only appends.
pub proof fn lemma_ingest_establishes(m: StoreModel, id: Id, r: ScrapeRecord)
    ensures
        extends_m(m, ingest_m(m, id, r)),
        plan_keys_present(ingest_m(m, id, r), id, r),
{
    let mh = apply_ops_m(m, head_plan_m(id, r));
    let mfin = ingest_m(m, id, r);
    lemma_apply_ops_append(m, head_plan_m(id, r), students_plan_m(id, r.students@));
    lemma_head_establishes(m, id, r);
    lemma_students_establish(mh, id, r.students@);
    lemma_apply_ops_extends(mh, students_plan_m(id, r.students@));
    lemma_extends_preserves_has(mh, mfin);
}

/// Ingesting a record whose keys are all present changes nothing.
pub proof fn lemma_ingest_skips(m: StoreModel, id: Id, r: ScrapeRecord)
    requires
        plan_keys_present(m, id, r),
    ensures
        ingest_m(m, id, r) == m,
{
    lemma_apply_ops_append(m, head_plan_m(id, r), students_plan_m(id, r.students@));
    lemma_head_skips(m, id, r);
    lemma_students_skip(m, id, r.students@);
}

/// Ingesting the same record for the same identifier twice produces the
/// same store as ingesting it once: a re-run inserts nothing new.
pub proof fn lemma_ingest_idempotent(m: StoreModel, id: Id, r: ScrapeRecord)
    ensures
        ingest_m(ingest_m(m, id, r), id, r) == ingest_m(m, id, r),
{
    lemma_ingest_establishes(m, id, r);
    lemma_ingest_skips(ingest_m(m, id, r), id, r);
}

/// In a well-formed store a key selects at most one row, so a node is
/// stored at most once, a node's graduation at most once, a dissertation
/// at most once, and a directed edge at most once.
pub proof fn lemma_wf_unique_rows(m: StoreModel)
    requires
        wf_m(m),
    ensures
        forall|i: int, j: int|
            (0 <= i < m.nodes.len() && 0 <= j < m.nodes.len() && #[trigger] m.nodes[i].id
                == #[trigger] m.nodes[j].id) ==> i == j,
        forall|i: int, j: int|
            (0 <= i < m.dissertations.len() && 0 <= j < m.dissertations.len()
                && #[trigger] m.dissertations[i] == #[trigger] m.dissertations[j]) ==> i == j,
        forall|i: int, j: int|
            (0 <= i < m.graduation_records.len() && 0 <= j < m.graduation_records.len()
                && #[trigger] m.graduation_records[i].node == #[trigger] m.graduation_records[j].node)
                ==> i == j,
        forall|i: int, j: int|
            (0 <= i < m.advisor_relations.len() && 0 <= j < m.advisor_relations.len()
                && #[trigger] m.advisor_relations[i] == #[trigger] m.advisor_relations[j]) ==> i
                == j,
{
}

/// The store holds exactly one node row with this identifier.
pub open spec fn exactly_one_node(m: StoreModel, id: int) -> bool {
    exists|i: int|
        0 <= i < m.nodes.len() && m.nodes[i].id == id && (forall|j: int|
            0 <= j < m.nodes.len() && #[trigger] m.nodes[j].id == id ==> j == i)
}

/// The store holds exactly one advisor-relation row for this pair.
pub open spec fn exactly_one_edge(m: StoreModel, advisor: int, advisee: int) -> bool {
    exists|i: int|
        0 <= i < m.advisor_relations.len() && m.advisor_relations[i] == (EdgeRow {
            advisor,
            advisee,
        }) && (forall|j: int|
            0 <= j < m.advisor_relations.len() && #[trigger] m.advisor_relations[j] == (EdgeRow {
                advisor,
                advisee,
            }) ==> j == i)
}

/// Ingesting a record into a well-formed store leaves exactly one node
/// row for the visited identifier, however many times it runs.
pub proof fn lemma_node_unique(m: StoreModel, id: Id, r: ScrapeRecord)
    requires
        wf_m(m),
    ensures
        wf_m(ingest_m(m, id, r)),
        exactly_one_node(ingest_m(m, id, r), id.0 as int),
{
    let m2 = ingest_m(m, id, r);
    lemma_ingest_wf(m, id, r);
    lemma_ingest_establishes(m, id, r);
    let i = choose|i: int| 0 <= i < m2.nodes.len() && m2.nodes[i].id == id.0 as int;
    lemma_wf_unique_rows(m2);
    assert(m2.nodes[i].id == id.0 as int);
    assert(forall|j: int| 0 <= j < m2.nodes.len() && #[trigger] m2.nodes[j].id == id.0 as int ==> j == i);
}

/// Inserting the same edge through ingestion, any number of times, yields
/// exactly one advisor-relation row for the (advisor, advisee) pair.
pub proof fn lemma_edge_unique(m: StoreModel, id: Id, r: ScrapeRecord, k: int)
    requires
        wf_m(m),
        0 <= k < r.students@.len(),
        r.students@[k].id is Some,
    ensures
        wf_m(ingest_m(m, id, r)),
        exactly_one_edge(
            ingest_m(m, id, r),
            id.0 as int,
            (r.students@[k].id->0).0 as int,
        ),
{
    let sid = r.students@[k].id->0;
    let m2 = ingest_m(m, id, r);
    lemma_ingest_wf(m, id, r);
    lemma_ingest_establishes(m, id, r);
    assert(student_recorded(m2, id, r.students@[k]));
    assert(has_edge(m2, id.0 as int, sid.0 as int));
    let i = choose|i: int|
        0 <= i < m2.advisor_relations.len() && m2.advisor_relations[i] == (EdgeRow {
            advisor: id.0 as int,
            advisee: sid.0 as int,
        });
    lemma_wf_unique_rows(m2);
    assert(m2.advisor_relations[i] == (EdgeRow { advisor: id.0 as int, advisee: sid.0 as int }));
    assert(forall|j: int|
        0 <= j < m2.advisor_relations.len() && #[trigger] m2.advisor_relations[j] == (EdgeRow {
            advisor: id.0 as int,
            advisee: sid.0 as int,
        }) ==> j == i);
}

/// The durable store: one table per entity of the schema.
pub struct Store {
    nodes: Vec<Mathematician>,
    schools: Vec<School>,
    countries: Vec<Country>,
    school_locations: Vec<SchoolLocation>,
    dissertations: Vec<Dissertation>,
    graduation_records: Vec<GraduationRecord>,
    advisor_relations: Vec<AdvisorRelation>,
}

impl View for Store {
    type V = StoreModel;

    closed spec fn view(&self) -> StoreModel {
        StoreModel {
            nodes: self.nodes@.map_values(
                |m: Mathematician| NodeRow { id: m.id.0 as int, name: m.name@ },
            ),
            schools: self.schools@.map_values(|s: School| s.name@),
            countries: self.countries@.map_values(|c: Country| c.name@),
            school_locations: self.school_locations@.map_values(
                |l: SchoolLocation| LocationRow { school: l.school.name@, country: l.country.name@ },
            ),
            dissertations: self.dissertations@.map_values(
                |d: Dissertation| DissertationRow { title: d.title@, author: d.author.id.0 as int },
            ),
            graduation_records: self.graduation_records@.map_values(
                |g: GraduationRecord| GraduationRow {
                    node: g.mathematician.id.0 as int,
                    school: g.school.name@,
                    year: g.year as int,
                },
            ),
            advisor_relations: self.advisor_relations@.map_values(
                |e: AdvisorRelation| EdgeRow { advisor: e.advisor.0 as int, advisee: e.advisee.0 as int },
            ),
        }
    }
}

/// A pending visit's inserts, invisible to readers until committed.
pub struct Transaction {
    ops: Vec<InsertOp>,
}

impl View for Transaction {
    type V = Seq<InsertOp>;

    closed spec fn view(&self) -> Seq<InsertOp> {
        self.ops@
    }
}

impl Transaction {
    /// Record a node insert: identifier and display name.
    pub fn insert_mathematician(&mut self, id: Id, name: &String)
        ensures
            final(self)@ == old(self)@.push(InsertOp::Node(id, *name)),
    {
        self.ops.push(InsertOp::Node(id, name.clone()));
    }

    /// Record a school insert.
    pub fn insert_school(&mut self, school: &School)
        ensures
            final(self)@ == old(self)@.push(InsertOp::School(school.name)),
    {
        self.ops.push(InsertOp::School(school.name.clone()));
    }

    /// Record a country insert.
    pub fn insert_country(&mut self, country: &Country)
        ensures
            final(self)@ == old(self)@.push(InsertOp::Country(country.name)),
    {
        self.ops.push(InsertOp::Country(country.name.clone()));
    }

    /// Record a school-location insert.
    pub fn insert_school_location(&mut self, school: &School, country: &Country)
        ensures
            final(self)@ == old(self)@.push(
                InsertOp::SchoolLocation(school.name, country.name),
            ),
    {
        self.ops.push(InsertOp::SchoolLocation(school.name.clone(), country.name.clone()));
    }

    /// Record a dissertation insert, keyed by title and author.
    pub fn insert_dissertation(&mut self, dissertation: &Dissertation)
        ensures
            final(self)@ == old(self)@.push(
                InsertOp::Dissertation(dissertation.title, dissertation.author.id),
            ),
    {
        self.ops.push(InsertOp::Dissertation(dissertation.title.clone(), dissertation.author.id));
    }

    /// Record a graduation insert; the school is inserted first so the
    /// record never references an absent school.
    pub fn insert_grad_record(&mut self, grad_record: &GraduationRecord)
        ensures
            final(self)@ == old(self)@.push(InsertOp::School(grad_record.school.name)).push(
                InsertOp::Graduation(
                    grad_record.mathematician.id,
                    grad_record.school.name,
                    grad_record.year,
                ),
            ),
    {
        self.ops.push(InsertOp::School(grad_record.school.name.clone()));
        self.ops.push(
            InsertOp::Graduation(
                grad_record.mathematician.id,
                grad_record.school.name.clone(),
                grad_record.year,
            ),
        );
    }

    /// Record an advisor-relation insert.
    pub fn insert_advisor_relation(&mut self, advisor: Id, advisee: Id)
        ensures
            final(self)@ == old(self)@.push(InsertOp::Edge(advisor, advisee)),
    {
        self.ops.push(InsertOp::Edge(advisor, advisee));
    }
}

impl Store {
    /// An empty store: every table empty.
    pub fn new() -> (s: Store)
        ensures
            s@.nodes == Seq::<NodeRow>::empty(),
            s@.schools == Seq::<Seq<char>>::empty(),
            s@.countries == Seq::<Seq<char>>::empty(),
            s@.school_locations == Seq::<LocationRow>::empty(),
            s@.dissertations == Seq::<DissertationRow>::empty(),
            s@.graduation_records == Seq::<GraduationRow>::empty(),
            s@.advisor_relations == Seq::<EdgeRow>::empty(),
            wf_m(s@),
    {
        let s = Store {
            nodes: Vec::new(),
            schools: Vec::new(),
            countries: Vec::new(),
            school_locations: Vec::new(),
            dissertations: Vec::new(),
            graduation_records: Vec::new(),
            advisor_relations: Vec::new(),
        };
        proof {
            assert(s@.nodes =~= Seq::<NodeRow>::empty());
            assert(s@.schools =~= Seq::<Seq<char>>::empty());
            assert(s@.countries =~= Seq::<Seq<char>>::empty());
            assert(s@.school_locations =~= Seq::<LocationRow>::empty());
            assert(s@.dissertations =~= Seq::<DissertationRow>::empty());
            assert(s@.graduation_records =~= Seq::<GraduationRow>::empty());
            assert(s@.advisor_relations =~= Seq::<EdgeRow>::empty());
        }
        s
    }

    /// Open a transaction: no inserts recorded yet.
    pub fn begin(&self) -> (t: Transaction)
        ensures
            t@ == Seq::<InsertOp>::empty(),
    {
        let t = Transaction { ops: Vec::new() };
        proof {
            assert(t@ =~= Seq::<InsertOp>::empty());
        }
        t
    }

    /// Discard a transaction. Nothing of it is, or ever was, observable:
    /// after a visit fails partway, the store is exactly what it was.
    pub fn rollback(&mut self, t: Transaction)
        ensures
            *final(self) == *old(self),
    {
        let _ = t;
    }

    /// Make a transaction's inserts durable, all at once and in order.
    pub fn commit(&mut self, t: Transaction)
        ensures
            final(self)@ == apply_ops_m(old(self)@, t@),
    {
        let ops = t.ops;
        let ghost total: StoreModel = apply_ops_m(self@, ops@);
        proof {
            assert(ops@.skip(0) =~= ops@);
        }
        let mut i: usize = 0;
        while i < ops.len()
            invariant
                0 <= i <= ops.len(),
                apply_ops_m(self@, ops@.skip(i as int)) == total,
            decreases ops.len() - i,
        {
            proof {
                let rest = ops@.skip(i as int);
                assert(rest[0] == ops@[i as int]);
                assert(rest.drop_first() =~= ops@.skip(i as int + 1));
            }
            self.apply_op(&ops[i]);
            i += 1;
        }
        proof {
            assert(ops@.skip(ops@.len() as int) =~= Seq::<InsertOp>::empty());
        }
    }

    /// Apply one conflict-skip insert to the tables.
    fn apply_op(&mut self, op: &InsertOp)
        ensures
            final(self)@ == apply_op_m(old(self)@, *op),
    {
        match op {
            InsertOp::Node(id, name) => self.apply_node(*id, name),
            InsertOp::School(name) => self.apply_school(name),
            InsertOp::Country(name) => self.apply_country(name),
            InsertOp::SchoolLocation(school, country) => self.apply_location(school, country),
            InsertOp::Dissertation(title, author) => self.apply_dissertation(title, *author),
            InsertOp::Graduation(node, school, year) => self.apply_graduation(*node, school, *year),
            InsertOp::Edge(advisor, advisee) => self.apply_edge(*advisor, *advisee),
        }
    }

    fn apply_node(&mut self, id: Id, name: &String)
        ensures
            final(self)@ == insert_node_m(old(self)@, id.0 as int, name@),
    {
        if !self.node_present(id) {
            self.nodes.push(Mathematician { id, name: name.clone() });
            proof {
                assert(final(self)@.nodes =~= old(self)@.nodes.push(
                    NodeRow { id: id.0 as int, name: name@ },
                ));
                assert(final(self)@ =~= insert_node_m(old(self)@, id.0 as int, name@));
            }
        }
    }

    fn apply_school(&mut self, name: &String)
        ensures
            final(self)@ == insert_school_m(old(self)@, name@),
    {
        if !self.school_present(name) {
            self.schools.push(School { name: name.clone() });
            proof {
                assert(final(self)@.schools =~= old(self)@.schools.push(name@));
                assert(final(self)@ =~= insert_school_m(old(self)@, name@));
            }
        }
    }

    fn apply_country(&mut self, name: &String)
        ensures
            final(self)@ == insert_country_m(old(self)@, name@),
    {
        if !self.country_present(name) {
            self.countries.push(Country { name: name.clone() });
            proof {
                assert(final(self)@.countries =~= old(self)@.countries.push(name@));
                assert(final(self)@ =~= insert_country_m(old(self)@, name@));
            }
        }
    }

    fn apply_location(&mut self, school: &String, country: &String)
        ensures
            final(self)@ == insert_location_m(old(self)@, school@, country@),
    {
        if !self.location_present(school) {
            self.school_locations.push(
                SchoolLocation {
                    school: School { name: school.clone() },
                    country: Country { name: country.clone() },
                },
            );
            proof {
                assert(final(self)@.school_locations =~= old(self)@.school_locations.push(
                    LocationRow { school: school@, country: country@ },
                ));
                assert(final(self)@ =~= insert_location_m(old(self)@, school@, country@));
            }
        }
    }

    fn apply_dissertation(&mut self, title: &String, author: Id)
        ensures
            final(self)@ == insert_dissertation_m(old(self)@, title@, author.0 as int),
    {
        if !self.dissertation_present(title, author) {
            self.dissertations.push(
                Dissertation {
                    title: title.clone(),
                    author: Mathematician { id: author, name: String::new() },
                },
            );
            proof {
                assert(final(self)@.dissertations =~= old(self)@.dissertations.push(
                    DissertationRow { title: title@, author: author.0 as int },
                ));
                assert(final(self)@ =~= insert_dissertation_m(old(self)@, title@, author.0 as int));
            }
        }
    }

    fn apply_graduation(&mut self, node: Id, school: &String, year: i32)
        ensures
            final(self)@ == insert_graduation_m(old(self)@, node.0 as int, school@, year as int),
    {
        if !self.graduation_present(node) {
            self.graduation_records.push(
                GraduationRecord {
                    mathematician: Mathematician { id: node, name: String::new() },
                    school: School { name: school.clone() },
                    year,
                },
            );
            proof {
                assert(final(self)@.graduation_records =~= old(self)@.graduation_records.push(
                    GraduationRow { node: node.0 as int, school: school@, year: year as int },
                ));
                assert(final(self)@ =~= insert_graduation_m(
                    old(self)@,
                    node.0 as int,
                    school@,
                    year as int,
                ));
            }
        }
    }

    fn apply_edge(&mut self, advisor: Id, advisee: Id)
        ensures
            final(self)@ == insert_edge_m(old(self)@, advisor.0 as int, advisee.0 as int),
    {
        if !self.edge_present(advisor, advisee) {
            self.advisor_relations.push(AdvisorRelation { advisor, advisee });
            proof {
                assert(final(self)@.advisor_relations =~= old(self)@.advisor_relations.push(
                    EdgeRow { advisor: advisor.0 as int, advisee: advisee.0 as int },
                ));
                assert(final(self)@ =~= insert_edge_m(
                    old(self)@,
                    advisor.0 as int,
                    advisee.0 as int,
                ));
            }
        }
    }

    fn node_present(&self, id: Id) -> (r: bool)
        ensures
            r == has_node(self@, id.0 as int),
    {
        let mut i: usize = 0;
        while i < self.nodes.len()
            invariant
                0 <= i <= self.nodes.len(),
                forall|j: int| 0 <= j < i ==> self@.nodes[j].id != id.0 as int,
            decreases self.nodes.len() - i,
        {
            if self.nodes[i].id.0 == id.0 {
                proof {
                    assert(self@.nodes[i as int].id == id.0 as int);
                }
                return true;
            }
            i += 1;
        }
        false
    }

    fn school_present(&self, name: &String) -> (r: bool)
        ensures
            r == has_school(self@, name@),
    {
        let mut i: usize = 0;
        while i < self.schools.len()
            invariant
                0 <= i <= self.schools.len(),
                forall|j: int| 0 <= j < i ==> self@.schools[j] != name@,
            decreases self.schools.len() - i,
        {
            if self.schools[i].name == *name {
                proof {
                    assert(self@.schools[i as int] == name@);
                }
                return true;
            }
            i += 1;
        }
        false
    }

    fn country_present(&self, name: &String) -> (r: bool)
        ensures
            r == has_country(self@, name@),
    {
        let mut i: usize = 0;
        while i < self.countries.len()
            invariant
                0 <= i <= self.countries.len(),
                forall|j: int| 0 <= j < i ==> self@.countries[j] != name@,
            decreases self.countries.len() - i,
        {
            if self.countries[i].name == *name {
                proof {
                    assert(self@.countries[i as int] == name@);
                }
                return true;
            }
            i += 1;
        }
        false
    }

    fn location_present(&self, school: &String) -> (r: bool)
        ensures
            r == has_location(self@, school@),
    {
        let mut i: usize = 0;
        while i < self.school_locations.len()
            invariant
                0 <= i <= self.school_locations.len(),
                forall|j: int| 0 <= j < i ==> self@.school_locations[j].school != school@,
            decreases self.school_locations.len() - i,
        {
            if self.school_locations[i].school.name == *school {
                proof {
                    assert(self@.school_locations[i as int].school == school@);
                }
                return true;
            }
            i += 1;
        }
        false
    }

    fn dissertation_present(&self, title: &String, author: Id) -> (r: bool)
        ensures
            r == has_dissertation(self@, title@, author.0 as int),
    {
        let mut i: usize = 0;
        while i < self.dissertations.len()
            invariant
                0 <= i <= self.dissertations.len(),
                forall|j: int|
                    0 <= j < i ==> self@.dissertations[j] != (DissertationRow {
                        title: title@,
                        author: author.0 as int,
                    }),
            decreases self.dissertations.len() - i,
        {
            if self.dissertations[i].title == *title && self.dissertations[i].author.id.0
                == author.0 {
                proof {
                    assert(self@.dissertations[i as int] == (DissertationRow {
                        title: title@,
                        author: author.0 as int,
                    }));
                }
                return true;
            }
            i += 1;
        }
        false
    }

    fn graduation_present(&self, node: Id) -> (r: bool)
        ensures
            r == has_graduation(self@, node.0 as int),
    {
        let mut i: usize = 0;
        while i < self.graduation_records.len()
            invariant
                0 <= i <= self.graduation_records.len(),
                forall|j: int| 0 <= j < i ==> self@.graduation_records[j].node != node.0 as int,
            decreases self.graduation_records.len() - i,
        {
            if self.graduation_records[i].mathematician.id.0 == node.0 {
                proof {
                    assert(self@.graduation_records[i as int].node == node.0 as int);
                }
                return true;
            }
            i += 1;
        }
        false
    }

    fn edge_present(&self, advisor: Id, advisee: Id) -> (r: bool)
        ensures
            r == has_edge(self@, advisor.0 as int, advisee.0 as int),
    {
        let mut i: usize = 0;
        while i < self.advisor_relations.len()
            invariant
                0 <= i <= self.advisor_relations.len(),
                forall|j: int|
                    0 <= j < i ==> self@.advisor_relations[j] != (EdgeRow {
                        advisor: advisor.0 as int,
                        advisee: advisee.0 as int,
                    }),
            decreases self.advisor_relations.len() - i,
        {
            if self.advisor_relations[i].advisor.0 == advisor.0 && self.advisor_relations[i].advisee.0
                == advisee.0 {
                proof {
                    assert(self@.advisor_relations[i as int] == (EdgeRow {
                        advisor: advisor.0 as int,
                        advisee: advisee.0 as int,
                    }));
                }
                return true;
            }
            i += 1;
        }
        false
    }

    /// Ingest a record for a visited node: one transaction holding the
    /// node row, each optional attribute the record carries, and each
    /// identified student as a node row plus an advisor edge, committed
    /// all at once with conflict-skip semantics per row.
    pub fn insert_record(&mut self, id: Id, record: &ScrapeRecord)
        ensures
            final(self)@ == ingest_m(old(self)@, id, *record),
    {
        let mut t = self.begin();
        t.insert_mathematician(id, &record.name);

        if let Some(country) = &record.country {
            t.insert_country(&Country { name: country.clone() });
        }

        if let Some(dissertation) = &record.dissertation {
            t.insert_dissertation(
                &Dissertation {
                    title: dissertation.clone(),
                    author: Mathematician { id, name: record.name.clone() },
                },
            );
        }

        if let Some(school) = &record.school {
            t.insert_school(&School { name: school.clone() });
            if let Some(country) = &record.country {
                t.insert_school_location(
                    &School { name: school.clone() },
                    &Country { name: country.clone() },
                );
            }
        }

        if let Some(school) = &record.school {
            if let Some(year) = record.year {
                t.insert_grad_record(
                    &GraduationRecord {
                        mathematician: Mathematician { id, name: record.name.clone() },
                        school: School { name: school.clone() },
                        year: year as i32,
                    },
                );
            }
        }

        proof {
            assert(t@ =~= head_plan_m(id, *record));
        }
        let ghost base: Seq<InsertOp> = t@;
        proof {
            assert(record.students@.skip(0) =~= record.students@);
        }
        let mut i: usize = 0;
        while i < record.students.len()
            invariant
                0 <= i <= record.students.len(),
                t@ + students_plan_m(id, record.students@.skip(i as int)) == base
                    + students_plan_m(id, record.students@),
            decreases record.students.len() - i,
        {
            proof {
                let rest = record.students@.skip(i as int);
                assert(rest[0] == record.students@[i as int]);
                assert(rest.drop_first() =~= record.students@.skip(i as int + 1));
            }
            let ghost t_before: Seq<InsertOp> = t@;
            let ghost ops_here: Seq<InsertOp> = student_ops_m(id, record.students@[i as int]);
            let ghost rest_after: Seq<InsertOp> = students_plan_m(
                id,
                record.students@.skip(i as int + 1),
            );
            let student = &record.students[i];
            if let Some(student_id) = student.id {
                t.insert_mathematician(student_id, &student.name);
                t.insert_advisor_relation(id, student_id);
                proof {
                    assert(t@ =~= t_before + ops_here);
                }
            } else {
                proof {
                    assert(t@ =~= t_before + ops_here);
                }
            }
            proof {
                assert((t_before + ops_here) + rest_after =~= t_before + (ops_here + rest_after));
            }
            i += 1;
        }
        proof {
            assert(record.students@.skip(record.students@.len() as int)
                =~= Seq::<Student>::empty());
            assert(t@ + Seq::<InsertOp>::empty() =~= t@);
        }
        self.commit(t);
    }

    /// How many node rows are stored.
    pub fn node_count(&self) -> (n: usize)
        ensures
            n == self@.nodes.len(),
    {
        self.nodes.len()
    }

    /// How many school rows are stored.
    pub fn school_count(&self) -> (n: usize)
        ensures
            n == self@.schools.len(),
    {
        self.schools.len()
    }

    /// How many country rows are stored.
    pub fn country_count(&self) -> (n: usize)
        ensures
            n == self@.countries.len(),
    {
        self.countries.len()
    }

    /// How many school-location rows are stored.
    pub fn school_location_count(&self) -> (n: usize)
        ensures
            n == self@.school_locations.len(),
    {
        self.school_locations.len()
    }

    /// How many dissertation rows are stored.
    pub fn dissertation_count(&self) -> (n: usize)
        ensures
            n == self@.dissertations.len(),
    {
        self.dissertations.len()
    }

    /// How many graduation rows are stored.
    pub fn graduation_record_count(&self) -> (n: usize)
        ensures
            n == self@.graduation_records.len(),
    {
        self.graduation_records.len()
    }

    /// How many advisor-relation rows are stored.
    pub fn advisor_relation_count(&self) -> (n: usize)
        ensures
            n == self@.advisor_relations.len(),
    {
        self.advisor_relations.len()
    }

    /// The existence oracle of the scheduler: is this node already known?
    /// Read-only; consulted before any fetch to skip redundant work.
    pub fn has_mathematician(&self, id: Id) -> (r: bool)
        ensures
            r == has_node(self@, id.0 as int),
    {
        self.node_present(id)
    }

    /// Is a node row with exactly this identifier and name stored?
    pub fn has_mathematician_named(&self, id: Id, name: &String) -> (r: bool)
        ensures
            r == has_node_row(self@, id.0 as int, name@),
    {
        let mut i: usize = 0;
        while i < self.nodes.len()
            invariant
                0 <= i <= self.nodes.len(),
                forall|j: int|
                    0 <= j < i ==> self@.nodes[j] != (NodeRow { id: id.0 as int, name: name@ }),
            decreases self.nodes.len() - i,
        {
            if self.nodes[i].id.0 == id.0 && self.nodes[i].name == *name {
                proof {
                    assert(self@.nodes[i as int] == (NodeRow { id: id.0 as int, name: name@ }));
                }
                return true;
            }
            i += 1;
        }
        false
    }

    /// Is a school of this name stored?
    pub fn has_school(&self, name: &String) -> (r: bool)
        ensures
            r == has_school(self@, name@),
    {
        self.school_present(name)
    }

    /// Is a country of this name stored?
    pub fn has_country(&self, name: &String) -> (r: bool)
        ensures
            r == has_country(self@, name@),
    {
        self.country_present(name)
    }

    /// Is exactly this school-to-country link stored?
    pub fn has_school_location(&self, school: &String, country: &String) -> (r: bool)
        ensures
            r == has_location_row(self@, school@, country@),
    {
        let mut i: usize = 0;
        while i < self.school_locations.len()
            invariant
                0 <= i <= self.school_locations.len(),
                forall|j: int|
                    0 <= j < i ==> self@.school_locations[j] != (LocationRow {
                        school: school@,
                        country: country@,
                    }),
            decreases self.school_locations.len() - i,
        {
            if self.school_locations[i].school.name == *school && self.school_locations[i].country.name
                == *country {
                proof {
                    assert(self@.school_locations[i as int] == (LocationRow {
                        school: school@,
                        country: country@,
                    }));
                }
                return true;
            }
            i += 1;
        }
        false
    }

    /// Is a dissertation with this title and author stored?
    pub fn has_dissertation(&self, title: &String, author: Id) -> (r: bool)
        ensures
            r == has_dissertation(self@, title@, author.0 as int),
    {
        self.dissertation_present(title, author)
    }

    /// Is exactly this graduation record stored?
    pub fn has_graduation_record(&self, node: Id, school: &String, year: i32) -> (r: bool)
        ensures
            r == has_graduation_row(self@, node.0 as int, school@, year as int),
    {
        let mut i: usize = 0;
        while i < self.graduation_records.len()
            invariant
                0 <= i <= self.graduation_records.len(),
                forall|j: int|
                    0 <= j < i ==> self@.graduation_records[j] != (GraduationRow {
                        node: node.0 as int,
                        school: school@,
                        year: year as int,
                    }),
            decreases self.graduation_records.len() - i,
        {
            if self.graduation_records[i].mathematician.id.0 == node.0
                && self.graduation_records[i].school.name == *school
                && self.graduation_records[i].year == year {
                proof {
                    assert(self@.graduation_records[i as int] == (GraduationRow {
                        node: node.0 as int,
                        school: school@,
                        year: year as int,
                    }));
                }
                return true;
            }
            i += 1;
        }
        false
    }

    /// The existence oracle for edges: is this exact directed edge stored?
    pub fn has_advisor_advisee(&self, advisor: Id, advisee: Id) -> (r: bool)
        ensures
            r == has_edge(self@, advisor.0 as int, advisee.0 as int),
    {
        self.edge_present(advisor, advisee)
    }
}

} // verus!
