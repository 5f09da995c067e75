//! Statements for the graph store: Cypher wrapped in SQL, with the graph's name
//! and the values in place.
//!
//! User text travels in an agtype parameter, escaped for JSON and then for SQL;
//! what stands in the statement itself are identifiers, labels and numbers. The
//! text of a number is its decimal form, which the caller provides.
use vstd::prelude::*;
use vstd::string::*;

use crate::binary64::Binary64;
use crate::documents::{texts_view, DocumentChunk};
use crate::downstream::Downstream;
use crate::escape::{json_esc, json_escaped, sql_esc, sql_escaped};
use crate::graph::{Belief, EdgeType, Pattern};
use crate::ids::{id_text, simple_id_text, write_id, write_simple_id};
use crate::text::{chars_of, decimal, optional_text, write_decimal};
use crate::time::{rfc3339_text, write_rfc3339};

verus! {

/// Why a statement could not be made.
#[derive(Debug)]
pub enum StoreError {
    /// The name of the graph is empty or holds other characters than ASCII
    /// letters, digits and underscores.
    BadGraphName(String),
    /// A number that has to be written is not finite: the operation, the field
    /// and the number.
    NotFinite(String, String, Binary64),
}

/// The labels of vertices that are counted.
#[derive(Clone, Copy, Debug, PartialEq, Eq, Structural)]
pub enum VertexLabel {
    Belief,
    Pattern,
}

impl VertexLabel {
    pub open spec fn name(self) -> Seq<char> {
        match self {
            VertexLabel::Belief => "Belief"@,
            VertexLabel::Pattern => "Pattern"@,
        }
    }

    pub fn label(self) -> (r: &'static str)
        ensures
            r@ == self.name(),
    {
        match self {
            VertexLabel::Belief => "Belief",
            VertexLabel::Pattern => "Pattern",
        }
    }
}

/// The labels of edges that are counted.
#[derive(Clone, Copy, Debug, PartialEq, Eq, Structural)]
pub enum EdgeLabel {
    Supports,
    Defeats,
    Causes,
    Contradicts,
}

impl EdgeLabel {
    pub open spec fn name(self) -> Seq<char> {
        match self {
            EdgeLabel::Supports => "SUPPORTS"@,
            EdgeLabel::Defeats => "DEFEATS"@,
            EdgeLabel::Causes => "CAUSES"@,
            EdgeLabel::Contradicts => "CONTRADICTS"@,
        }
    }

    pub fn label(self) -> (r: &'static str)
        ensures
            r@ == self.name(),
    {
        match self {
            EdgeLabel::Supports => "SUPPORTS",
            EdgeLabel::Defeats => "DEFEATS",
            EdgeLabel::Causes => "CAUSES",
            EdgeLabel::Contradicts => "CONTRADICTS",
        }
    }
}

/// A statement with one agtype parameter: prepared, executed, deallocated.
#[derive(Debug)]
pub struct Prepared {
    pub prepare: String,
    pub execute: String,
    pub deallocate: String,
}

/// A prepared statement as plain values.
pub struct PreparedModel {
    pub prepare: Seq<char>,
    pub execute: Seq<char>,
    pub deallocate: Seq<char>,
}

impl View for Prepared {
    type V = PreparedModel;

    open spec fn view(&self) -> PreparedModel {
        PreparedModel {
            prepare: self.prepare@,
            execute: self.execute@,
            deallocate: self.deallocate@,
        }
    }
}

/// The statement of that name with a JSON object as its parameter.
pub open spec fn prepared_model(
    name: Seq<char>,
    prepare: Seq<char>,
    json: Seq<char>,
) -> PreparedModel {
    PreparedModel {
        prepare,
        execute: "EXECUTE "@ + name + "('"@ + sql_escaped(json) + "')"@,
        deallocate: "DEALLOCATE "@ + name,
    }
}

fn prepared(name: &str, prepare: String, json: &str) -> (r: Prepared)
    ensures
        r@ == prepared_model(name@, prepare@, json@),
{
    let escaped = sql_esc(json);
    let mut execute: String = "EXECUTE ".to_owned();
    execute.append(name);
    execute.append("('");
    execute.append(escaped.as_str());
    execute.append("')");
    let mut deallocate: String = "DEALLOCATE ".to_owned();
    deallocate.append(name);
    Prepared { prepare, execute, deallocate }
}

/// A prefix and the digits of an identifier.
fn statement_name(prefix: &str, id: u128) -> (r: String)
    ensures
        r@ == prefix@ + simple_id_text(id),
{
    let digits = write_simple_id(id);
    let mut r: String = prefix.to_owned();
    r.append(digits.as_str());
    r
}

/// The next thing to do with a prepared statement, or that it is over.
#[derive(Clone, Copy, Debug, PartialEq, Eq, Structural)]
pub enum CallStep {
    Prepare,
    Execute,
    /// Deallocate; the flag says whether the execution succeeded.
    Deallocate(bool),
    /// Over; the flag says whether the call succeeded.
    Finished(bool),
}

/// What follows a step.
pub open spec fn step_after(step: CallStep, succeeded: bool) -> CallStep {
    match step {
        CallStep::Prepare => if succeeded {
            CallStep::Execute
        } else {
            CallStep::Finished(false)
        },
        CallStep::Execute => CallStep::Deallocate(succeeded),
        CallStep::Deallocate(ok) => CallStep::Finished(ok),
        CallStep::Finished(ok) => CallStep::Finished(ok),
    }
}

/// A statement that was prepared is deallocated, whatever became of its
/// execution; the call succeeds exactly when the execution did.
pub proof fn law_prepared_statements_are_deallocated(executed: bool, deallocated: bool)
    ensures
        step_after(step_after(CallStep::Prepare, true), executed) == CallStep::Deallocate(executed),
        step_after(
            step_after(step_after(CallStep::Prepare, true), executed),
            deallocated,
        ) == CallStep::Finished(executed),
{
}

/// What follows a step. A statement that could not be prepared is not
/// deallocated; one that was prepared always is, whatever became of its
/// execution, and the deallocation does not change the outcome.
pub fn next_step(step: CallStep, succeeded: bool) -> (r: CallStep)
    ensures
        r == step_after(step, succeeded),
{
    match step {
        CallStep::Prepare => if succeeded {
            CallStep::Execute
        } else {
            CallStep::Finished(false)
        },
        CallStep::Execute => CallStep::Deallocate(succeeded),
        CallStep::Deallocate(ok) => CallStep::Finished(ok),
        CallStep::Finished(ok) => CallStep::Finished(ok),
    }
}

/// An ASCII letter or digit, or an underscore.
pub open spec fn is_name_char(c: char) -> bool {
    'a' <= c <= 'z' || 'A' <= c <= 'Z' || '0' <= c <= '9' || c == '_'
}

/// A name that can stand in a statement as it is.
pub open spec fn is_graph_name(name: Seq<char>) -> bool {
    name.len() > 0 && forall|i: int| 0 <= i < name.len() ==> is_name_char(#[trigger] name[i])
}

/// Fields with their numbers, as plain values.
pub open spec fn fields_view(values: Seq<(&str, Binary64)>) -> Seq<(Seq<char>, Binary64)> {
    Seq::new(values.len(), |i: int| (values[i].0@, values[i].1))
}

/// All numbers can be written.
pub open spec fn all_finite(values: Seq<(Seq<char>, Binary64)>) -> bool {
    forall|i: int| 0 <= i < values.len() ==> (#[trigger] values[i]).1.is_finite()
}

/// The error names the operation and the first number that cannot be written.
pub open spec fn names_first_infinite(
    e: StoreError,
    label: Seq<char>,
    values: Seq<(Seq<char>, Binary64)>,
) -> bool {
    exists|i: int|
        #![trigger values[i]]
        {
            &&& 0 <= i < values.len()
            &&& !values[i].1.is_finite()
            &&& all_finite(values.take(i))
            &&& e is NotFinite
            &&& e->NotFinite_0@ == label
            &&& e->NotFinite_1@ == values[i].0
            &&& e->NotFinite_2 == values[i].1
        }
}

/// Whether all numbers can be written.
pub fn ensure_finite(label: &str, values: &[(&str, Binary64)]) -> (r: Result<(), StoreError>)
    ensures
        match r {
            Ok(_) => all_finite(fields_view(values@)),
            Err(e) => names_first_infinite(e, label@, fields_view(values@)),
        },
{
    let n: usize = values.len();
    let mut i: usize = 0;
    let ghost model = fields_view(values@);
    while i < n
        invariant
            i <= n,
            n == values@.len(),
            model == fields_view(values@),
            forall|j: int| 0 <= j < i ==> (#[trigger] model[j]).1.is_finite(),
        decreases n - i,
    {
        let (field, v) = values[i];
        assert(model[i as int] == (field@, v));
        if !v.finite() {
            assert(all_finite(model.take(i as int)));
            return Err(StoreError::NotFinite(label.to_owned(), field.to_owned(), v));
        }
        i = i + 1;
    }
    Ok(())
}

/// Identifiers in quotes, separated by commas.
pub open spec fn id_list(ids: Seq<u128>) -> Seq<char>
    decreases ids.len(),
{
    if ids.len() == 0 {
        Seq::empty()
    } else if ids.len() == 1 {
        "'"@ + id_text(ids[0]) + "'"@
    } else {
        id_list(ids.drop_last()) + ", "@ + ("'"@ + id_text(ids.last()) + "'"@)
    }
}

fn write_id_list(ids: &[u128]) -> (r: String)
    ensures
        r@ == id_list(ids@),
{
    let n: usize = ids.len();
    let mut r: String = String::new();
    let mut i: usize = 0;
    while i < n
        invariant
            i <= n,
            n == ids@.len(),
            r@ == id_list(ids@.take(i as int)),
        decreases n - i,
    {
        let id = write_id(ids[i]);
        let mut quoted: String = "'".to_owned();
        quoted.append(id.as_str());
        quoted.append("'");
        assert(ids@.take(i + 1).drop_last() =~= ids@.take(i as int));
        if i == 0 {
            r = quoted;
        } else {
            r.append(", ");
            r.append(quoted.as_str());
        }
        i = i + 1;
    }
    assert(ids@.take(n as int) =~= ids@);
    r
}

/// The clause that limits a number of rows; none where the limit is zero.
pub open spec fn limit_text(limit: usize) -> Seq<char> {
    if limit > 0 {
        "LIMIT "@ + decimal(limit as nat)
    } else {
        Seq::empty()
    }
}

fn limit_clause(limit: usize) -> (r: String)
    ensures
        r@ == limit_text(limit),
{
    if limit > 0 {
        let digits = write_decimal(limit as u64);
        let mut r: String = "LIMIT ".to_owned();
        r.append(digits.as_str());
        r
    } else {
        String::new()
    }
}

/// Makes the statements for one graph.
#[derive(Debug)]
pub struct AgeStore {
    graph_name: String,
}

impl AgeStore {
    #[verifier::type_invariant]
    spec fn is_valid(self) -> bool {
        is_graph_name(self.graph_name@)
    }

    /// The name of the graph.
    pub closed spec fn graph(self) -> Seq<char> {
        self.graph_name@
    }

    /// Accepts a name that can stand in a statement.
    pub fn new(graph_name: String) -> (r: Result<AgeStore, StoreError>)
        ensures
            match r {
                Ok(store) => is_graph_name(graph_name@) && store.graph() == graph_name@,
                Err(e) => !is_graph_name(graph_name@) && e == StoreError::BadGraphName(graph_name),
            },
    {
        let cs = chars_of(graph_name.as_str());
        let n: usize = cs.len();
        if n == 0 {
            return Err(StoreError::BadGraphName(graph_name));
        }
        let mut i: usize = 0;
        while i < n
            invariant
                i <= n,
                n == cs@.len(),
                cs@ == graph_name@,
                forall|j: int| 0 <= j < i ==> is_name_char(#[trigger] cs@[j]),
            decreases n - i,
        {
            let c = cs[i];
            if !(('a' <= c && c <= 'z') || ('A' <= c && c <= 'Z') || ('0' <= c && c <= '9') || c
                == '_') {
                assert(!is_name_char(graph_name@[i as int]));
                return Err(StoreError::BadGraphName(graph_name));
            }
            i = i + 1;
        }
        Ok(AgeStore { graph_name })
    }

    /// The name of the graph, which can stand in a statement as it is.
    pub fn name(&self) -> (r: &str)
        ensures
            r@ == self.graph(),
            is_graph_name(r@),
    {
        proof {
            use_type_invariant(self);
        }
        self.graph_name.as_str()
    }
}

/// Selects the columns of a belief from a query.
pub const BELIEF_SELECT: &'static str = "SELECT\n  id::text,\n  content::text,\n  probability::text,\n  confidence::text,\n  alpha::text,\n  beta::text,\n  alpha0::text,\n  beta0::text,\n  created_at::text,\n  last_activated_at::text,\n  memory_type::text,\n  project::text\nFROM ag_catalog.cypher('";

/// The properties of a belief that a query returns.
pub const BELIEF_RETURN: &'static str = "n.id, n.content, n.probability, n.confidence, n.alpha, n.beta, n.alpha0, n.beta0, n.created_at, n.last_activated_at, n.memory_type, n.project";

/// The columns of a belief, on one line.
pub const BELIEF_INLINE: &'static str = "id::text, content::text, probability::text, confidence::text, alpha::text, beta::text, alpha0::text, beta0::text, created_at::text, last_activated_at::text, memory_type::text, project::text ";

/// Names the columns of a belief.
pub const BELIEF_RETURN_COLUMNS: &'static str = "AS (\n  id             text,\n  content        text,\n  probability    text,\n  confidence     text,\n  alpha          text,\n  beta           text,\n  alpha0         text,\n  beta0          text,\n  created_at     text,\n  last_activated_at text,\n  memory_type    text,\n  project        text\n)";

/// Selects the columns of a pattern from a query.
pub const PATTERN_SELECT: &'static str = "SELECT\n  id::text,\n  situation::text,\n  approach::text,\n  activation_count::text,\n  success_rate::text,\n  created_at::text,\n  project::text\nFROM ag_catalog.cypher('";

/// The properties of a pattern that a query returns.
pub const PATTERN_RETURN: &'static str = "p.id, p.situation, p.approach, p.activation_count, p.success_rate, p.created_at, p.project";

/// Names the columns of a pattern.
pub const PATTERN_RETURN_COLUMNS: &'static str = "AS (\n  id               text,\n  situation        text,\n  approach         text,\n  activation_count text,\n  success_rate     text,\n  created_at       text,\n  project          text\n)";

/// Names the columns of a document chunk.
pub const CHUNK_RETURN_COLUMNS: &'static str = "AS (\n  id            text,\n  document_path text,\n  section_path  text,\n  content       text,\n  parent_id     text,\n  project       text\n)";

/// Inserts or replaces the embedding of a chunk.
pub const INSERT_CHUNK_EMBEDDING: &'static str = "INSERT INTO public.chunk_embeddings (chunk_id, embedding) VALUES ($1, $2) ON CONFLICT (chunk_id) DO UPDATE SET embedding = EXCLUDED.embedding";

/// Inserts or replaces the embedding of a belief.
pub const INSERT_BELIEF_EMBEDDING: &'static str = "INSERT INTO public.belief_embeddings (belief_id, embedding) VALUES ($1, $2) ON CONFLICT (belief_id) DO UPDATE SET embedding = EXCLUDED.embedding";

/// Deletes the embeddings of some chunks.
pub const DELETE_CHUNK_EMBEDDINGS: &'static str = "DELETE FROM public.chunk_embeddings WHERE chunk_id = ANY($1)";

/// Deletes the embeddings of some beliefs.
pub const DELETE_BELIEF_EMBEDDINGS: &'static str = "DELETE FROM public.belief_embeddings WHERE belief_id = ANY($1)";

/// Lists the beliefs that have an embedding.
pub const LIST_EMBEDDED_BELIEFS: &'static str = "SELECT belief_id::text FROM public.belief_embeddings";

/// Deletes a belief with its edges.
pub open spec fn delete_belief_sql(graph: Seq<char>, id: u128) -> Seq<char> {
    "SELECT * FROM ag_catalog.cypher('"@
        + graph
        + "', $$\n  MATCH (n:Belief {id: '"@
        + id_text(id)
        + "'})\n  DETACH DELETE n\n  RETURN 1\n$$) AS (ok ag_catalog.agtype)"@
}

/// Fetches one belief.
pub open spec fn get_belief_sql(graph: Seq<char>, id: u128) -> Seq<char> {
    BELIEF_SELECT@
        + graph
        + "', $$\n  MATCH (n:Belief {id: '"@
        + id_text(id)
        + "'})\n  RETURN "@
        + BELIEF_RETURN@
        + "\n$$) "@
        + BELIEF_RETURN_COLUMNS@
}

/// Fetches all beliefs.
pub open spec fn list_beliefs_sql(graph: Seq<char>) -> Seq<char> {
    BELIEF_SELECT@
        + graph
        + "', $$\n  MATCH (n:Belief)\n  RETURN "@
        + BELIEF_RETURN@
        + "\n$$) "@
        + BELIEF_RETURN_COLUMNS@
}

/// Writes the counts of a belief, and the probability and confidence that follow from them.
pub open spec fn set_counts_sql(graph: Seq<char>, id: u128, alpha: Seq<char>, beta: Seq<char>, mean: Seq<char>, confidence: Seq<char>) -> Seq<char> {
    "SELECT * FROM ag_catalog.cypher('"@
        + graph
        + "', $$\n  MATCH (n:Belief {id: '"@
        + id_text(id)
        + "'})\n  SET n.alpha = "@
        + alpha
        + ", n.beta = "@
        + beta
        + ", n.probability = "@
        + mean
        + ", n.confidence = "@
        + confidence
        + "\n  RETURN n.id\n$$) AS (id ag_catalog.agtype)"@
}

/// Fetches the beliefs of a project and those of none.
pub open spec fn list_beliefs_by_project_call(graph: Seq<char>, project: Seq<char>, stmt_id: u128) -> PreparedModel {
    let stmt = "age_list_beliefs_proj_"@ + simple_id_text(stmt_id);
    prepared_model(
        stmt,
        "PREPARE "@
            + stmt
            + "(agtype) AS SELECT "@
            + BELIEF_INLINE@
            + "FROM ag_catalog.cypher('"@
            + graph
            + "', $$ MATCH (n:Belief) WHERE n.project = $project OR n.project IS NULL RETURN "@
            + BELIEF_RETURN@
            + " $$, $1) "@
            + BELIEF_RETURN_COLUMNS@,
        "{\"project\": \""@
            + json_escaped(project)
            + "\"}"@,
    )
}

/// Lists the identifiers of the beliefs of a project.
pub open spec fn count_project_beliefs_call(graph: Seq<char>, project: Seq<char>, stmt_id: u128) -> PreparedModel {
    let stmt = "age_delproj_count_"@ + simple_id_text(stmt_id);
    prepared_model(
        stmt,
        "PREPARE "@
            + stmt
            + "(agtype) AS SELECT id::text FROM ag_catalog.cypher('"@
            + graph
            + "', $$ MATCH (n:Belief) WHERE n.project = $project RETURN n.id $$, $1) AS (id agtype)"@,
        "{\"project\": \""@
            + json_escaped(project)
            + "\"}"@,
    )
}

/// Deletes the beliefs of a project with their edges.
pub open spec fn delete_project_beliefs_call(graph: Seq<char>, project: Seq<char>, stmt_id: u128) -> PreparedModel {
    let stmt = "age_delproj_del_"@ + simple_id_text(stmt_id);
    prepared_model(
        stmt,
        "PREPARE "@
            + stmt
            + "(agtype) AS SELECT * FROM ag_catalog.cypher('"@
            + graph
            + "', $$ MATCH (n:Belief) WHERE n.project = $project DETACH DELETE n RETURN 1 $$, $1) AS (ok agtype)"@,
        "{\"project\": \""@
            + json_escaped(project)
            + "\"}"@,
    )
}

/// Deletes the patterns of a project with their edges.
pub open spec fn delete_project_patterns_call(graph: Seq<char>, project: Seq<char>, stmt_id: u128) -> PreparedModel {
    let stmt = "age_delproj_pat_"@ + simple_id_text(stmt_id);
    prepared_model(
        stmt,
        "PREPARE "@
            + stmt
            + "(agtype) AS SELECT * FROM ag_catalog.cypher('"@
            + graph
            + "', $$ MATCH (p:Pattern) WHERE p.project = $project DETACH DELETE p RETURN 1 $$, $1) AS (ok agtype)"@,
        "{\"project\": \""@
            + json_escaped(project)
            + "\"}"@,
    )
}

/// Counts the vertices of a label.
pub open spec fn count_vertices_sql(graph: Seq<char>, label: VertexLabel) -> Seq<char> {
    "SELECT n::text\nFROM ag_catalog.cypher('"@
        + graph
        + "', $$\n  MATCH (n:"@
        + label.name()
        + ")\n  RETURN count(*) AS n\n$$) AS (n ag_catalog.agtype)"@
}

/// Counts the edges of a label.
pub open spec fn count_edges_by_label_sql(graph: Seq<char>, label: EdgeLabel) -> Seq<char> {
    "SELECT n::text\nFROM ag_catalog.cypher('"@
        + graph
        + "', $$\n  MATCH ()-[:"@
        + label.name()
        + "]->()\n  RETURN count(*) AS n\n$$) AS (n ag_catalog.agtype)"@
}

/// Fetches every defeat with the time of its defeater.
pub open spec fn get_defeats_with_timestamps_sql(graph: Seq<char>) -> Seq<char> {
    "SELECT defeater_id::text, defeated_id::text, defeater_created_at::text\nFROM ag_catalog.cypher('"@
        + graph
        + "', $$\n  MATCH (a:Belief)-[:DEFEATS]->(b:Belief)\n  RETURN a.id, b.id, a.created_at\n$$) AS (defeater_id ag_catalog.agtype, defeated_id ag_catalog.agtype, defeater_created_at ag_catalog.agtype)"@
}

/// Fetches the defeats between beliefs of a project or of none.
pub open spec fn get_defeats_with_timestamps_by_project_call(graph: Seq<char>, project: Seq<char>, stmt_id: u128) -> PreparedModel {
    let stmt = "age_defeats_ts_proj_"@ + simple_id_text(stmt_id);
    prepared_model(
        stmt,
        "PREPARE "@
            + stmt
            + "(agtype) AS SELECT defeater_id::text, defeated_id::text, defeater_created_at::text FROM ag_catalog.cypher('"@
            + graph
            + "', $$ MATCH (a:Belief)-[:DEFEATS]->(b:Belief) WHERE (a.project = $project OR a.project IS NULL) AND (b.project = $project OR b.project IS NULL) RETURN a.id, b.id, a.created_at $$, $1) AS (defeater_id agtype, defeated_id agtype, defeater_created_at agtype)"@,
        "{\"project\": \""@
            + json_escaped(project)
            + "\"}"@,
    )
}

/// Fetches one pattern.
pub open spec fn get_pattern_sql(graph: Seq<char>, id: u128) -> Seq<char> {
    PATTERN_SELECT@
        + graph
        + "', $$\n  MATCH (p:Pattern {id: '"@
        + id_text(id)
        + "'})\n  RETURN "@
        + PATTERN_RETURN@
        + "\n$$) "@
        + PATTERN_RETURN_COLUMNS@
}

/// Deletes a pattern with its edges.
pub open spec fn delete_pattern_sql(graph: Seq<char>, id: u128) -> Seq<char> {
    "SELECT * FROM ag_catalog.cypher('"@
        + graph
        + "', $$\n  MATCH (p:Pattern {id: '"@
        + id_text(id)
        + "'})\n  DETACH DELETE p\n  RETURN 1\n$$) AS (ok ag_catalog.agtype)"@
}

/// Fetches all patterns.
pub open spec fn list_patterns_sql(graph: Seq<char>) -> Seq<char> {
    PATTERN_SELECT@
        + graph
        + "', $$\n  MATCH (p:Pattern)\n  RETURN "@
        + PATTERN_RETURN@
        + "\n$$) "@
        + PATTERN_RETURN_COLUMNS@
}

/// Fetches the patterns of a project and those of none.
pub open spec fn list_patterns_by_project_call(graph: Seq<char>, project: Seq<char>, stmt_id: u128) -> PreparedModel {
    let stmt = "age_list_patterns_proj_"@ + simple_id_text(stmt_id);
    prepared_model(
        stmt,
        "PREPARE "@
            + stmt
            + "(agtype) AS SELECT id::text, situation::text, approach::text, activation_count::text, success_rate::text, created_at::text, project::text FROM ag_catalog.cypher('"@
            + graph
            + "', $$ MATCH (p:Pattern) WHERE p.project = $project OR p.project IS NULL RETURN "@
            + PATTERN_RETURN@
            + " $$, $1) "@
            + PATTERN_RETURN_COLUMNS@,
        "{\"project\": \""@
            + json_escaped(project)
            + "\"}"@,
    )
}

/// Inserts an edge of the given weight.
pub open spec fn insert_edge_sql(graph: Seq<char>, from_id: u128, to_id: u128, edge_type: EdgeType, weight: Seq<char>) -> Seq<char> {
    "SELECT * FROM ag_catalog.cypher('"@
        + graph
        + "', $$\n  MATCH (a:Belief {id: '"@
        + id_text(from_id)
        + "'}), (b:Belief {id: '"@
        + id_text(to_id)
        + "'})\n  CREATE (a)-[r:"@
        + edge_type.name()
        + " {weight: "@
        + weight
        + "}]->(b)\n  RETURN r.weight\n$$) AS (weight ag_catalog.agtype)"@
}

/// Inserts a contradiction, in both directions.
pub open spec fn insert_contradicts_sql(graph: Seq<char>, from_id: u128, to_id: u128, weight: Seq<char>) -> Seq<char> {
    "SELECT * FROM ag_catalog.cypher('"@
        + graph
        + "', $$\n  MATCH (a:Belief {id: '"@
        + id_text(from_id)
        + "'}), (b:Belief {id: '"@
        + id_text(to_id)
        + "'})\n  CREATE (a)-[r1:CONTRADICTS {weight: "@
        + weight
        + "}]->(b)\n  CREATE (b)-[r2:CONTRADICTS {weight: "@
        + weight
        + "}]->(a)\n  RETURN r1.weight\n$$) AS (weight ag_catalog.agtype)"@
}

/// Fetches the pairs that a contradicting edge connects.
pub open spec fn get_contradiction_pairs_sql(graph: Seq<char>) -> Seq<char> {
    "SELECT from_id::text, to_id::text\nFROM ag_catalog.cypher('"@
        + graph
        + "', $$\n  MATCH (a:Belief)-[:CONTRADICTS]->(b:Belief)\n  RETURN a.id, b.id\n$$) AS (from_id ag_catalog.agtype, to_id ag_catalog.agtype)"@
}

/// Fetches the contradicting pairs of a project or of none.
pub open spec fn get_contradiction_pairs_by_project_call(graph: Seq<char>, project: Seq<char>, stmt_id: u128) -> PreparedModel {
    let stmt = "age_contra_pairs_proj_"@ + simple_id_text(stmt_id);
    prepared_model(
        stmt,
        "PREPARE "@
            + stmt
            + "(agtype) AS SELECT from_id::text, to_id::text FROM ag_catalog.cypher('"@
            + graph
            + "', $$ MATCH (a:Belief)-[:CONTRADICTS]->(b:Belief) WHERE (a.project = $project OR a.project IS NULL) AND (b.project = $project OR b.project IS NULL) RETURN a.id, b.id $$, $1) AS (from_id agtype, to_id agtype)"@,
        "{\"project\": \""@
            + json_escaped(project)
            + "\"}"@,
    )
}

/// Fetches the edges between any two of the given beliefs.
pub open spec fn get_edges_among_sql(graph: Seq<char>, ids: Seq<u128>) -> Seq<char> {
    "SELECT from_id::text, to_id::text, label::text, weight::text\nFROM ag_catalog.cypher('"@
        + graph
        + "', $$\n  MATCH (a:Belief)-[r]->(b:Belief)\n  WHERE a.id IN ["@
        + id_list(ids)
        + "]\n  AND   b.id IN ["@
        + id_list(ids)
        + "]\n  RETURN a.id, b.id, type(r), r.weight\n$$) AS (from_id ag_catalog.agtype, to_id ag_catalog.agtype, label ag_catalog.agtype, weight ag_catalog.agtype)"@
}

/// Fetches the edges of propagation that lead into the given beliefs, with the counts of their sources.
pub open spec fn get_incoming_edges_sql(graph: Seq<char>, ids: Seq<u128>) -> Seq<char> {
    "SELECT from_id::text, to_id::text, label::text, weight::text, src_alpha::text, src_beta::text\nFROM ag_catalog.cypher('"@
        + graph
        + "', $$\n  MATCH (a:Belief)-[r:SUPPORTS]->(b:Belief)\n  WHERE b.id IN ["@
        + id_list(ids)
        + "]\n  RETURN a.id, b.id, type(r), r.weight, a.alpha, a.beta\n  UNION ALL\n  MATCH (a:Belief)-[r:DEFEATS]->(b:Belief)\n  WHERE b.id IN ["@
        + id_list(ids)
        + "]\n  RETURN a.id, b.id, type(r), r.weight, a.alpha, a.beta\n  UNION ALL\n  MATCH (a:Belief)-[r:CAUSES]->(b:Belief)\n  WHERE b.id IN ["@
        + id_list(ids)
        + "]\n  RETURN a.id, b.id, type(r), r.weight, a.alpha, a.beta\n$$) AS (from_id ag_catalog.agtype, to_id ag_catalog.agtype, label ag_catalog.agtype, weight ag_catalog.agtype, src_alpha ag_catalog.agtype, src_beta ag_catalog.agtype)"@
}

/// Connects a chunk with the chunk that contains it.
pub open spec fn contain_chunk_sql(graph: Seq<char>, parent: u128, child: u128) -> Seq<char> {
    "SELECT * FROM ag_catalog.cypher('"@
        + graph
        + "', $$\n  MATCH (p:DocumentChunk {id: '"@
        + id_text(parent)
        + "'}), (c:DocumentChunk {id: '"@
        + id_text(child)
        + "'})\n  CREATE (p)-[:CONTAINS]->(c)\n  RETURN 1\n$$) AS (ok ag_catalog.agtype)"@
}

/// Lists the chunks of a document.
pub open spec fn get_chunk_ids_for_document_call(graph: Seq<char>, path: Seq<char>, stmt_id: u128) -> PreparedModel {
    let stmt = "age_chunk_ids_by_path_"@ + simple_id_text(stmt_id);
    prepared_model(
        stmt,
        "PREPARE "@
            + stmt
            + "(agtype) AS SELECT id::text FROM ag_catalog.cypher('"@
            + graph
            + "', $$ MATCH (c:DocumentChunk) WHERE c.documentPath = $documentPath RETURN c.id $$, $1) AS (id agtype)"@,
        "{\"documentPath\": \""@
            + json_escaped(path)
            + "\"}"@,
    )
}

/// Lists the chunks of a project.
pub open spec fn get_chunk_ids_by_project_call(graph: Seq<char>, project: Seq<char>, stmt_id: u128) -> PreparedModel {
    let stmt = "age_chunk_ids_by_proj_"@ + simple_id_text(stmt_id);
    prepared_model(
        stmt,
        "PREPARE "@
            + stmt
            + "(agtype) AS SELECT id::text FROM ag_catalog.cypher('"@
            + graph
            + "', $$ MATCH (c:DocumentChunk) WHERE c.project = $project RETURN c.id $$, $1) AS (id agtype)"@,
        "{\"project\": \""@
            + json_escaped(project)
            + "\"}"@,
    )
}

/// Deletes chunks with their edges.
pub open spec fn delete_document_chunks_sql(graph: Seq<char>, ids: Seq<u128>) -> Seq<char> {
    "SELECT * FROM ag_catalog.cypher('"@
        + graph
        + "', $$\n  MATCH (c:DocumentChunk) WHERE c.id IN ["@
        + id_list(ids)
        + "]\n  DETACH DELETE c\n  RETURN 1\n$$) AS (ok ag_catalog.agtype)"@
}

/// Lists chunks by falling similarity to a vector.
pub open spec fn query_chunks_by_vector_sql(limit: usize) -> Seq<char> {
    "SELECT chunk_id::text FROM public.chunk_embeddings ORDER BY embedding <=> $1 "@
        + limit_text(limit)
}

/// Lists some chunks by falling similarity to a vector.
pub open spec fn query_chunks_by_vector_filtered_sql(limit: usize) -> Seq<char> {
    "SELECT chunk_id::text FROM public.chunk_embeddings WHERE chunk_id = ANY($2) ORDER BY embedding <=> $1 "@
        + limit_text(limit)
}

/// Lists beliefs by falling similarity to a vector.
pub open spec fn query_beliefs_by_vector_sql(limit: usize) -> Seq<char> {
    "SELECT belief_id::text FROM public.belief_embeddings ORDER BY embedding <=> $1 "@
        + limit_text(limit)
}

/// Lists some beliefs by falling similarity to a vector.
pub open spec fn query_beliefs_by_vector_filtered_sql(limit: usize) -> Seq<char> {
    "SELECT belief_id::text FROM public.belief_embeddings WHERE belief_id = ANY($2) ORDER BY embedding <=> $1 "@
        + limit_text(limit)
}

/// Lists chunks by falling similarity to a vector, with the similarity.
pub open spec fn query_chunks_by_vector_scored_sql(limit: usize) -> Seq<char> {
    "SELECT chunk_id::text, 1.0 - (embedding <=> $1) AS similarity FROM public.chunk_embeddings ORDER BY embedding <=> $1 "@
        + limit_text(limit)
}

/// Lists some chunks by falling similarity to a vector, with the similarity.
pub open spec fn query_chunks_by_vector_scored_filtered_sql(limit: usize) -> Seq<char> {
    "SELECT chunk_id::text, 1.0 - (embedding <=> $1) AS similarity FROM public.chunk_embeddings WHERE chunk_id = ANY($2) ORDER BY embedding <=> $1 "@
        + limit_text(limit)
}

/// Lists beliefs by falling similarity to a vector, with the similarity.
pub open spec fn query_beliefs_by_vector_scored_sql(limit: usize) -> Seq<char> {
    "SELECT belief_id::text, 1.0 - (embedding <=> $1) AS similarity FROM public.belief_embeddings ORDER BY embedding <=> $1 "@
        + limit_text(limit)
}

/// Fetches one chunk.
pub open spec fn get_chunk_by_id_sql(graph: Seq<char>, id: u128) -> Seq<char> {
    "SELECT\n  id::text,\n  document_path,\n  section_path,\n  content::text,\n  parent_id,\n  project::text\nFROM ag_catalog.cypher('"@
        + graph
        + "', $$\n  MATCH (c:DocumentChunk {id: '"@
        + id_text(id)
        + "'})\n  RETURN c.id, c.documentPath, c.sectionPath, c.content, c.parentId, c.project\n$$) "@
        + CHUNK_RETURN_COLUMNS@
}

/// Lets a chunk ground a belief with the given weight.
pub open spec fn insert_evidence_sql(graph: Seq<char>, chunk_id: u128, belief_id: u128, weight: Seq<char>) -> Seq<char> {
    "SELECT * FROM ag_catalog.cypher('"@
        + graph
        + "', $$\n  MATCH (c:DocumentChunk {id: '"@
        + id_text(chunk_id)
        + "'}), (b:Belief {id: '"@
        + id_text(belief_id)
        + "'})\n  CREATE (c)-[r:GROUNDS {weight: "@
        + weight
        + "}]->(b)\n  RETURN r.weight\n$$) AS (weight ag_catalog.agtype)"@
}

/// Fetches, for each grounded belief, the sum of the weights.
pub open spec fn get_grounding_mass_all_sql(graph: Seq<char>) -> Seq<char> {
    "SELECT belief_id::text, total_weight::text\nFROM ag_catalog.cypher('"@
        + graph
        + "', $$\n  MATCH (c:DocumentChunk)-[r:GROUNDS]->(b:Belief)\n  RETURN b.id, sum(r.weight)\n$$) AS (belief_id ag_catalog.agtype, total_weight ag_catalog.agtype)"@
}

/// Fetches the chunks that ground the given beliefs.
pub open spec fn get_evidence_for_beliefs_sql(graph: Seq<char>, ids: Seq<u128>) -> Seq<char> {
    "SELECT belief_id::text, chunk_id::text, weight::text\nFROM ag_catalog.cypher('"@
        + graph
        + "', $$\n  MATCH (c:DocumentChunk)-[r:GROUNDS]->(b:Belief)\n  WHERE b.id IN ["@
        + id_list(ids)
        + "]\n  RETURN b.id, c.id, r.weight\n$$) AS (belief_id ag_catalog.agtype, chunk_id ag_catalog.agtype, weight ag_catalog.agtype)"@
}

/// Removes a ground of a belief.
pub open spec fn delete_evidence_sql(graph: Seq<char>, chunk_id: u128, belief_id: u128) -> Seq<char> {
    "SELECT * FROM ag_catalog.cypher('"@
        + graph
        + "', $$\n  MATCH (c:DocumentChunk {id: '"@
        + id_text(chunk_id)
        + "'})-[r:GROUNDS]->(b:Belief {id: '"@
        + id_text(belief_id)
        + "'})\n  DELETE r\n$$) AS (v ag_catalog.agtype)"@
}

/// Fetches the beliefs that one supporting, causing or defeating edge leads to.
pub open spec fn get_direct_downstream_sql(graph: Seq<char>, id: u128) -> Seq<char> {
    BELIEF_SELECT@
        + graph
        + "', $$\n  MATCH (s:Belief {id: '"@
        + id_text(id)
        + "'})-[:SUPPORTS]->(n:Belief)\n  RETURN "@
        + BELIEF_RETURN@
        + "\n  UNION\n  MATCH (s:Belief {id: '"@
        + id_text(id)
        + "'})-[:CAUSES]->(n:Belief)\n  RETURN "@
        + BELIEF_RETURN@
        + "\n  UNION\n  MATCH (s:Belief {id: '"@
        + id_text(id)
        + "'})-[:DEFEATS]->(n:Belief)\n  RETURN "@
        + BELIEF_RETURN@
        + "\n$$) "@
        + BELIEF_RETURN_COLUMNS@
}

/// Fetches the beliefs that one supporting or causing edge leads to.
pub open spec fn get_related_beliefs_sql(graph: Seq<char>, id: u128) -> Seq<char> {
    BELIEF_SELECT@
        + graph
        + "', $$\n  MATCH (s:Belief {id: '"@
        + id_text(id)
        + "'})-[:SUPPORTS]->(n:Belief)\n  RETURN "@
        + BELIEF_RETURN@
        + "\n  UNION\n  MATCH (s:Belief {id: '"@
        + id_text(id)
        + "'})-[:CAUSES]->(n:Belief)\n  RETURN "@
        + BELIEF_RETURN@
        + "\n$$) "@
        + BELIEF_RETURN_COLUMNS@
}

/// Fetches the beliefs of a project, or of none, that one supporting,
/// causing or defeating edge leads to.
pub open spec fn get_direct_downstream_by_project_call(graph: Seq<char>, id: u128, project: Seq<char>, stmt_id: u128) -> PreparedModel {
    let stmt = "age_direct_downstream_proj_"@ + simple_id_text(stmt_id);
    prepared_model(
        stmt,
        "PREPARE "@
            + stmt
            + "(agtype) AS SELECT "@
            + BELIEF_INLINE@
            + "FROM ag_catalog.cypher('"@
            + graph
            + "', $$ MATCH (s:Belief {id: '"@
            + id_text(id)
            + "'})-[:SUPPORTS]->(n:Belief) WHERE n.project = $project OR n.project IS NULL RETURN "@
            + BELIEF_RETURN@
            + " UNION MATCH (s:Belief {id: '"@
            + id_text(id)
            + "'})-[:CAUSES]->(n:Belief) WHERE n.project = $project OR n.project IS NULL RETURN "@
            + BELIEF_RETURN@
            + " UNION MATCH (s:Belief {id: '"@
            + id_text(id)
            + "'})-[:DEFEATS]->(n:Belief) WHERE n.project = $project OR n.project IS NULL RETURN "@
            + BELIEF_RETURN@
            + " $$, $1) "@
            + BELIEF_RETURN_COLUMNS@,
        "{\"project\": \""@
            + json_escaped(project)
            + "\"}"@,
    )
}

/// Fetches the beliefs of a project, or of none, that one supporting or
/// causing edge leads to.
pub open spec fn get_related_beliefs_by_project_call(graph: Seq<char>, id: u128, project: Seq<char>, stmt_id: u128) -> PreparedModel {
    let stmt = "age_related_proj_"@ + simple_id_text(stmt_id);
    prepared_model(
        stmt,
        "PREPARE "@
            + stmt
            + "(agtype) AS SELECT "@
            + BELIEF_INLINE@
            + "FROM ag_catalog.cypher('"@
            + graph
            + "', $$ MATCH (s:Belief {id: '"@
            + id_text(id)
            + "'})-[:SUPPORTS]->(n:Belief) WHERE n.project = $project OR n.project IS NULL RETURN "@
            + BELIEF_RETURN@
            + " UNION MATCH (s:Belief {id: '"@
            + id_text(id)
            + "'})-[:CAUSES]->(n:Belief) WHERE n.project = $project OR n.project IS NULL RETURN "@
            + BELIEF_RETURN@
            + " $$, $1) "@
            + BELIEF_RETURN_COLUMNS@,
        "{\"project\": \""@
            + json_escaped(project)
            + "\"}"@,
    )
}

/// Fetches the beliefs that up to ten causing edges lead to.
pub open spec fn get_causal_downstream_beliefs_sql(graph: Seq<char>, id: u128) -> Seq<char> {
    BELIEF_SELECT@
        + graph
        + "', $$\n  MATCH (s:Belief {id: '"@
        + id_text(id)
        + "'})-[:CAUSES*1..10]->(n:Belief)\n  RETURN "@
        + BELIEF_RETURN@
        + "\n$$) "@
        + BELIEF_RETURN_COLUMNS@
}

impl AgeStore {
    /// Deletes a belief with its edges.
    pub fn delete_belief(&self, id: u128) -> (sql: String)
        ensures
            sql@ == delete_belief_sql(self.graph(), id),
    {
        let id_text = write_id(id);
        let mut sql: String = "SELECT * FROM ag_catalog.cypher('".to_owned();
        sql.append(self.graph_name.as_str());
        sql.append("', $$\n  MATCH (n:Belief {id: '");
        sql.append(id_text.as_str());
        sql.append("'})\n  DETACH DELETE n\n  RETURN 1\n$$) AS (ok ag_catalog.agtype)");
        sql
    }

    /// Fetches one belief.
    pub fn get_belief(&self, id: u128) -> (sql: String)
        ensures
            sql@ == get_belief_sql(self.graph(), id),
    {
        let id_text = write_id(id);
        let mut sql: String = BELIEF_SELECT.to_owned();
        sql.append(self.graph_name.as_str());
        sql.append("', $$\n  MATCH (n:Belief {id: '");
        sql.append(id_text.as_str());
        sql.append("'})\n  RETURN ");
        sql.append(BELIEF_RETURN);
        sql.append("\n$$) ");
        sql.append(BELIEF_RETURN_COLUMNS);
        sql
    }

    /// Fetches all beliefs.
    pub fn list_beliefs(&self) -> (sql: String)
        ensures
            sql@ == list_beliefs_sql(self.graph()),
    {
        let mut sql: String = BELIEF_SELECT.to_owned();
        sql.append(self.graph_name.as_str());
        sql.append("', $$\n  MATCH (n:Belief)\n  RETURN ");
        sql.append(BELIEF_RETURN);
        sql.append("\n$$) ");
        sql.append(BELIEF_RETURN_COLUMNS);
        sql
    }

    /// Writes the counts of a belief, and the probability and confidence that follow from them.
    pub fn set_counts(&self, id: u128, alpha: &str, beta: &str, mean: &str, confidence: &str) -> (sql: String)
        ensures
            sql@ == set_counts_sql(self.graph(), id, alpha@, beta@, mean@, confidence@),
    {
        let id_text = write_id(id);
        let mut sql: String = "SELECT * FROM ag_catalog.cypher('".to_owned();
        sql.append(self.graph_name.as_str());
        sql.append("', $$\n  MATCH (n:Belief {id: '");
        sql.append(id_text.as_str());
        sql.append("'})\n  SET n.alpha = ");
        sql.append(alpha);
        sql.append(", n.beta = ");
        sql.append(beta);
        sql.append(", n.probability = ");
        sql.append(mean);
        sql.append(", n.confidence = ");
        sql.append(confidence);
        sql.append("\n  RETURN n.id\n$$) AS (id ag_catalog.agtype)");
        sql
    }

    /// Fetches the beliefs of a project and those of none.
    pub fn list_beliefs_by_project(&self, project: &str, stmt_id: u128) -> (call: Prepared)
        ensures
            call@ == list_beliefs_by_project_call(self.graph(), project@, stmt_id),
    {
        let project_text = json_esc(project);
        let stmt = statement_name("age_list_beliefs_proj_", stmt_id);
        let mut prepare: String = "PREPARE ".to_owned();
        prepare.append(stmt.as_str());
        prepare.append("(agtype) AS SELECT ");
        prepare.append(BELIEF_INLINE);
        prepare.append("FROM ag_catalog.cypher('");
        prepare.append(self.graph_name.as_str());
        prepare.append("', $$ MATCH (n:Belief) WHERE n.project = $project OR n.project IS NULL RETURN ");
        prepare.append(BELIEF_RETURN);
        prepare.append(" $$, $1) ");
        prepare.append(BELIEF_RETURN_COLUMNS);
        let mut json: String = "{\"project\": \"".to_owned();
        json.append(project_text.as_str());
        json.append("\"}");
        prepared(stmt.as_str(), prepare, json.as_str())
    }

    /// Lists the identifiers of the beliefs of a project.
    pub fn count_project_beliefs(&self, project: &str, stmt_id: u128) -> (call: Prepared)
        ensures
            call@ == count_project_beliefs_call(self.graph(), project@, stmt_id),
    {
        let project_text = json_esc(project);
        let stmt = statement_name("age_delproj_count_", stmt_id);
        let mut prepare: String = "PREPARE ".to_owned();
        prepare.append(stmt.as_str());
        prepare.append("(agtype) AS SELECT id::text FROM ag_catalog.cypher('");
        prepare.append(self.graph_name.as_str());
        prepare.append("', $$ MATCH (n:Belief) WHERE n.project = $project RETURN n.id $$, $1) AS (id agtype)");
        let mut json: String = "{\"project\": \"".to_owned();
        json.append(project_text.as_str());
        json.append("\"}");
        prepared(stmt.as_str(), prepare, json.as_str())
    }

    /// Deletes the beliefs of a project with their edges.
    pub fn delete_project_beliefs(&self, project: &str, stmt_id: u128) -> (call: Prepared)
        ensures
            call@ == delete_project_beliefs_call(self.graph(), project@, stmt_id),
    {
        let project_text = json_esc(project);
        let stmt = statement_name("age_delproj_del_", stmt_id);
        let mut prepare: String = "PREPARE ".to_owned();
        prepare.append(stmt.as_str());
        prepare.append("(agtype) AS SELECT * FROM ag_catalog.cypher('");
        prepare.append(self.graph_name.as_str());
        prepare.append("', $$ MATCH (n:Belief) WHERE n.project = $project DETACH DELETE n RETURN 1 $$, $1) AS (ok agtype)");
        let mut json: String = "{\"project\": \"".to_owned();
        json.append(project_text.as_str());
        json.append("\"}");
        prepared(stmt.as_str(), prepare, json.as_str())
    }

    /// Deletes the patterns of a project with their edges.
    pub fn delete_project_patterns(&self, project: &str, stmt_id: u128) -> (call: Prepared)
        ensures
            call@ == delete_project_patterns_call(self.graph(), project@, stmt_id),
    {
        let project_text = json_esc(project);
        let stmt = statement_name("age_delproj_pat_", stmt_id);
        let mut prepare: String = "PREPARE ".to_owned();
        prepare.append(stmt.as_str());
        prepare.append("(agtype) AS SELECT * FROM ag_catalog.cypher('");
        prepare.append(self.graph_name.as_str());
        prepare.append("', $$ MATCH (p:Pattern) WHERE p.project = $project DETACH DELETE p RETURN 1 $$, $1) AS (ok agtype)");
        let mut json: String = "{\"project\": \"".to_owned();
        json.append(project_text.as_str());
        json.append("\"}");
        prepared(stmt.as_str(), prepare, json.as_str())
    }

    /// Counts the vertices of a label.
    pub fn count_vertices(&self, label: VertexLabel) -> (sql: String)
        ensures
            sql@ == count_vertices_sql(self.graph(), label),
    {
        let mut sql: String = "SELECT n::text\nFROM ag_catalog.cypher('".to_owned();
        sql.append(self.graph_name.as_str());
        sql.append("', $$\n  MATCH (n:");
        sql.append(label.label());
        sql.append(")\n  RETURN count(*) AS n\n$$) AS (n ag_catalog.agtype)");
        sql
    }

    /// Counts the edges of a label.
    pub fn count_edges_by_label(&self, label: EdgeLabel) -> (sql: String)
        ensures
            sql@ == count_edges_by_label_sql(self.graph(), label),
    {
        let mut sql: String = "SELECT n::text\nFROM ag_catalog.cypher('".to_owned();
        sql.append(self.graph_name.as_str());
        sql.append("', $$\n  MATCH ()-[:");
        sql.append(label.label());
        sql.append("]->()\n  RETURN count(*) AS n\n$$) AS (n ag_catalog.agtype)");
        sql
    }

    /// Fetches every defeat with the time of its defeater.
    pub fn get_defeats_with_timestamps(&self) -> (sql: String)
        ensures
            sql@ == get_defeats_with_timestamps_sql(self.graph()),
    {
        let mut sql: String = "SELECT defeater_id::text, defeated_id::text, defeater_created_at::text\nFROM ag_catalog.cypher('".to_owned();
        sql.append(self.graph_name.as_str());
        sql.append("', $$\n  MATCH (a:Belief)-[:DEFEATS]->(b:Belief)\n  RETURN a.id, b.id, a.created_at\n$$) AS (defeater_id ag_catalog.agtype, defeated_id ag_catalog.agtype, defeater_created_at ag_catalog.agtype)");
        sql
    }

    /// Fetches the defeats between beliefs of a project or of none.
    pub fn get_defeats_with_timestamps_by_project(&self, project: &str, stmt_id: u128) -> (call: Prepared)
        ensures
            call@ == get_defeats_with_timestamps_by_project_call(self.graph(), project@, stmt_id),
    {
        let project_text = json_esc(project);
        let stmt = statement_name("age_defeats_ts_proj_", stmt_id);
        let mut prepare: String = "PREPARE ".to_owned();
        prepare.append(stmt.as_str());
        prepare.append("(agtype) AS SELECT defeater_id::text, defeated_id::text, defeater_created_at::text FROM ag_catalog.cypher('");
        prepare.append(self.graph_name.as_str());
        prepare.append("', $$ MATCH (a:Belief)-[:DEFEATS]->(b:Belief) WHERE (a.project = $project OR a.project IS NULL) AND (b.project = $project OR b.project IS NULL) RETURN a.id, b.id, a.created_at $$, $1) AS (defeater_id agtype, defeated_id agtype, defeater_created_at agtype)");
        let mut json: String = "{\"project\": \"".to_owned();
        json.append(project_text.as_str());
        json.append("\"}");
        prepared(stmt.as_str(), prepare, json.as_str())
    }

    /// Fetches one pattern.
    pub fn get_pattern(&self, id: u128) -> (sql: String)
        ensures
            sql@ == get_pattern_sql(self.graph(), id),
    {
        let id_text = write_id(id);
        let mut sql: String = PATTERN_SELECT.to_owned();
        sql.append(self.graph_name.as_str());
        sql.append("', $$\n  MATCH (p:Pattern {id: '");
        sql.append(id_text.as_str());
        sql.append("'})\n  RETURN ");
        sql.append(PATTERN_RETURN);
        sql.append("\n$$) ");
        sql.append(PATTERN_RETURN_COLUMNS);
        sql
    }

    /// Deletes a pattern with its edges.
    pub fn delete_pattern(&self, id: u128) -> (sql: String)
        ensures
            sql@ == delete_pattern_sql(self.graph(), id),
    {
        let id_text = write_id(id);
        let mut sql: String = "SELECT * FROM ag_catalog.cypher('".to_owned();
        sql.append(self.graph_name.as_str());
        sql.append("', $$\n  MATCH (p:Pattern {id: '");
        sql.append(id_text.as_str());
        sql.append("'})\n  DETACH DELETE p\n  RETURN 1\n$$) AS (ok ag_catalog.agtype)");
        sql
    }

    /// Fetches all patterns.
    pub fn list_patterns(&self) -> (sql: String)
        ensures
            sql@ == list_patterns_sql(self.graph()),
    {
        let mut sql: String = PATTERN_SELECT.to_owned();
        sql.append(self.graph_name.as_str());
        sql.append("', $$\n  MATCH (p:Pattern)\n  RETURN ");
        sql.append(PATTERN_RETURN);
        sql.append("\n$$) ");
        sql.append(PATTERN_RETURN_COLUMNS);
        sql
    }

    /// Fetches the patterns of a project and those of none.
    pub fn list_patterns_by_project(&self, project: &str, stmt_id: u128) -> (call: Prepared)
        ensures
            call@ == list_patterns_by_project_call(self.graph(), project@, stmt_id),
    {
        let project_text = json_esc(project);
        let stmt = statement_name("age_list_patterns_proj_", stmt_id);
        let mut prepare: String = "PREPARE ".to_owned();
        prepare.append(stmt.as_str());
        prepare.append("(agtype) AS SELECT id::text, situation::text, approach::text, activation_count::text, success_rate::text, created_at::text, project::text FROM ag_catalog.cypher('");
        prepare.append(self.graph_name.as_str());
        prepare.append("', $$ MATCH (p:Pattern) WHERE p.project = $project OR p.project IS NULL RETURN ");
        prepare.append(PATTERN_RETURN);
        prepare.append(" $$, $1) ");
        prepare.append(PATTERN_RETURN_COLUMNS);
        let mut json: String = "{\"project\": \"".to_owned();
        json.append(project_text.as_str());
        json.append("\"}");
        prepared(stmt.as_str(), prepare, json.as_str())
    }

    /// Inserts an edge of the given weight.
    pub fn insert_edge(&self, from_id: u128, to_id: u128, edge_type: EdgeType, weight: &str) -> (sql: String)
        ensures
            sql@ == insert_edge_sql(self.graph(), from_id, to_id, edge_type, weight@),
    {
        let from_id_text = write_id(from_id);
        let to_id_text = write_id(to_id);
        let mut sql: String = "SELECT * FROM ag_catalog.cypher('".to_owned();
        sql.append(self.graph_name.as_str());
        sql.append("', $$\n  MATCH (a:Belief {id: '");
        sql.append(from_id_text.as_str());
        sql.append("'}), (b:Belief {id: '");
        sql.append(to_id_text.as_str());
        sql.append("'})\n  CREATE (a)-[r:");
        sql.append(edge_type.as_str());
        sql.append(" {weight: ");
        sql.append(weight);
        sql.append("}]->(b)\n  RETURN r.weight\n$$) AS (weight ag_catalog.agtype)");
        sql
    }

    /// Inserts a contradiction, in both directions.
    pub fn insert_contradicts(&self, from_id: u128, to_id: u128, weight: &str) -> (sql: String)
        ensures
            sql@ == insert_contradicts_sql(self.graph(), from_id, to_id, weight@),
    {
        let from_id_text = write_id(from_id);
        let to_id_text = write_id(to_id);
        let mut sql: String = "SELECT * FROM ag_catalog.cypher('".to_owned();
        sql.append(self.graph_name.as_str());
        sql.append("', $$\n  MATCH (a:Belief {id: '");
        sql.append(from_id_text.as_str());
        sql.append("'}), (b:Belief {id: '");
        sql.append(to_id_text.as_str());
        sql.append("'})\n  CREATE (a)-[r1:CONTRADICTS {weight: ");
        sql.append(weight);
        sql.append("}]->(b)\n  CREATE (b)-[r2:CONTRADICTS {weight: ");
        sql.append(weight);
        sql.append("}]->(a)\n  RETURN r1.weight\n$$) AS (weight ag_catalog.agtype)");
        sql
    }

    /// Fetches the pairs that a contradicting edge connects.
    pub fn get_contradiction_pairs(&self) -> (sql: String)
        ensures
            sql@ == get_contradiction_pairs_sql(self.graph()),
    {
        let mut sql: String = "SELECT from_id::text, to_id::text\nFROM ag_catalog.cypher('".to_owned();
        sql.append(self.graph_name.as_str());
        sql.append("', $$\n  MATCH (a:Belief)-[:CONTRADICTS]->(b:Belief)\n  RETURN a.id, b.id\n$$) AS (from_id ag_catalog.agtype, to_id ag_catalog.agtype)");
        sql
    }

    /// Fetches the contradicting pairs of a project or of none.
    pub fn get_contradiction_pairs_by_project(&self, project: &str, stmt_id: u128) -> (call: Prepared)
        ensures
            call@ == get_contradiction_pairs_by_project_call(self.graph(), project@, stmt_id),
    {
        let project_text = json_esc(project);
        let stmt = statement_name("age_contra_pairs_proj_", stmt_id);
        let mut prepare: String = "PREPARE ".to_owned();
        prepare.append(stmt.as_str());
        prepare.append("(agtype) AS SELECT from_id::text, to_id::text FROM ag_catalog.cypher('");
        prepare.append(self.graph_name.as_str());
        prepare.append("', $$ MATCH (a:Belief)-[:CONTRADICTS]->(b:Belief) WHERE (a.project = $project OR a.project IS NULL) AND (b.project = $project OR b.project IS NULL) RETURN a.id, b.id $$, $1) AS (from_id agtype, to_id agtype)");
        let mut json: String = "{\"project\": \"".to_owned();
        json.append(project_text.as_str());
        json.append("\"}");
        prepared(stmt.as_str(), prepare, json.as_str())
    }

    /// Fetches the edges between any two of the given beliefs.
    pub fn get_edges_among(&self, ids: &[u128]) -> (sql: String)
        ensures
            sql@ == get_edges_among_sql(self.graph(), ids@),
    {
        let ids_text = write_id_list(ids);
        let mut sql: String = "SELECT from_id::text, to_id::text, label::text, weight::text\nFROM ag_catalog.cypher('".to_owned();
        sql.append(self.graph_name.as_str());
        sql.append("', $$\n  MATCH (a:Belief)-[r]->(b:Belief)\n  WHERE a.id IN [");
        sql.append(ids_text.as_str());
        sql.append("]\n  AND   b.id IN [");
        sql.append(ids_text.as_str());
        sql.append("]\n  RETURN a.id, b.id, type(r), r.weight\n$$) AS (from_id ag_catalog.agtype, to_id ag_catalog.agtype, label ag_catalog.agtype, weight ag_catalog.agtype)");
        sql
    }

    /// Fetches the edges of propagation that lead into the given beliefs, with the counts of their sources.
    pub fn get_incoming_edges(&self, ids: &[u128]) -> (sql: String)
        ensures
            sql@ == get_incoming_edges_sql(self.graph(), ids@),
    {
        let ids_text = write_id_list(ids);
        let mut sql: String = "SELECT from_id::text, to_id::text, label::text, weight::text, src_alpha::text, src_beta::text\nFROM ag_catalog.cypher('".to_owned();
        sql.append(self.graph_name.as_str());
        sql.append("', $$\n  MATCH (a:Belief)-[r:SUPPORTS]->(b:Belief)\n  WHERE b.id IN [");
        sql.append(ids_text.as_str());
        sql.append("]\n  RETURN a.id, b.id, type(r), r.weight, a.alpha, a.beta\n  UNION ALL\n  MATCH (a:Belief)-[r:DEFEATS]->(b:Belief)\n  WHERE b.id IN [");
        sql.append(ids_text.as_str());
        sql.append("]\n  RETURN a.id, b.id, type(r), r.weight, a.alpha, a.beta\n  UNION ALL\n  MATCH (a:Belief)-[r:CAUSES]->(b:Belief)\n  WHERE b.id IN [");
        sql.append(ids_text.as_str());
        sql.append("]\n  RETURN a.id, b.id, type(r), r.weight, a.alpha, a.beta\n$$) AS (from_id ag_catalog.agtype, to_id ag_catalog.agtype, label ag_catalog.agtype, weight ag_catalog.agtype, src_alpha ag_catalog.agtype, src_beta ag_catalog.agtype)");
        sql
    }

    /// Connects a chunk with the chunk that contains it.
    pub fn contain_chunk(&self, parent: u128, child: u128) -> (sql: String)
        ensures
            sql@ == contain_chunk_sql(self.graph(), parent, child),
    {
        let parent_text = write_id(parent);
        let child_text = write_id(child);
        let mut sql: String = "SELECT * FROM ag_catalog.cypher('".to_owned();
        sql.append(self.graph_name.as_str());
        sql.append("', $$\n  MATCH (p:DocumentChunk {id: '");
        sql.append(parent_text.as_str());
        sql.append("'}), (c:DocumentChunk {id: '");
        sql.append(child_text.as_str());
        sql.append("'})\n  CREATE (p)-[:CONTAINS]->(c)\n  RETURN 1\n$$) AS (ok ag_catalog.agtype)");
        sql
    }

    /// Lists the chunks of a document.
    pub fn get_chunk_ids_for_document(&self, path: &str, stmt_id: u128) -> (call: Prepared)
        ensures
            call@ == get_chunk_ids_for_document_call(self.graph(), path@, stmt_id),
    {
        let path_text = json_esc(path);
        let stmt = statement_name("age_chunk_ids_by_path_", stmt_id);
        let mut prepare: String = "PREPARE ".to_owned();
        prepare.append(stmt.as_str());
        prepare.append("(agtype) AS SELECT id::text FROM ag_catalog.cypher('");
        prepare.append(self.graph_name.as_str());
        prepare.append("', $$ MATCH (c:DocumentChunk) WHERE c.documentPath = $documentPath RETURN c.id $$, $1) AS (id agtype)");
        let mut json: String = "{\"documentPath\": \"".to_owned();
        json.append(path_text.as_str());
        json.append("\"}");
        prepared(stmt.as_str(), prepare, json.as_str())
    }

    /// Lists the chunks of a project.
    pub fn get_chunk_ids_by_project(&self, project: &str, stmt_id: u128) -> (call: Prepared)
        ensures
            call@ == get_chunk_ids_by_project_call(self.graph(), project@, stmt_id),
    {
        let project_text = json_esc(project);
        let stmt = statement_name("age_chunk_ids_by_proj_", stmt_id);
        let mut prepare: String = "PREPARE ".to_owned();
        prepare.append(stmt.as_str());
        prepare.append("(agtype) AS SELECT id::text FROM ag_catalog.cypher('");
        prepare.append(self.graph_name.as_str());
        prepare.append("', $$ MATCH (c:DocumentChunk) WHERE c.project = $project RETURN c.id $$, $1) AS (id agtype)");
        let mut json: String = "{\"project\": \"".to_owned();
        json.append(project_text.as_str());
        json.append("\"}");
        prepared(stmt.as_str(), prepare, json.as_str())
    }

    /// Deletes chunks with their edges.
    pub fn delete_document_chunks(&self, ids: &[u128]) -> (sql: String)
        ensures
            sql@ == delete_document_chunks_sql(self.graph(), ids@),
    {
        let ids_text = write_id_list(ids);
        let mut sql: String = "SELECT * FROM ag_catalog.cypher('".to_owned();
        sql.append(self.graph_name.as_str());
        sql.append("', $$\n  MATCH (c:DocumentChunk) WHERE c.id IN [");
        sql.append(ids_text.as_str());
        sql.append("]\n  DETACH DELETE c\n  RETURN 1\n$$) AS (ok ag_catalog.agtype)");
        sql
    }

    /// Lists chunks by falling similarity to a vector.
    pub fn query_chunks_by_vector(&self, limit: usize) -> (sql: String)
        ensures
            sql@ == query_chunks_by_vector_sql(limit),
    {
        let limit_text = limit_clause(limit);
        let mut sql: String = "SELECT chunk_id::text FROM public.chunk_embeddings ORDER BY embedding <=> $1 ".to_owned();
        sql.append(limit_text.as_str());
        sql
    }

    /// Lists some chunks by falling similarity to a vector.
    pub fn query_chunks_by_vector_filtered(&self, limit: usize) -> (sql: String)
        ensures
            sql@ == query_chunks_by_vector_filtered_sql(limit),
    {
        let limit_text = limit_clause(limit);
        let mut sql: String = "SELECT chunk_id::text FROM public.chunk_embeddings WHERE chunk_id = ANY($2) ORDER BY embedding <=> $1 ".to_owned();
        sql.append(limit_text.as_str());
        sql
    }

    /// Lists beliefs by falling similarity to a vector.
    pub fn query_beliefs_by_vector(&self, limit: usize) -> (sql: String)
        ensures
            sql@ == query_beliefs_by_vector_sql(limit),
    {
        let limit_text = limit_clause(limit);
        let mut sql: String = "SELECT belief_id::text FROM public.belief_embeddings ORDER BY embedding <=> $1 ".to_owned();
        sql.append(limit_text.as_str());
        sql
    }

    /// Lists some beliefs by falling similarity to a vector.
    pub fn query_beliefs_by_vector_filtered(&self, limit: usize) -> (sql: String)
        ensures
            sql@ == query_beliefs_by_vector_filtered_sql(limit),
    {
        let limit_text = limit_clause(limit);
        let mut sql: String = "SELECT belief_id::text FROM public.belief_embeddings WHERE belief_id = ANY($2) ORDER BY embedding <=> $1 ".to_owned();
        sql.append(limit_text.as_str());
        sql
    }

    /// Lists chunks by falling similarity to a vector, with the similarity.
    pub fn query_chunks_by_vector_scored(&self, limit: usize) -> (sql: String)
        ensures
            sql@ == query_chunks_by_vector_scored_sql(limit),
    {
        let limit_text = limit_clause(limit);
        let mut sql: String = "SELECT chunk_id::text, 1.0 - (embedding <=> $1) AS similarity FROM public.chunk_embeddings ORDER BY embedding <=> $1 ".to_owned();
        sql.append(limit_text.as_str());
        sql
    }

    /// Lists some chunks by falling similarity to a vector, with the similarity.
    pub fn query_chunks_by_vector_scored_filtered(&self, limit: usize) -> (sql: String)
        ensures
            sql@ == query_chunks_by_vector_scored_filtered_sql(limit),
    {
        let limit_text = limit_clause(limit);
        let mut sql: String = "SELECT chunk_id::text, 1.0 - (embedding <=> $1) AS similarity FROM public.chunk_embeddings WHERE chunk_id = ANY($2) ORDER BY embedding <=> $1 ".to_owned();
        sql.append(limit_text.as_str());
        sql
    }

    /// Lists beliefs by falling similarity to a vector, with the similarity.
    pub fn query_beliefs_by_vector_scored(&self, limit: usize) -> (sql: String)
        ensures
            sql@ == query_beliefs_by_vector_scored_sql(limit),
    {
        let limit_text = limit_clause(limit);
        let mut sql: String = "SELECT belief_id::text, 1.0 - (embedding <=> $1) AS similarity FROM public.belief_embeddings ORDER BY embedding <=> $1 ".to_owned();
        sql.append(limit_text.as_str());
        sql
    }

    /// Fetches one chunk.
    pub fn get_chunk_by_id(&self, id: u128) -> (sql: String)
        ensures
            sql@ == get_chunk_by_id_sql(self.graph(), id),
    {
        let id_text = write_id(id);
        let mut sql: String = "SELECT\n  id::text,\n  document_path,\n  section_path,\n  content::text,\n  parent_id,\n  project::text\nFROM ag_catalog.cypher('".to_owned();
        sql.append(self.graph_name.as_str());
        sql.append("', $$\n  MATCH (c:DocumentChunk {id: '");
        sql.append(id_text.as_str());
        sql.append("'})\n  RETURN c.id, c.documentPath, c.sectionPath, c.content, c.parentId, c.project\n$$) ");
        sql.append(CHUNK_RETURN_COLUMNS);
        sql
    }

    /// Lets a chunk ground a belief with the given weight.
    pub fn insert_evidence(&self, chunk_id: u128, belief_id: u128, weight: &str) -> (sql: String)
        ensures
            sql@ == insert_evidence_sql(self.graph(), chunk_id, belief_id, weight@),
    {
        let chunk_id_text = write_id(chunk_id);
        let belief_id_text = write_id(belief_id);
        let mut sql: String = "SELECT * FROM ag_catalog.cypher('".to_owned();
        sql.append(self.graph_name.as_str());
        sql.append("', $$\n  MATCH (c:DocumentChunk {id: '");
        sql.append(chunk_id_text.as_str());
        sql.append("'}), (b:Belief {id: '");
        sql.append(belief_id_text.as_str());
        sql.append("'})\n  CREATE (c)-[r:GROUNDS {weight: ");
        sql.append(weight);
        sql.append("}]->(b)\n  RETURN r.weight\n$$) AS (weight ag_catalog.agtype)");
        sql
    }

    /// Fetches, for each grounded belief, the sum of the weights.
    pub fn get_grounding_mass_all(&self) -> (sql: String)
        ensures
            sql@ == get_grounding_mass_all_sql(self.graph()),
    {
        let mut sql: String = "SELECT belief_id::text, total_weight::text\nFROM ag_catalog.cypher('".to_owned();
        sql.append(self.graph_name.as_str());
        sql.append("', $$\n  MATCH (c:DocumentChunk)-[r:GROUNDS]->(b:Belief)\n  RETURN b.id, sum(r.weight)\n$$) AS (belief_id ag_catalog.agtype, total_weight ag_catalog.agtype)");
        sql
    }

    /// Fetches the chunks that ground the given beliefs.
    pub fn get_evidence_for_beliefs(&self, ids: &[u128]) -> (sql: String)
        ensures
            sql@ == get_evidence_for_beliefs_sql(self.graph(), ids@),
    {
        let ids_text = write_id_list(ids);
        let mut sql: String = "SELECT belief_id::text, chunk_id::text, weight::text\nFROM ag_catalog.cypher('".to_owned();
        sql.append(self.graph_name.as_str());
        sql.append("', $$\n  MATCH (c:DocumentChunk)-[r:GROUNDS]->(b:Belief)\n  WHERE b.id IN [");
        sql.append(ids_text.as_str());
        sql.append("]\n  RETURN b.id, c.id, r.weight\n$$) AS (belief_id ag_catalog.agtype, chunk_id ag_catalog.agtype, weight ag_catalog.agtype)");
        sql
    }

    /// Removes a ground of a belief.
    pub fn delete_evidence(&self, chunk_id: u128, belief_id: u128) -> (sql: String)
        ensures
            sql@ == delete_evidence_sql(self.graph(), chunk_id, belief_id),
    {
        let chunk_id_text = write_id(chunk_id);
        let belief_id_text = write_id(belief_id);
        let mut sql: String = "SELECT * FROM ag_catalog.cypher('".to_owned();
        sql.append(self.graph_name.as_str());
        sql.append("', $$\n  MATCH (c:DocumentChunk {id: '");
        sql.append(chunk_id_text.as_str());
        sql.append("'})-[r:GROUNDS]->(b:Belief {id: '");
        sql.append(belief_id_text.as_str());
        sql.append("'})\n  DELETE r\n$$) AS (v ag_catalog.agtype)");
        sql
    }

    /// Starts the walk to all beliefs that paths of supporting, causing and defeating
    /// edges lead to. The neighbours that it asks for are those that
    /// `get_direct_downstream` fetches. The store cannot follow paths of mixed edge
    /// types in one statement.
    pub fn get_downstream_beliefs(&self, start_id: u128) -> (walk: Downstream)
        ensures
            walk.origin() == start_id,
            walk.results() == Seq::<Belief>::empty(),
            walk.record() == Map::<u128, Seq<Belief>>::empty(),
            walk.pending() == seq![start_id],
    {
        Downstream::from_belief(start_id)
    }

    /// Fetches the beliefs that one supporting, causing or defeating edge leads to.
    pub fn get_direct_downstream(&self, id: u128) -> (sql: String)
        ensures
            sql@ == get_direct_downstream_sql(self.graph(), id),
    {
        let id_text = write_id(id);
        let mut sql: String = BELIEF_SELECT.to_owned();
        sql.append(self.graph_name.as_str());
        sql.append("', $$\n  MATCH (s:Belief {id: '");
        sql.append(id_text.as_str());
        sql.append("'})-[:SUPPORTS]->(n:Belief)\n  RETURN ");
        sql.append(BELIEF_RETURN);
        sql.append("\n  UNION\n  MATCH (s:Belief {id: '");
        sql.append(id_text.as_str());
        sql.append("'})-[:CAUSES]->(n:Belief)\n  RETURN ");
        sql.append(BELIEF_RETURN);
        sql.append("\n  UNION\n  MATCH (s:Belief {id: '");
        sql.append(id_text.as_str());
        sql.append("'})-[:DEFEATS]->(n:Belief)\n  RETURN ");
        sql.append(BELIEF_RETURN);
        sql.append("\n$$) ");
        sql.append(BELIEF_RETURN_COLUMNS);
        sql
    }

    /// Fetches the beliefs that one supporting or causing edge leads to.
    pub fn get_related_beliefs(&self, id: u128) -> (sql: String)
        ensures
            sql@ == get_related_beliefs_sql(self.graph(), id),
    {
        let id_text = write_id(id);
        let mut sql: String = BELIEF_SELECT.to_owned();
        sql.append(self.graph_name.as_str());
        sql.append("', $$\n  MATCH (s:Belief {id: '");
        sql.append(id_text.as_str());
        sql.append("'})-[:SUPPORTS]->(n:Belief)\n  RETURN ");
        sql.append(BELIEF_RETURN);
        sql.append("\n  UNION\n  MATCH (s:Belief {id: '");
        sql.append(id_text.as_str());
        sql.append("'})-[:CAUSES]->(n:Belief)\n  RETURN ");
        sql.append(BELIEF_RETURN);
        sql.append("\n$$) ");
        sql.append(BELIEF_RETURN_COLUMNS);
        sql
    }

    /// Fetches the beliefs of a project, or of none, that one supporting,
    /// causing or defeating edge leads to.
    pub fn get_direct_downstream_by_project(&self, id: u128, project: &str, stmt_id: u128) -> (call: Prepared)
        ensures
            call@ == get_direct_downstream_by_project_call(self.graph(), id, project@, stmt_id),
    {
        let id_text = write_id(id);
        let project_text = json_esc(project);
        let stmt = statement_name("age_direct_downstream_proj_", stmt_id);
        let mut prepare: String = "PREPARE ".to_owned();
        prepare.append(stmt.as_str());
        prepare.append("(agtype) AS SELECT ");
        prepare.append(BELIEF_INLINE);
        prepare.append("FROM ag_catalog.cypher('");
        prepare.append(self.graph_name.as_str());
        prepare.append("', $$ MATCH (s:Belief {id: '");
        prepare.append(id_text.as_str());
        prepare.append("'})-[:SUPPORTS]->(n:Belief) WHERE n.project = $project OR n.project IS NULL RETURN ");
        prepare.append(BELIEF_RETURN);
        prepare.append(" UNION MATCH (s:Belief {id: '");
        prepare.append(id_text.as_str());
        prepare.append("'})-[:CAUSES]->(n:Belief) WHERE n.project = $project OR n.project IS NULL RETURN ");
        prepare.append(BELIEF_RETURN);
        prepare.append(" UNION MATCH (s:Belief {id: '");
        prepare.append(id_text.as_str());
        prepare.append("'})-[:DEFEATS]->(n:Belief) WHERE n.project = $project OR n.project IS NULL RETURN ");
        prepare.append(BELIEF_RETURN);
        prepare.append(" $$, $1) ");
        prepare.append(BELIEF_RETURN_COLUMNS);
        let mut json: String = "{\"project\": \"".to_owned();
        json.append(project_text.as_str());
        json.append("\"}");
        prepared(stmt.as_str(), prepare, json.as_str())
    }

    /// Fetches the beliefs of a project, or of none, that one supporting or
    /// causing edge leads to.
    pub fn get_related_beliefs_by_project(&self, id: u128, project: &str, stmt_id: u128) -> (call: Prepared)
        ensures
            call@ == get_related_beliefs_by_project_call(self.graph(), id, project@, stmt_id),
    {
        let id_text = write_id(id);
        let project_text = json_esc(project);
        let stmt = statement_name("age_related_proj_", stmt_id);
        let mut prepare: String = "PREPARE ".to_owned();
        prepare.append(stmt.as_str());
        prepare.append("(agtype) AS SELECT ");
        prepare.append(BELIEF_INLINE);
        prepare.append("FROM ag_catalog.cypher('");
        prepare.append(self.graph_name.as_str());
        prepare.append("', $$ MATCH (s:Belief {id: '");
        prepare.append(id_text.as_str());
        prepare.append("'})-[:SUPPORTS]->(n:Belief) WHERE n.project = $project OR n.project IS NULL RETURN ");
        prepare.append(BELIEF_RETURN);
        prepare.append(" UNION MATCH (s:Belief {id: '");
        prepare.append(id_text.as_str());
        prepare.append("'})-[:CAUSES]->(n:Belief) WHERE n.project = $project OR n.project IS NULL RETURN ");
        prepare.append(BELIEF_RETURN);
        prepare.append(" $$, $1) ");
        prepare.append(BELIEF_RETURN_COLUMNS);
        let mut json: String = "{\"project\": \"".to_owned();
        json.append(project_text.as_str());
        json.append("\"}");
        prepared(stmt.as_str(), prepare, json.as_str())
    }

    /// Fetches the beliefs that up to ten causing edges lead to.
    pub fn get_causal_downstream_beliefs(&self, id: u128) -> (sql: String)
        ensures
            sql@ == get_causal_downstream_beliefs_sql(self.graph(), id),
    {
        let id_text = write_id(id);
        let mut sql: String = BELIEF_SELECT.to_owned();
        sql.append(self.graph_name.as_str());
        sql.append("', $$\n  MATCH (s:Belief {id: '");
        sql.append(id_text.as_str());
        sql.append("'})-[:CAUSES*1..10]->(n:Belief)\n  RETURN ");
        sql.append(BELIEF_RETURN);
        sql.append("\n$$) ");
        sql.append(BELIEF_RETURN_COLUMNS);
        sql
    }
}

/// The decimal texts of the numbers of a belief.
#[derive(Debug)]
pub struct BeliefNumbers {
    pub probability: String,
    pub confidence: String,
    pub alpha: String,
    pub beta: String,
    pub alpha0: String,
    pub beta0: String,
}

/// The property of a project in a JSON object; none where there is no project.
pub open spec fn project_property(project: Option<Seq<char>>) -> Seq<char> {
    match project {
        Some(p) => ", \"project\": \""@ + json_escaped(p) + "\""@,
        None => ""@,
    }
}

/// The property of a project in a Cypher pattern.
pub open spec fn project_binding(project: Option<Seq<char>>) -> Seq<char> {
    if project is Some {
        ", project: $project"@
    } else {
        ""@
    }
}

fn write_project_property(project: &Option<String>) -> (r: String)
    ensures
        r@ == project_property(optional_text(*project)),
{
    match project {
        Some(p) => {
            let escaped = json_esc(p.as_str());
            let mut r: String = ", \"project\": \"".to_owned();
            r.append(escaped.as_str());
            r.append("\"");
            r
        },
        None => "".to_owned(),
    }
}

fn write_project_binding(project: &Option<String>) -> (r: &'static str)
    ensures
        r@ == project_binding(optional_text(*project)),
{
    match project {
        Some(_) => ", project: $project",
        None => "",
    }
}

/// The JSON object of a belief.
pub open spec fn belief_json(b: Belief) -> Seq<char> {
    "{\"id\": \""@ + id_text(b.id) + "\", \"content\": \""@ + json_escaped(b.content@)
        + "\", \"created_at\": \""@ + rfc3339_text(
        b.created_at.seconds(),
        b.created_at.subsec_nanos(),
    ) + "\", \"last_activated_at\": \""@ + rfc3339_text(
        b.last_activated_at.seconds(),
        b.last_activated_at.subsec_nanos(),
    ) + "\", \"memory_type\": \""@ + b.memory_type.name() + "\""@ + project_property(
        optional_text(b.project),
    ) + "}"@
}

/// The insertion of a belief.
pub open spec fn insert_belief_call(
    graph: Seq<char>,
    b: Belief,
    numbers: BeliefNumbers,
) -> PreparedModel {
    let stmt = "age_ins_"@ + simple_id_text(b.id);
    prepared_model(
        stmt,
        "PREPARE "@ + stmt + "(agtype) AS SELECT * FROM ag_catalog.cypher('"@ + graph
            + "', $$ CREATE (n:Belief {id: $id, content: $content, probability: "@
            + numbers.probability@ + ", confidence: "@ + numbers.confidence@ + ", alpha: "@
            + numbers.alpha@ + ", beta: "@ + numbers.beta@ + ", alpha0: "@ + numbers.alpha0@
            + ", beta0: "@ + numbers.beta0@
            + ", created_at: $created_at, last_activated_at: $last_activated_at, memory_type: $memory_type"@
            + project_binding(optional_text(b.project))
            + "}) RETURN n.id $$, $1) AS (id ag_catalog.agtype)"@,
        belief_json(b),
    )
}

/// The JSON object of a pattern.
pub open spec fn pattern_json(p: Pattern) -> Seq<char> {
    "{\"id\": \""@ + id_text(p.id) + "\", \"situation\": \""@ + json_escaped(p.situation@)
        + "\", \"approach\": \""@ + json_escaped(p.approach@) + "\", \"created_at\": \""@
        + rfc3339_text(p.created_at.seconds(), p.created_at.subsec_nanos()) + "\""@
        + project_property(optional_text(p.project)) + "}"@
}

/// The insertion of a pattern.
pub open spec fn insert_pattern_call(
    graph: Seq<char>,
    p: Pattern,
    success_rate: Seq<char>,
) -> PreparedModel {
    let stmt = "age_ins_pat_"@ + simple_id_text(p.id);
    prepared_model(
        stmt,
        "PREPARE "@ + stmt + "(agtype) AS SELECT * FROM ag_catalog.cypher('"@ + graph
            + "', $$ CREATE (p:Pattern {id: $id, situation: $situation, approach: $approach, activation_count: "@
            + decimal(p.activation_count as nat) + ", success_rate: "@ + success_rate
            + ", created_at: $created_at"@ + project_binding(optional_text(p.project))
            + "}) RETURN p.id $$, $1) AS (id ag_catalog.agtype)"@,
        pattern_json(p),
    )
}

/// Texts as the elements of a JSON array.
pub open spec fn json_elements(texts: Seq<Seq<char>>) -> Seq<char>
    decreases texts.len(),
{
    if texts.len() == 0 {
        Seq::empty()
    } else if texts.len() == 1 {
        "\""@ + json_escaped(texts[0]) + "\""@
    } else {
        json_elements(texts.drop_last()) + ", "@ + ("\""@ + json_escaped(texts.last()) + "\""@)
    }
}

fn write_json_elements(texts: &Vec<String>) -> (r: String)
    ensures
        r@ == json_elements(texts_view(texts@)),
{
    let n: usize = texts.len();
    let mut r: String = String::new();
    let mut i: usize = 0;
    let ghost model = texts_view(texts@);
    while i < n
        invariant
            i <= n,
            n == texts@.len(),
            model == texts_view(texts@),
            r@ == json_elements(model.take(i as int)),
        decreases n - i,
    {
        let escaped = json_esc(texts[i].as_str());
        let mut quoted: String = "\"".to_owned();
        quoted.append(escaped.as_str());
        quoted.append("\"");
        assert(model.take(i + 1).drop_last() =~= model.take(i as int));
        if i == 0 {
            r = quoted;
        } else {
            r.append(", ");
            r.append(quoted.as_str());
        }
        i = i + 1;
    }
    assert(model.take(n as int) =~= model);
    r
}

/// The property of a parent in a JSON object.
pub open spec fn parent_property(parent: Option<u128>) -> Seq<char> {
    match parent {
        Some(p) => ", \"parentId\": \""@ + id_text(p) + "\""@,
        None => ""@,
    }
}

/// The property of a parent in a Cypher pattern.
pub open spec fn parent_binding(parent: Option<u128>) -> Seq<char> {
    if parent is Some {
        ", parentId: $parentId"@
    } else {
        ""@
    }
}

fn write_parent_property(parent: Option<u128>) -> (r: String)
    ensures
        r@ == parent_property(parent),
{
    match parent {
        Some(p) => {
            let id = write_id(p);
            let mut r: String = ", \"parentId\": \"".to_owned();
            r.append(id.as_str());
            r.append("\"");
            r
        },
        None => "".to_owned(),
    }
}

fn write_parent_binding(parent: Option<u128>) -> (r: &'static str)
    ensures
        r@ == parent_binding(parent),
{
    match parent {
        Some(_) => ", parentId: $parentId",
        None => "",
    }
}

/// The JSON object of a chunk.
pub open spec fn chunk_json(c: DocumentChunk) -> Seq<char> {
    "{\"id\": \""@ + id_text(c.id) + "\", \"documentPath\": \""@ + json_escaped(c.document_path@)
        + "\", \"sectionPath\": ["@ + json_elements(texts_view(c.section_path@))
        + "], \"content\": \""@ + json_escaped(c.content@) + "\""@ + parent_property(c.parent_id)
        + project_property(optional_text(c.project)) + "}"@
}

/// The insertion of a chunk.
pub open spec fn insert_document_chunk_call(graph: Seq<char>, c: DocumentChunk) -> PreparedModel {
    let stmt = "age_ins_chunk_"@ + simple_id_text(c.id);
    prepared_model(
        stmt,
        "PREPARE "@ + stmt + "(agtype) AS SELECT * FROM ag_catalog.cypher('"@ + graph
            + "', $$ CREATE (c:DocumentChunk {id: $id, documentPath: $documentPath, sectionPath: $sectionPath, content: $content"@
            + parent_binding(c.parent_id) + project_binding(optional_text(c.project))
            + "}) RETURN c.id $$, $1) AS (id ag_catalog.agtype)"@,
        chunk_json(c),
    )
}

/// The counts of a belief, by name.
pub open spec fn named_counts(b: Belief) -> Seq<(Seq<char>, Binary64)> {
    seq![("alpha"@, b.alpha), ("beta"@, b.beta), ("alpha0"@, b.alpha0), ("beta0"@, b.beta0)]
}

/// The decimal texts of a pair of counts, and of the mean and the confidence
/// that follow from them.
#[derive(Debug)]
pub struct CountTexts {
    pub alpha: String,
    pub beta: String,
    pub mean: String,
    pub confidence: String,
}

impl AgeStore {
    /// Inserts a belief. Its numbers are given as texts, too.
    pub fn insert_belief(&self, belief: &Belief, numbers: &BeliefNumbers) -> (r: Result<
        Prepared,
        StoreError,
    >)
        ensures
            match r {
                Ok(call) => all_finite(named_counts(*belief)) && call@ == insert_belief_call(
                    self.graph(),
                    *belief,
                    *numbers,
                ),
                Err(e) => names_first_infinite(e, "insert_belief"@, named_counts(*belief)),
            },
    {
        let counts: [(&str, Binary64); 4] = [
            ("alpha", belief.alpha),
            ("beta", belief.beta),
            ("alpha0", belief.alpha0),
            ("beta0", belief.beta0),
        ];
        assert(fields_view(counts@) =~= named_counts(*belief));
        match ensure_finite("insert_belief", counts.as_slice()) {
            Ok(_) => {},
            Err(e) => {
                return Err(e);
            },
        }
        let stmt = statement_name("age_ins_", belief.id);
        let mut prepare: String = "PREPARE ".to_owned();
        prepare.append(stmt.as_str());
        prepare.append("(agtype) AS SELECT * FROM ag_catalog.cypher('");
        prepare.append(self.graph_name.as_str());
        prepare.append("', $$ CREATE (n:Belief {id: $id, content: $content, probability: ");
        prepare.append(numbers.probability.as_str());
        prepare.append(", confidence: ");
        prepare.append(numbers.confidence.as_str());
        prepare.append(", alpha: ");
        prepare.append(numbers.alpha.as_str());
        prepare.append(", beta: ");
        prepare.append(numbers.beta.as_str());
        prepare.append(", alpha0: ");
        prepare.append(numbers.alpha0.as_str());
        prepare.append(", beta0: ");
        prepare.append(numbers.beta0.as_str());
        prepare.append(
            ", created_at: $created_at, last_activated_at: $last_activated_at, memory_type: $memory_type",
        );
        prepare.append(write_project_binding(&belief.project));
        prepare.append("}) RETURN n.id $$, $1) AS (id ag_catalog.agtype)");
        let id = write_id(belief.id);
        let content = json_esc(belief.content.as_str());
        let created_at = write_rfc3339(&belief.created_at);
        let last_activated_at = write_rfc3339(&belief.last_activated_at);
        let project = write_project_property(&belief.project);
        let mut json: String = "{\"id\": \"".to_owned();
        json.append(id.as_str());
        json.append("\", \"content\": \"");
        json.append(content.as_str());
        json.append("\", \"created_at\": \"");
        json.append(created_at.as_str());
        json.append("\", \"last_activated_at\": \"");
        json.append(last_activated_at.as_str());
        json.append("\", \"memory_type\": \"");
        json.append(belief.memory_type.as_str());
        json.append("\"");
        json.append(project.as_str());
        json.append("}");
        Ok(prepared(stmt.as_str(), prepare, json.as_str()))
    }

    /// Inserts a pattern. Its success rate is given as a text, too.
    pub fn insert_pattern(&self, pattern: &Pattern, success_rate: &str) -> (call: Prepared)
        ensures
            call@ == insert_pattern_call(self.graph(), *pattern, success_rate@),
    {
        let stmt = statement_name("age_ins_pat_", pattern.id);
        let count = write_decimal(pattern.activation_count as u64);
        let mut prepare: String = "PREPARE ".to_owned();
        prepare.append(stmt.as_str());
        prepare.append("(agtype) AS SELECT * FROM ag_catalog.cypher('");
        prepare.append(self.graph_name.as_str());
        prepare.append(
            "', $$ CREATE (p:Pattern {id: $id, situation: $situation, approach: $approach, activation_count: ",
        );
        prepare.append(count.as_str());
        prepare.append(", success_rate: ");
        prepare.append(success_rate);
        prepare.append(", created_at: $created_at");
        prepare.append(write_project_binding(&pattern.project));
        prepare.append("}) RETURN p.id $$, $1) AS (id ag_catalog.agtype)");
        let id = write_id(pattern.id);
        let situation = json_esc(pattern.situation.as_str());
        let approach = json_esc(pattern.approach.as_str());
        let created_at = write_rfc3339(&pattern.created_at);
        let project = write_project_property(&pattern.project);
        let mut json: String = "{\"id\": \"".to_owned();
        json.append(id.as_str());
        json.append("\", \"situation\": \"");
        json.append(situation.as_str());
        json.append("\", \"approach\": \"");
        json.append(approach.as_str());
        json.append("\", \"created_at\": \"");
        json.append(created_at.as_str());
        json.append("\"");
        json.append(project.as_str());
        json.append("}");
        prepared(stmt.as_str(), prepare, json.as_str())
    }

    /// Inserts a chunk. Where it has a parent, `contain_chunk` connects the two
    /// afterwards.
    pub fn insert_document_chunk(&self, chunk: &DocumentChunk) -> (call: Prepared)
        ensures
            call@ == insert_document_chunk_call(self.graph(), *chunk),
    {
        let stmt = statement_name("age_ins_chunk_", chunk.id);
        let mut prepare: String = "PREPARE ".to_owned();
        prepare.append(stmt.as_str());
        prepare.append("(agtype) AS SELECT * FROM ag_catalog.cypher('");
        prepare.append(self.graph_name.as_str());
        prepare.append(
            "', $$ CREATE (c:DocumentChunk {id: $id, documentPath: $documentPath, sectionPath: $sectionPath, content: $content",
        );
        prepare.append(write_parent_binding(chunk.parent_id));
        prepare.append(write_project_binding(&chunk.project));
        prepare.append("}) RETURN c.id $$, $1) AS (id ag_catalog.agtype)");
        let id = write_id(chunk.id);
        let path = json_esc(chunk.document_path.as_str());
        let sections = write_json_elements(&chunk.section_path);
        let content = json_esc(chunk.content.as_str());
        let parent = write_parent_property(chunk.parent_id);
        let project = write_project_property(&chunk.project);
        let mut json: String = "{\"id\": \"".to_owned();
        json.append(id.as_str());
        json.append("\", \"documentPath\": \"");
        json.append(path.as_str());
        json.append("\", \"sectionPath\": [");
        json.append(sections.as_str());
        json.append("], \"content\": \"");
        json.append(content.as_str());
        json.append("\"");
        json.append(parent.as_str());
        json.append(project.as_str());
        json.append("}");
        prepared(stmt.as_str(), prepare, json.as_str())
    }

    /// Writes the counts of a belief.
    pub fn update_belief_beta_sql(
        &self,
        id: u128,
        alpha: Binary64,
        beta: Binary64,
        texts: &CountTexts,
    ) -> (r: Result<String, StoreError>)
        ensures
            match r {
                Ok(sql) => {
                    &&& all_finite(seq![("alpha"@, alpha), ("beta"@, beta)])
                    &&& sql@ == set_counts_sql(
                        self.graph(),
                        id,
                        texts.alpha@,
                        texts.beta@,
                        texts.mean@,
                        texts.confidence@,
                    )
                },
                Err(e) => names_first_infinite(
                    e,
                    "update_belief_beta"@,
                    seq![("alpha"@, alpha), ("beta"@, beta)],
                ),
            },
    {
        let counts: [(&str, Binary64); 2] = [("alpha", alpha), ("beta", beta)];
        assert(fields_view(counts@) =~= seq![("alpha"@, alpha), ("beta"@, beta)]);
        match ensure_finite("update_belief_beta", counts.as_slice()) {
            Ok(_) => Ok(
                self.set_counts(
                    id,
                    texts.alpha.as_str(),
                    texts.beta.as_str(),
                    texts.mean.as_str(),
                    texts.confidence.as_str(),
                ),
            ),
            Err(e) => Err(e),
        }
    }
}

} // verus!
