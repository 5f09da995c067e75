//! Rows of the graph store, decoded into beliefs, patterns, chunks and edges.
//!
//! A column of text is given as it was read. A column that holds a number is
//! given as the number, or as missing or malformed.
use vstd::prelude::*;
use vstd::string::*;

use crate::binary64::{distance, plus, Binary64, INFINITY_BITS};
use crate::documents::{texts_view, DocumentChunk};
use crate::graph::{
    confidence_of, evidence_mass, first_refused_count, is_count, is_mass, is_probability,
    law_new_belief_agrees_with_counts, mass_of_grounds, mean_of, prior_counts, prior_from,
    refused_pair, stored_mean, unsigned_zero, without_zero_sign, Belief, EdgeType, GraphError,
    MemoryType, Pattern, Probability,
};
use crate::ids::{id_text, known_id, parse_id};
use crate::inference::{lemma_units_order, settled_units, EdgeTuple};
use crate::service::IncomingEdge;
use crate::store::json_elements;
use crate::text::{copy_optional, optional_text, parse_whole, whole_value};
use crate::time::{lemma_same_instant, parsed_rfc3339, read_rfc3339, rfc3339_text, Timestamp};

verus! {

/// A column that should hold a number.
#[derive(Clone, Copy, Debug, PartialEq, Eq, Structural)]
pub enum NumberColumn {
    Missing,
    Malformed,
    Number(Binary64),
}

/// Why a row could not be decoded.
#[derive(Debug)]
pub enum RowError {
    /// The named column is missing.
    MissingColumn(String),
    /// The named column holds something else than it should.
    BadColumn(String),
    /// The values are refused by the graph.
    Refused(GraphError),
}

/// The columns of a belief.
#[derive(Debug)]
pub struct BeliefRow {
    pub id: Option<String>,
    pub content: Option<String>,
    pub probability: NumberColumn,
    pub confidence: NumberColumn,
    pub alpha: NumberColumn,
    pub beta: NumberColumn,
    pub alpha0: NumberColumn,
    pub beta0: NumberColumn,
    pub created_at: Option<String>,
    pub last_activated_at: Option<String>,
    pub memory_type: Option<String>,
    pub project: Option<String>,
}

/// The count in a column, or `other` where there is none. Negative zero counts as zero.
pub open spec fn count_or(column: NumberColumn, other: Binary64) -> Binary64 {
    match column {
        NumberColumn::Number(v) => unsigned_zero(v),
        _ => other,
    }
}

fn take_count(column: NumberColumn, other: Binary64) -> (r: Binary64)
    ensures
        r == count_or(column, other),
{
    match column {
        NumberColumn::Number(v) => without_zero_sign(v),
        _ => other,
    }
}

/// The first required column of a belief that is missing.
pub open spec fn missing_belief_column(row: BeliefRow) -> Option<Seq<char>> {
    if row.id is None {
        Some("id"@)
    } else if row.content is None {
        Some("content"@)
    } else if row.probability == NumberColumn::Missing {
        Some("probability"@)
    } else if row.confidence == NumberColumn::Missing {
        Some("confidence"@)
    } else if row.created_at is None {
        Some("created_at"@)
    } else if row.last_activated_at is None {
        Some("last_activated_at"@)
    } else {
        None
    }
}

/// The first column of a belief that cannot be read.
pub open spec fn bad_belief_column(row: BeliefRow) -> Option<Seq<char>> {
    if known_id(row.id->0@) is None {
        Some("id"@)
    } else if row.probability == NumberColumn::Malformed {
        Some("probability"@)
    } else if row.confidence == NumberColumn::Malformed {
        Some("confidence"@)
    } else if parsed_rfc3339(row.created_at->0@) is None {
        Some("created_at"@)
    } else if parsed_rfc3339(row.last_activated_at->0@) is None {
        Some("last_activated_at"@)
    } else {
        None
    }
}

/// The prior of the row has to be derived from probability and confidence.
pub open spec fn needs_prior(row: BeliefRow) -> bool {
    !(row.alpha0 is Number) || !(row.beta0 is Number)
}

/// The counts that the row gives; zero stands for those that the prior gives.
pub open spec fn given_counts(row: BeliefRow) -> Seq<Binary64> {
    let alpha0 = count_or(row.alpha0, Binary64 { bits: 0 });
    let beta0 = count_or(row.beta0, Binary64 { bits: 0 });
    seq![count_or(row.alpha, alpha0), count_or(row.beta, beta0), alpha0, beta0]
}

/// The memory type of that name; a fact where there is none.
pub open spec fn stored_memory_type(name: Option<Seq<char>>, t: MemoryType) -> bool {
    match name {
        Some(s) => s == t.name() || (t == MemoryType::Fact && forall|other: MemoryType|
            s != #[trigger] other.name()),
        None => t == MemoryType::Fact,
    }
}

/// The texts and counts of a belief are those of the row.
pub open spec fn belief_matches(b: Belief, row: BeliefRow) -> bool {
    &&& known_id(row.id->0@) == Some(b.id)
    &&& b.content@ == row.content->0@
    &&& parsed_rfc3339(row.created_at->0@) == Some(
        (b.created_at.seconds(), b.created_at.subsec_nanos()),
    )
    &&& parsed_rfc3339(row.last_activated_at->0@) == Some(
        (b.last_activated_at.seconds(), b.last_activated_at.subsec_nanos()),
    )
    &&& stored_memory_type(optional_text(row.memory_type), b.memory_type)
    &&& optional_text(b.project) == optional_text(row.project)
    &&& b.alpha0 == count_or(row.alpha0, b.alpha0)
    &&& b.beta0 == count_or(row.beta0, b.beta0)
    &&& b.alpha == count_or(row.alpha, b.alpha0)
    &&& b.beta == count_or(row.beta, b.beta0)
    &&& needs_prior(row) ==> {
        let p = row.probability->Number_0;
        let c = row.confidence->Number_0;
        let counts = prior_counts(p.value() as nat, c.value() as nat);
        &&& !(row.alpha0 is Number) ==> b.alpha0.units() == counts.0
        &&& !(row.beta0 is Number) ==> b.beta0.units() == counts.1
    }
    &&& b.probability.units() == mean_of(b.alpha.units(), b.beta.units())
    &&& b.confidence.units() == confidence_of(plus(b.alpha.units(), b.beta.units()))
}

/// The row holds the counts of a belief.
pub open spec fn holds_counts(row: BeliefRow, b: Belief) -> bool {
    &&& row.alpha == NumberColumn::Number(b.alpha)
    &&& row.beta == NumberColumn::Number(b.beta)
    &&& row.alpha0 == NumberColumn::Number(b.alpha0)
    &&& row.beta0 == NumberColumn::Number(b.beta0)
    &&& is_count(b.alpha) && is_count(b.beta) && is_count(b.alpha0) && is_count(b.beta0)
    &&& b.agrees_with_counts()
}

/// The row holds no counts, and those of the belief are the ones that follow from
/// its probability and confidence.
pub open spec fn implies_counts(row: BeliefRow, b: Belief) -> bool {
    &&& !(row.alpha is Number) && !(row.beta is Number)
    &&& !(row.alpha0 is Number) && !(row.beta0 is Number)
    &&& b.starts_from(row.probability->Number_0, row.confidence->Number_0)
}

/// The column holds a probability.
pub open spec fn holds_probability(column: NumberColumn, p: Probability) -> bool {
    column is Number && is_probability(column->Number_0) && column->Number_0.value() == p.units()
}

/// The row holds what is written for a belief: its texts, its probability and
/// confidence, and its counts, which may be left out where they follow from the
/// former.
pub open spec fn row_of_belief(row: BeliefRow, b: Belief) -> bool {
    &&& row.id is Some && row.id->0@ == id_text(b.id)
    &&& row.content is Some && row.content->0@ == b.content@
    &&& holds_probability(row.probability, b.probability)
    &&& holds_probability(row.confidence, b.confidence)
    &&& holds_counts(row, b) || implies_counts(row, b)
    &&& row.created_at is Some && row.created_at->0@ == rfc3339_text(
        b.created_at.seconds(),
        b.created_at.subsec_nanos(),
    )
    &&& is_common_instant(b.created_at)
    &&& row.last_activated_at is Some && row.last_activated_at->0@ == rfc3339_text(
        b.last_activated_at.seconds(),
        b.last_activated_at.subsec_nanos(),
    )
    &&& is_common_instant(b.last_activated_at)
    &&& row.memory_type is Some && row.memory_type->0@ == b.memory_type.name()
    &&& optional_text(row.project) == optional_text(b.project)
}

/// A point in time of the years 0 to 9999 outside a leap second.
pub open spec fn is_common_instant(t: Timestamp) -> bool {
    -62_167_219_200 <= t.seconds() <= 253_402_300_799 && t.subsec_nanos() < 1_000_000_000
}

/// Two beliefs agree in everything that is stored: probability and confidence
/// within the number nearest to `10^-9`, the rest exactly.
pub open spec fn same_stored(a: Belief, b: Belief) -> bool {
    &&& a.id == b.id
    &&& distance(a.probability.units(), b.probability.units()) <= settled_units()
    &&& distance(a.confidence.units(), b.confidence.units()) <= settled_units()
    &&& a.content@ == b.content@
    &&& a.alpha == b.alpha && a.beta == b.beta && a.alpha0 == b.alpha0 && a.beta0 == b.beta0
    &&& a.created_at == b.created_at
    &&& a.last_activated_at == b.last_activated_at
    &&& a.memory_type == b.memory_type
    &&& optional_text(a.project) == optional_text(b.project)
}

/// Decodes a belief. What was written for a belief is read back: probability and
/// confidence are derived from the counts, the rest is as it was written.
pub fn decode_belief(row: &BeliefRow) -> (r: Result<Belief, RowError>)
    ensures
        match r {
            Ok(b) => {
                &&& missing_belief_column(*row) is None
                &&& bad_belief_column(*row) is None
                &&& needs_prior(*row) ==> is_probability(row.probability->Number_0)
                    && is_probability(row.confidence->Number_0)
                &&& first_refused_count(given_counts(*row)) is None
                &&& belief_matches(b, *row)
                &&& is_count(b.alpha) && is_count(b.beta) && is_count(b.alpha0) && is_count(b.beta0)
                &&& b.agrees_with_counts()
            },
            Err(RowError::MissingColumn(c)) => missing_belief_column(*row) == Some(c@),
            Err(RowError::BadColumn(c)) => missing_belief_column(*row) is None
                && bad_belief_column(*row) == Some(c@),
            Err(RowError::Refused(e)) => {
                &&& missing_belief_column(*row) is None
                &&& bad_belief_column(*row) is None
                &&& if needs_prior(*row) && !is_probability(row.probability->Number_0) {
                    e == GraphError::ProbabilityOutOfRange(row.probability->Number_0)
                } else if needs_prior(*row) && !is_probability(row.confidence->Number_0) {
                    e == GraphError::ProbabilityOutOfRange(row.confidence->Number_0)
                } else {
                    first_refused_count(given_counts(*row)) == Some(e)
                }
            },
        },
        forall|b: Belief| #[trigger] row_of_belief(*row, b) ==> r is Ok && same_stored(r->Ok_0, b),
{
    let id_column = match &row.id {
        Some(s) => s,
        None => return Err(RowError::MissingColumn("id".to_owned())),
    };
    let content = match &row.content {
        Some(s) => s,
        None => return Err(RowError::MissingColumn("content".to_owned())),
    };
    if row.probability == NumberColumn::Missing {
        return Err(RowError::MissingColumn("probability".to_owned()));
    }
    if row.confidence == NumberColumn::Missing {
        return Err(RowError::MissingColumn("confidence".to_owned()));
    }
    let created_column = match &row.created_at {
        Some(s) => s,
        None => return Err(RowError::MissingColumn("created_at".to_owned())),
    };
    let activated_column = match &row.last_activated_at {
        Some(s) => s,
        None => return Err(RowError::MissingColumn("last_activated_at".to_owned())),
    };
    let id: u128 = match parse_id(id_column.as_str()) {
        Ok(id) => id,
        Err(_) => return Err(RowError::BadColumn("id".to_owned())),
    };
    let probability = match row.probability {
        NumberColumn::Number(v) => v,
        _ => return Err(RowError::BadColumn("probability".to_owned())),
    };
    let confidence = match row.confidence {
        NumberColumn::Number(v) => v,
        _ => return Err(RowError::BadColumn("confidence".to_owned())),
    };
    let created_at = match read_rfc3339(created_column.as_str()) {
        Some(t) => t,
        None => return Err(RowError::BadColumn("created_at".to_owned())),
    };
    let last_activated_at = match read_rfc3339(activated_column.as_str()) {
        Some(t) => t,
        None => return Err(RowError::BadColumn("last_activated_at".to_owned())),
    };
    let (alpha0, beta0) = match (row.alpha0, row.beta0) {
        (NumberColumn::Number(a), NumberColumn::Number(b)) => (
            take_count(row.alpha0, a),
            take_count(row.beta0, b),
        ),
        _ => {
            let p = match Probability::new(probability) {
                Ok(p) => p,
                Err(e) => return Err(RowError::Refused(e)),
            };
            let c = match Probability::new(confidence) {
                Ok(c) => c,
                Err(e) => return Err(RowError::Refused(e)),
            };
            let (a, b) = prior_from(p, c);
            (take_count(row.alpha0, a), take_count(row.beta0, b))
        },
    };
    let alpha = take_count(row.alpha, alpha0);
    let beta = take_count(row.beta, beta0);
    let memory_type = match &row.memory_type {
        Some(s) => match MemoryType::parse(s.as_str()) {
            Ok(t) => t,
            Err(_) => MemoryType::Fact,
        },
        None => MemoryType::Fact,
    };
    proof {
        assert forall|b: Belief| #[trigger] row_of_belief(*row, b) implies b.created_at
            == created_at && b.last_activated_at == last_activated_at && b.memory_type
            == memory_type by {
            lemma_same_instant(b.created_at, created_at);
            lemma_same_instant(b.last_activated_at, last_activated_at);
            crate::graph::law_memory_type_names_differ(b.memory_type, memory_type);
        }
        assert forall|b: Belief| #[trigger] row_of_belief(*row, b) implies b.alpha == alpha
            && b.beta == beta && b.alpha0 == alpha0 && b.beta0 == beta0
            && b.agrees_with_counts() && is_count(alpha) && is_count(beta) && is_count(alpha0)
            && is_count(beta0) by {
            if !holds_counts(*row, b) {
                law_new_belief_agrees_with_counts(b, probability, confidence);
                lemma_units_order(b.alpha0, alpha0);
                lemma_units_order(b.beta0, beta0);
            }
        }
    }
    match Belief::from_stored(
        id,
        content.clone(),
        alpha,
        beta,
        alpha0,
        beta0,
        created_at,
        last_activated_at,
        memory_type,
        copy_optional(&row.project),
    ) {
        Ok(b) => Ok(b),
        Err(e) => Err(RowError::Refused(e)),
    }
}

/// The columns of a pattern.
#[derive(Debug)]
pub struct PatternRow {
    pub id: Option<String>,
    pub situation: Option<String>,
    pub approach: Option<String>,
    pub activation_count: Option<String>,
    pub success_rate: NumberColumn,
    pub created_at: Option<String>,
    pub project: Option<String>,
}

/// The first required column of a pattern that is missing.
pub open spec fn missing_pattern_column(row: PatternRow) -> Option<Seq<char>> {
    if row.id is None {
        Some("id"@)
    } else if row.situation is None {
        Some("situation"@)
    } else if row.approach is None {
        Some("approach"@)
    } else if row.activation_count is None {
        Some("activation_count"@)
    } else if row.success_rate == NumberColumn::Missing {
        Some("success_rate"@)
    } else if row.created_at is None {
        Some("created_at"@)
    } else {
        None
    }
}

/// The first column of a pattern that cannot be read.
pub open spec fn bad_pattern_column(row: PatternRow) -> Option<Seq<char>> {
    if known_id(row.id->0@) is None {
        Some("id"@)
    } else if whole_value(row.activation_count->0@, u32::MAX as nat) is None {
        Some("activation_count"@)
    } else if row.success_rate == NumberColumn::Malformed {
        Some("success_rate"@)
    } else if parsed_rfc3339(row.created_at->0@) is None {
        Some("created_at"@)
    } else {
        None
    }
}

/// Decodes a pattern.
pub fn decode_pattern(row: &PatternRow) -> (r: Result<Pattern, RowError>)
    ensures
        match r {
            Ok(p) => {
                &&& missing_pattern_column(*row) is None
                &&& bad_pattern_column(*row) is None
                &&& known_id(row.id->0@) == Some(p.id)
                &&& p.situation@ == row.situation->0@
                &&& p.approach@ == row.approach->0@
                &&& whole_value(row.activation_count->0@, u32::MAX as nat) == Some(
                    p.activation_count as nat,
                )
                &&& is_probability(row.success_rate->Number_0)
                &&& p.success_rate.units() == row.success_rate->Number_0.value()
                &&& parsed_rfc3339(row.created_at->0@) == Some(
                    (p.created_at.seconds(), p.created_at.subsec_nanos()),
                )
                &&& optional_text(p.project) == optional_text(row.project)
            },
            Err(RowError::MissingColumn(c)) => missing_pattern_column(*row) == Some(c@),
            Err(RowError::BadColumn(c)) => missing_pattern_column(*row) is None
                && bad_pattern_column(*row) == Some(c@),
            Err(RowError::Refused(e)) => {
                &&& missing_pattern_column(*row) is None
                &&& bad_pattern_column(*row) is None
                &&& !is_probability(row.success_rate->Number_0)
                &&& e == GraphError::ProbabilityOutOfRange(row.success_rate->Number_0)
            },
        },
{
    let id_column = match &row.id {
        Some(s) => s,
        None => return Err(RowError::MissingColumn("id".to_owned())),
    };
    let situation = match &row.situation {
        Some(s) => s,
        None => return Err(RowError::MissingColumn("situation".to_owned())),
    };
    let approach = match &row.approach {
        Some(s) => s,
        None => return Err(RowError::MissingColumn("approach".to_owned())),
    };
    let count_column = match &row.activation_count {
        Some(s) => s,
        None => return Err(RowError::MissingColumn("activation_count".to_owned())),
    };
    if row.success_rate == NumberColumn::Missing {
        return Err(RowError::MissingColumn("success_rate".to_owned()));
    }
    let created_column = match &row.created_at {
        Some(s) => s,
        None => return Err(RowError::MissingColumn("created_at".to_owned())),
    };
    let id: u128 = match parse_id(id_column.as_str()) {
        Ok(id) => id,
        Err(_) => return Err(RowError::BadColumn("id".to_owned())),
    };
    let activation_count: u32 = match parse_whole(count_column.as_str(), u32::MAX as u64) {
        Some(n) => n as u32,
        None => return Err(RowError::BadColumn("activation_count".to_owned())),
    };
    let rate = match row.success_rate {
        NumberColumn::Number(v) => v,
        _ => return Err(RowError::BadColumn("success_rate".to_owned())),
    };
    let created_at = match read_rfc3339(created_column.as_str()) {
        Some(t) => t,
        None => return Err(RowError::BadColumn("created_at".to_owned())),
    };
    match Probability::new(rate) {
        Ok(success_rate) => Ok(
            Pattern {
                id,
                situation: situation.clone(),
                approach: approach.clone(),
                activation_count,
                success_rate,
                created_at,
                project: copy_optional(&row.project),
            },
        ),
        Err(e) => Err(RowError::Refused(e)),
    }
}

/// What `serde_json::from_str` makes of a text that should hold a list of texts:
/// the texts, or nothing where it reports an error.
pub uninterp spec fn parsed_texts(text: Seq<char>) -> Option<Seq<Seq<char>>>;

/// Calls `serde_json::from_str::<Vec<String>>`. The result is a function of the
/// text; a JSON array of escaped strings is read back as those strings.
#[verifier::external_body]
fn read_texts(text: &str) -> (r: Option<Vec<String>>)
    ensures
        (match r {
            Some(texts) => Some(texts_view(texts@)),
            None => None,
        }) == parsed_texts(text@),
        forall|texts: Seq<Seq<char>>|
            text@ == "["@ + #[trigger] json_elements(texts) + "]"@ ==> r is Some && texts_view(
                r->0@,
            ) == texts,
{
    serde_json::from_str::<Vec<String>>(text).ok()
}

/// The columns of a chunk.
#[derive(Debug)]
pub struct ChunkRow {
    pub id: String,
    pub document_path: String,
    pub section_path: String,
    pub content: String,
    pub parent_id: Option<String>,
    pub project: Option<String>,
}

/// The row holds what is written for a chunk.
pub open spec fn row_of_chunk(row: ChunkRow, c: DocumentChunk) -> bool {
    &&& row.id@ == id_text(c.id)
    &&& row.document_path@ == c.document_path@
    &&& row.section_path@ == "["@ + json_elements(texts_view(c.section_path@)) + "]"@
    &&& row.content@ == c.content@
    &&& match c.parent_id {
        Some(p) => row.parent_id is Some && row.parent_id->0@ == id_text(p),
        None => row.parent_id is None,
    }
    &&& optional_text(row.project) == optional_text(c.project)
}

/// Decodes a chunk. A section path that cannot be read counts as empty, a parent
/// that cannot be read as none. What was written for a chunk is read back as
/// that chunk.
pub fn decode_chunk(row: &ChunkRow) -> (r: Result<DocumentChunk, RowError>)
    ensures
        match r {
            Ok(c) => {
                &&& known_id(row.id@) == Some(c.id)
                &&& c.document_path@ == row.document_path@
                &&& texts_view(c.section_path@) == match parsed_texts(row.section_path@) {
                    Some(texts) => texts,
                    None => Seq::empty(),
                }
                &&& c.content@ == row.content@
                &&& c.parent_id == match row.parent_id {
                    Some(p) => known_id(p@),
                    None => None,
                }
                &&& optional_text(c.project) == optional_text(row.project)
            },
            Err(e) => known_id(row.id@) is None && e is BadColumn && e->BadColumn_0@ == "id"@,
        },
        forall|c: DocumentChunk| #[trigger] row_of_chunk(*row, c) ==> r is Ok && r->Ok_0@ == c@,
{
    let sections = read_texts(row.section_path.as_str());
    let r = decode_chunk_with(row, sections);
    proof {
        assert forall|c: DocumentChunk| #[trigger] row_of_chunk(*row, c) implies r is Ok
            && r->Ok_0@ == c@ by {
            let texts = texts_view(c.section_path@);
            assert(row.section_path@ == "["@ + json_elements(texts) + "]"@);
        }
    }
    r
}

/// Decodes a chunk whose section path has been read.
pub fn decode_chunk_with(row: &ChunkRow, sections: Option<Vec<String>>) -> (r: Result<
    DocumentChunk,
    RowError,
>)
    ensures
        match r {
            Ok(c) => {
                &&& known_id(row.id@) == Some(c.id)
                &&& c.document_path@ == row.document_path@
                &&& texts_view(c.section_path@) == match sections {
                    Some(texts) => texts_view(texts@),
                    None => Seq::empty(),
                }
                &&& c.content@ == row.content@
                &&& c.parent_id == match row.parent_id {
                    Some(p) => known_id(p@),
                    None => None,
                }
                &&& optional_text(c.project) == optional_text(row.project)
            },
            Err(e) => known_id(row.id@) is None && e is BadColumn && e->BadColumn_0@ == "id"@,
        },
        forall|c: DocumentChunk|
            #[trigger] row_of_chunk(*row, c) ==> r is Ok && r->Ok_0.id == c.id
                && r->Ok_0.parent_id == c.parent_id,
{
    let id: u128 = match parse_id(row.id.as_str()) {
        Ok(id) => id,
        Err(_) => return Err(RowError::BadColumn("id".to_owned())),
    };
    let section_path: Vec<String> = match sections {
        Some(texts) => texts,
        None => {
            let none: Vec<String> = Vec::new();
            assert(texts_view(none@) =~= Seq::empty());
            none
        },
    };
    let parent_id: Option<u128> = match &row.parent_id {
        Some(p) => match parse_id(p.as_str()) {
            Ok(id) => Some(id),
            Err(_) => None,
        },
        None => None,
    };
    Ok(
        DocumentChunk {
            id,
            document_path: row.document_path.clone(),
            section_path,
            content: row.content.clone(),
            parent_id,
            project: copy_optional(&row.project),
        },
    )
}

/// The columns of an edge.
#[derive(Debug)]
pub struct EdgeRow {
    pub from_id: String,
    pub to_id: String,
    pub label: String,
    pub weight: NumberColumn,
}

/// The first column of an edge that cannot be read.
pub open spec fn bad_edge_column(row: EdgeRow) -> Option<Seq<char>> {
    if known_id(row.from_id@) is None {
        Some("from_id"@)
    } else if known_id(row.to_id@) is None {
        Some("to_id"@)
    } else if forall|t: EdgeType| row.label@ != #[trigger] t.name() {
        Some("label"@)
    } else if !(row.weight is Number) {
        Some("weight"@)
    } else {
        None
    }
}

/// Decodes an edge.
pub fn decode_edge(row: &EdgeRow) -> (r: Result<EdgeTuple, RowError>)
    ensures
        match r {
            Ok(e) => {
                &&& bad_edge_column(*row) is None
                &&& known_id(row.from_id@) == Some(e.0)
                &&& known_id(row.to_id@) == Some(e.1)
                &&& row.label@ == e.2.name()
                &&& is_probability(row.weight->Number_0)
                &&& e.3.units() == row.weight->Number_0.value()
            },
            Err(RowError::MissingColumn(_)) => false,
            Err(RowError::BadColumn(c)) => bad_edge_column(*row) == Some(c@),
            Err(RowError::Refused(e)) => {
                &&& bad_edge_column(*row) is None
                &&& !is_probability(row.weight->Number_0)
                &&& e == GraphError::ProbabilityOutOfRange(row.weight->Number_0)
            },
        },
{
    let from_id: u128 = match parse_id(row.from_id.as_str()) {
        Ok(id) => id,
        Err(_) => return Err(RowError::BadColumn("from_id".to_owned())),
    };
    let to_id: u128 = match parse_id(row.to_id.as_str()) {
        Ok(id) => id,
        Err(_) => return Err(RowError::BadColumn("to_id".to_owned())),
    };
    let edge_type = match EdgeType::parse(row.label.as_str()) {
        Ok(t) => t,
        Err(_) => return Err(RowError::BadColumn("label".to_owned())),
    };
    let weight = match row.weight {
        NumberColumn::Number(v) => v,
        _ => return Err(RowError::BadColumn("weight".to_owned())),
    };
    match Probability::new(weight) {
        Ok(w) => Ok((from_id, to_id, edge_type, w)),
        Err(e) => Err(RowError::Refused(e)),
    }
}

/// The number in a column; zero where it is missing or malformed.
pub open spec fn number_or_zero(column: NumberColumn) -> Binary64 {
    match column {
        NumberColumn::Number(v) => v,
        _ => Binary64 { bits: 0 },
    }
}

fn take_number(column: NumberColumn) -> (r: Binary64)
    ensures
        r == number_or_zero(column),
{
    match column {
        NumberColumn::Number(v) => v,
        _ => Binary64 { bits: 0 },
    }
}

/// Decodes an edge with the mean of its source, from the source's counts. A
/// count that is missing or malformed counts as zero.
pub fn decode_incoming_edge(row: &EdgeRow, alpha: NumberColumn, beta: NumberColumn) -> (r: Result<
    IncomingEdge,
    RowError,
>)
    ensures
        ({
            let a = number_or_zero(alpha);
            let b = number_or_zero(beta);
            match r {
                Ok(e) => {
                    &&& bad_edge_column(*row) is None
                    &&& known_id(row.from_id@) == Some(e.0)
                    &&& known_id(row.to_id@) == Some(e.1)
                    &&& row.label@ == e.2.name()
                    &&& is_probability(row.weight->Number_0)
                    &&& e.3.units() == row.weight->Number_0.value()
                    &&& refused_pair(a, b) is None
                    &&& e.4.units() == mean_of(unsigned_zero(a).units(), unsigned_zero(b).units())
                },
                Err(RowError::MissingColumn(_)) => false,
                Err(RowError::BadColumn(c)) => bad_edge_column(*row) == Some(c@),
                Err(RowError::Refused(e)) => {
                    &&& bad_edge_column(*row) is None
                    &&& if !is_probability(row.weight->Number_0) {
                        e == GraphError::ProbabilityOutOfRange(row.weight->Number_0)
                    } else {
                        refused_pair(a, b) == Some(e)
                    }
                },
            }
        }),
{
    let e = match decode_edge(row) {
        Ok(e) => e,
        Err(e) => return Err(e),
    };
    match stored_mean(take_number(alpha), take_number(beta)) {
        Ok(mean) => Ok((e.0, e.1, e.2, e.3, mean)),
        Err(e) => Err(RowError::Refused(e)),
    }
}

/// Decodes a defeat: the defeater, the defeated belief and the time of the
/// defeater.
pub fn decode_defeat(
    defeater_id: &Option<String>,
    defeated_id: &Option<String>,
    created_at: &Option<String>,
) -> (r: Result<(u128, u128, Timestamp), RowError>)
    ensures
        match r {
            Ok(d) => {
                &&& *defeater_id is Some && *defeated_id is Some && *created_at is Some
                &&& known_id((*defeater_id)->0@) == Some(d.0)
                &&& known_id((*defeated_id)->0@) == Some(d.1)
                &&& parsed_rfc3339((*created_at)->0@) == Some((d.2.seconds(), d.2.subsec_nanos()))
            },
            Err(RowError::MissingColumn(c)) => if *defeater_id is None {
                c@ == "defeater_id"@
            } else if *defeated_id is None {
                c@ == "defeated_id"@
            } else {
                *created_at is None && c@ == "defeater_created_at"@
            },
            Err(RowError::BadColumn(c)) => {
                &&& *defeater_id is Some && *defeated_id is Some && *created_at is Some
                &&& if known_id((*defeater_id)->0@) is None {
                    c@ == "defeater_id"@
                } else if known_id((*defeated_id)->0@) is None {
                    c@ == "defeated_id"@
                } else {
                    parsed_rfc3339((*created_at)->0@) is None && c@ == "defeater_created_at"@
                }
            },
            Err(RowError::Refused(_)) => false,
        },
{
    let defeater = match defeater_id {
        Some(s) => s,
        None => return Err(RowError::MissingColumn("defeater_id".to_owned())),
    };
    let defeated = match defeated_id {
        Some(s) => s,
        None => return Err(RowError::MissingColumn("defeated_id".to_owned())),
    };
    let time = match created_at {
        Some(s) => s,
        None => return Err(RowError::MissingColumn("defeater_created_at".to_owned())),
    };
    let a: u128 = match parse_id(defeater.as_str()) {
        Ok(id) => id,
        Err(_) => return Err(RowError::BadColumn("defeater_id".to_owned())),
    };
    let b: u128 = match parse_id(defeated.as_str()) {
        Ok(id) => id,
        Err(_) => return Err(RowError::BadColumn("defeated_id".to_owned())),
    };
    match read_rfc3339(time.as_str()) {
        Some(t) => Ok((a, b, t)),
        None => Err(RowError::BadColumn("defeater_created_at".to_owned())),
    }
}

/// Decodes a pair of identifiers.
pub fn decode_pair(from_id: &Option<String>, to_id: &Option<String>) -> (r: Result<
    (u128, u128),
    RowError,
>)
    ensures
        match r {
            Ok(p) => {
                &&& *from_id is Some && *to_id is Some
                &&& known_id((*from_id)->0@) == Some(p.0)
                &&& known_id((*to_id)->0@) == Some(p.1)
            },
            Err(RowError::MissingColumn(c)) => if *from_id is None {
                c@ == "from_id"@
            } else {
                *to_id is None && c@ == "to_id"@
            },
            Err(RowError::BadColumn(c)) => {
                &&& *from_id is Some && *to_id is Some
                &&& if known_id((*from_id)->0@) is None {
                    c@ == "from_id"@
                } else {
                    known_id((*to_id)->0@) is None && c@ == "to_id"@
                }
            },
            Err(RowError::Refused(_)) => false,
        },
{
    let from = match from_id {
        Some(s) => s,
        None => return Err(RowError::MissingColumn("from_id".to_owned())),
    };
    let to = match to_id {
        Some(s) => s,
        None => return Err(RowError::MissingColumn("to_id".to_owned())),
    };
    let a: u128 = match parse_id(from.as_str()) {
        Ok(id) => id,
        Err(_) => return Err(RowError::BadColumn("from_id".to_owned())),
    };
    match parse_id(to.as_str()) {
        Ok(b) => Ok((a, b)),
        Err(_) => Err(RowError::BadColumn("to_id".to_owned())),
    }
}

/// Decodes a ground of a belief: belief, chunk and weight.
pub fn decode_ground(belief_id: &str, chunk_id: &str, weight: NumberColumn) -> (r: Result<
    (u128, u128, Binary64),
    RowError,
>)
    ensures
        match r {
            Ok(g) => {
                &&& known_id(belief_id@) == Some(g.0)
                &&& known_id(chunk_id@) == Some(g.1)
                &&& weight == NumberColumn::Number(g.2)
            },
            Err(e) => e is BadColumn && e->BadColumn_0@ == if known_id(belief_id@) is None {
                "belief_id"@
            } else if known_id(chunk_id@) is None {
                "chunk_id"@
            } else {
                "weight"@
            } && (known_id(belief_id@) is None || known_id(chunk_id@) is None || !(
            weight is Number)),
        },
{
    let belief: u128 = match parse_id(belief_id) {
        Ok(id) => id,
        Err(_) => return Err(RowError::BadColumn("belief_id".to_owned())),
    };
    let chunk: u128 = match parse_id(chunk_id) {
        Ok(id) => id,
        Err(_) => return Err(RowError::BadColumn("chunk_id".to_owned())),
    };
    match weight {
        NumberColumn::Number(w) => Ok((belief, chunk, w)),
        _ => Err(RowError::BadColumn("weight".to_owned())),
    }
}

/// Decodes what grounds a belief: the belief, and the count that the total weight
/// of its grounds stands for. A total that is negative or not finite is refused.
pub fn decode_mass(belief_id: &str, total_weight: NumberColumn) -> (r: Result<
    (u128, Binary64),
    RowError,
>)
    ensures
        match r {
            Ok(m) => {
                &&& known_id(belief_id@) == Some(m.0)
                &&& total_weight is Number && is_mass(unsigned_zero(total_weight->Number_0))
                &&& is_mass(m.1)
                &&& m.1.units() == evidence_mass(unsigned_zero(total_weight->Number_0).units())
            },
            Err(RowError::BadColumn(c)) => if known_id(belief_id@) is None {
                c@ == "belief_id"@
            } else {
                !(total_weight is Number) && c@ == "total_weight"@
            },
            Err(RowError::Refused(e)) => known_id(belief_id@) is Some && total_weight is Number
                && !is_mass(unsigned_zero(total_weight->Number_0)) && e
                == GraphError::CountOutOfRange(total_weight->Number_0),
            Err(_) => false,
        },
{
    let belief: u128 = match parse_id(belief_id) {
        Ok(id) => id,
        Err(_) => return Err(RowError::BadColumn("belief_id".to_owned())),
    };
    match total_weight {
        NumberColumn::Number(w) => {
            let total = without_zero_sign(w);
            if total.bits < INFINITY_BITS {
                Ok((belief, mass_of_grounds(total)))
            } else {
                Err(RowError::Refused(GraphError::CountOutOfRange(w)))
            }
        },
        _ => Err(RowError::BadColumn("total_weight".to_owned())),
    }
}

/// The identifiers among the texts, without what cannot be read.
pub open spec fn readable_ids(texts: Seq<Option<String>>) -> Seq<u128>
    decreases texts.len(),
{
    if texts.len() == 0 {
        Seq::empty()
    } else {
        let before = readable_ids(texts.drop_last());
        match texts.last() {
            Some(s) => match known_id(s@) {
                Some(id) => before.push(id),
                None => before,
            },
            None => before,
        }
    }
}

/// Reads the identifiers that can be read.
pub fn read_known_ids(texts: &[Option<String>]) -> (r: Vec<u128>)
    ensures
        r@ == readable_ids(texts@),
{
    let mut r: Vec<u128> = Vec::new();
    let n: usize = texts.len();
    let mut i: usize = 0;
    assert(texts@.take(0) =~= Seq::empty());
    while i < n
        invariant
            i <= n,
            n == texts@.len(),
            r@ == readable_ids(texts@.take(i as int)),
        decreases n - i,
    {
        assert(texts@.take(i + 1).drop_last() =~= texts@.take(i as int));
        match &texts[i] {
            Some(s) => match parse_id(s.as_str()) {
                Ok(id) => {
                    r.push(id);
                },
                Err(_) => {},
            },
            None => {},
        }
        i = i + 1;
    }
    assert(texts@.take(n as int) =~= texts@);
    r
}

/// Reads identifiers, all or none.
pub fn read_ids(texts: &[String]) -> (r: Result<Vec<u128>, RowError>)
    ensures
        match r {
            Ok(ids) => ids@.len() == texts@.len() && forall|i: int|
                0 <= i < ids@.len() ==> known_id(texts@[i]@) == Some(#[trigger] ids@[i]),
            Err(e) => e is BadColumn && e->BadColumn_0@ == "id"@ && exists|i: int|
                0 <= i < texts@.len() && known_id((#[trigger] texts@[i])@) is None,
        },
{
    let mut r: Vec<u128> = Vec::new();
    let n: usize = texts.len();
    let mut i: usize = 0;
    while i < n
        invariant
            i <= n,
            n == texts@.len(),
            r@.len() == i,
            forall|k: int| 0 <= k < i ==> known_id(texts@[k]@) == Some(#[trigger] r@[k]),
        decreases n - i,
    {
        match parse_id(texts[i].as_str()) {
            Ok(id) => {
                r.push(id);
            },
            Err(_) => {
                assert(known_id(texts@[i as int]@) is None);
                return Err(RowError::BadColumn("id".to_owned()));
            },
        }
        i = i + 1;
    }
    Ok(r)
}

/// Reads a count; no row counts as zero.
pub fn read_count(text: Option<&str>) -> (r: Result<usize, RowError>)
    ensures
        match r {
            Ok(n) => match text {
                Some(s) => whole_value(s@, usize::MAX as nat) == Some(n as nat),
                None => n == 0,
            },
            Err(e) => text is Some && whole_value(text->0@, usize::MAX as nat) is None
                && e is BadColumn && e->BadColumn_0@ == "n"@,
        },
{
    match text {
        Some(s) => match parse_whole(s, usize::MAX as u64) {
            Some(n) => Ok(n as usize),
            None => Err(RowError::BadColumn("n".to_owned())),
        },
        None => Ok(0),
    }
}

} // verus!
