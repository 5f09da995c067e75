//! What beliefs hold when they are made, and what rows of the database stand for.
use vstd::arithmetic::power2::*;
use vstd::prelude::*;

use crate::binary64::{distance, greatest, one, plus, Binary64};
use crate::documents::{chunks_view, texts_view, DocumentChunk, QueryResult};
use crate::graph::{
    attenuated, confidence_of, first_refused_count, is_count, is_mass, is_probability, mean_of,
    prior_counts, refused_belief, refused_pair, unsigned_zero, Belief, EdgeType, GraphError,
    MemoryType, Probability,
};
use crate::ids::{id_text, known_id};
use crate::inference::{can_decay, has_decayed, settled_units, updates_view};
use crate::posterior::{counts_view, means_of, means_view, Counts};
use crate::rows::{
    bad_belief_column, bad_edge_column, bad_pattern_column, belief_matches, count_or, given_counts,
    missing_belief_column, missing_pattern_column, needs_prior, number_or_zero, readable_ids,
    row_of_belief, row_of_chunk, same_stored, stored_memory_type, BeliefRow, ChunkRow, EdgeRow,
    NumberColumn, PatternRow,
};
use crate::service::{answers_view, evidence_view, EvidenceRef};
use crate::store::{all_finite, json_elements, named_counts, names_first_infinite, StoreError};
use crate::text::{optional_text, whole_value};
use crate::time::{parsed_rfc3339, rfc3339_text};
use crate::tools::{
    properties_view, request_view, tool_error_view, Property, ToolError, ToolRequest,
};

verus! {

/// A number is a probability exactly when it is one and lies from zero to one; negative
/// zero is zero.
pub proof fn law_probabilities_lie_from_zero_to_one(v: Binary64)
    ensures
        is_probability(v) <==> !v.is_nan() && v.value() >= 0 && v.value() <= one(),
        is_probability(Binary64 { bits: 0 }),
        is_probability(Binary64 { bits: 0x8000_0000_0000_0000 }),
        is_probability(Binary64 { bits: 0x3FF0_0000_0000_0000 }),
{
    crate::binary64::lemma_one_units();
    lemma_pow2_pos(1074);
}

/// A new belief has the probability and the confidence that it is given, the counts of the
/// prior that they make, and no evidence yet.
pub proof fn law_a_new_belief_holds_what_it_is_given(
    b: Belief,
    probability: Binary64,
    confidence: Binary64,
)
    requires
        b.starts_from(probability, confidence),
        is_probability(probability),
        is_probability(confidence),
    ensures
        b.probability.units() == probability.value(),
        b.confidence.units() == confidence.value(),
        (b.alpha0.units(), b.beta0.units()) == prior_counts(
            probability.value() as nat,
            confidence.value() as nat,
        ),
        b.alpha == b.alpha0 && b.beta == b.beta0,
        is_count(b.alpha) && is_count(b.beta),
{
}

/// A belief agrees with its counts exactly when its probability and its confidence differ
/// from those that the counts make by no more than the change that is noticed.
pub proof fn law_beliefs_agree_with_their_counts(b: Belief)
    ensures
        b.agrees_with_counts() <==> {
            let mean = mean_of(b.alpha.units(), b.beta.units());
            let weight = confidence_of(plus(b.alpha.units(), b.beta.units()));
            &&& distance(b.probability.units(), mean) <= settled_units()
            &&& distance(b.confidence.units(), weight) <= settled_units()
        },
{
}

/// A belief is refused for its probability, or else for its confidence, where that is none,
/// and for nothing else.
pub proof fn law_beliefs_are_refused_for_their_numbers_only(
    probability: Binary64,
    confidence: Binary64,
    e: GraphError,
)
    ensures
        refused_belief(probability, confidence, e) ==> !is_probability(probability)
            || !is_probability(confidence),
        !is_probability(probability) ==> (refused_belief(probability, confidence, e) <==> e
            == GraphError::ProbabilityOutOfRange(probability)),
        is_probability(probability) && !is_probability(confidence) ==> (refused_belief(
            probability,
            confidence,
            e,
        ) <==> e == GraphError::ProbabilityOutOfRange(confidence)),
{
}

/// Four counts are refused exactly when one of them is none, and for the first such.
pub proof fn law_the_first_bad_count_is_refused(counts: Seq<Binary64>)
    requires
        counts.len() == 4,
    ensures
        first_refused_count(counts) is None <==> forall|i: int|
            0 <= i < 4 ==> is_count(#[trigger] counts[i]),
        forall|i: int|
            0 <= i < 4 && !is_count(#[trigger] counts[i]) && (forall|k: int|
                0 <= k < i ==> is_count(#[trigger] counts[k])) ==> first_refused_count(counts)
                == Some(GraphError::CountOutOfRange(counts[i])),
{
    if first_refused_count(counts) is None {
        assert forall|i: int| 0 <= i < 4 implies is_count(#[trigger] counts[i]) by {
            assert(i == 0 || i == 1 || i == 2 || i == 3);
        }
    }
    assert forall|i: int|
        0 <= i < 4 && !is_count(#[trigger] counts[i]) && (forall|k: int|
            0 <= k < i ==> is_count(#[trigger] counts[k])) implies first_refused_count(counts)
        == Some(GraphError::CountOutOfRange(counts[i])) by {
        assert(i == 0 || i == 1 || i == 2 || i == 3);
        if i > 0 {
            assert(is_count(counts[0]));
        }
        if i > 1 {
            assert(is_count(counts[1]));
        }
        if i > 2 {
            assert(is_count(counts[2]));
        }
    }
}

/// Negative zero counts as zero; every other number stays.
pub proof fn law_negative_zero_counts_as_zero(v: Binary64)
    ensures
        v.bits == 0x8000_0000_0000_0000 ==> unsigned_zero(v).bits == 0,
        v.bits != 0x8000_0000_0000_0000 ==> unsigned_zero(v) == v,
        unsigned_zero(v).value() == v.value(),
{
    assert(crate::binary64::pattern_units(0) == 0);
}

/// A pair of stored numbers has a mean exactly when neither is negative or infinite and
/// their sum is a number; the number that stands in the way is named.
pub proof fn law_stored_pairs_have_means(alpha: Binary64, beta: Binary64)
    ensures
        ({
            let a = unsigned_zero(alpha);
            let b = unsigned_zero(beta);
            &&& refused_pair(alpha, beta) is None <==> !a.is_negative() && a.is_finite()
                && !b.is_negative() && b.is_finite() && plus(a.units(), b.units()) <= greatest()
            &&& refused_pair(alpha, beta) is Some ==> refused_pair(alpha, beta) == Some(
                GraphError::CountOutOfRange(alpha),
            ) || refused_pair(alpha, beta) == Some(GraphError::CountOutOfRange(beta))
            &&& (a.is_negative() || !a.is_finite()) ==> refused_pair(alpha, beta) == Some(
                GraphError::CountOutOfRange(alpha),
            )
        }),
{
}

/// A mass is a finite number without sign.
pub proof fn law_masses_are_finite(v: Binary64)
    ensures
        is_mass(v) <==> !v.is_negative() && v.is_finite(),
{
}

/// Of a probability nothing is left by a negative factor and all by one that is no number;
/// no factor makes it more than one.
pub proof fn law_factors_beyond_the_range(p: nat, factor: Binary64)
    requires
        p <= one(),
    ensures
        attenuated(p, factor) <= one(),
        factor.is_nan() ==> attenuated(p, factor) == p,
        factor.is_finite() && factor.is_negative() ==> attenuated(p, factor) == 0,
        !factor.is_nan() && !factor.is_finite() && !factor.is_negative() && p > 0 ==> attenuated(
            p,
            factor,
        ) == one(),
{
}

/// Decay applies to every belief but to one whose confidence has no product with the
/// retained part; an experiential belief needs none.
pub proof fn law_decay_needs_a_product(belief: Belief, retained: Binary64)
    ensures
        has_decayed(belief.confidence.units(), retained) <==> !retained.is_nan() && (
        retained.is_finite() || belief.confidence.units() > 0),
        can_decay(belief, retained) <==> belief.memory_type == MemoryType::Experiential || (
        !retained.is_nan() && (retained.is_finite() || belief.confidence.units() > 0)),
{
}

/// A row of a belief is complete exactly when its required columns are there, and readable
/// exactly when their texts and numbers can be read.
pub proof fn law_rows_of_beliefs_need_their_columns(row: BeliefRow)
    ensures
        missing_belief_column(row) is None <==> row.id is Some && row.content is Some
            && row.probability != NumberColumn::Missing && row.confidence
            != NumberColumn::Missing && row.created_at is Some && row.last_activated_at is Some,
        bad_belief_column(row) is None <==> known_id(row.id->0@) is Some && row.probability
            != NumberColumn::Malformed && row.confidence != NumberColumn::Malformed
            && parsed_rfc3339(row.created_at->0@) is Some && parsed_rfc3339(
            row.last_activated_at->0@,
        ) is Some,
        needs_prior(row) <==> !(row.alpha0 is Number && row.beta0 is Number),
{
}

/// The column that is named is one that is missing or cannot be read, and no column before
/// it is.
pub proof fn law_the_first_bad_column_of_a_belief_is_named(row: BeliefRow)
    ensures
        row.id is None ==> missing_belief_column(row) == Some("id"@),
        row.id is Some && row.content is None ==> missing_belief_column(row) == Some("content"@),
        row.id is Some && row.content is Some ==> {
            &&& row.probability == NumberColumn::Missing ==> missing_belief_column(row) == Some(
                "probability"@,
            )
            &&& row.probability != NumberColumn::Missing ==> {
                &&& row.confidence == NumberColumn::Missing ==> missing_belief_column(row) == Some(
                    "confidence"@,
                )
                &&& row.confidence != NumberColumn::Missing ==> {
                    &&& row.created_at is None ==> missing_belief_column(row) == Some("created_at"@)
                    &&& row.created_at is Some && row.last_activated_at is None
                        ==> missing_belief_column(row) == Some("last_activated_at"@)
                }
            }
        },
        known_id(row.id->0@) is None ==> bad_belief_column(row) == Some("id"@),
        known_id(row.id->0@) is Some ==> {
            &&& row.probability == NumberColumn::Malformed ==> bad_belief_column(row) == Some(
                "probability"@,
            )
            &&& row.probability != NumberColumn::Malformed ==> {
                &&& row.confidence == NumberColumn::Malformed ==> bad_belief_column(row) == Some(
                    "confidence"@,
                )
                &&& row.confidence != NumberColumn::Malformed ==> {
                    &&& parsed_rfc3339(row.created_at->0@) is None ==> bad_belief_column(row)
                        == Some("created_at"@)
                    &&& parsed_rfc3339(row.created_at->0@) is Some && parsed_rfc3339(
                        row.last_activated_at->0@,
                    ) is None ==> bad_belief_column(row) == Some("last_activated_at"@)
                }
            }
        },
{
}

/// The same of a row of a pattern.
pub proof fn law_the_first_bad_column_of_a_pattern_is_named(row: PatternRow)
    ensures
        row.id is None ==> missing_pattern_column(row) == Some("id"@),
        row.id is Some && row.situation is None ==> missing_pattern_column(row) == Some(
            "situation"@,
        ),
        row.id is Some && row.situation is Some ==> {
            &&& row.approach is None ==> missing_pattern_column(row) == Some("approach"@)
            &&& row.approach is Some && row.activation_count is None ==> missing_pattern_column(row)
                == Some("activation_count"@)
            &&& row.approach is Some && row.activation_count is Some ==> {
                &&& row.success_rate == NumberColumn::Missing ==> missing_pattern_column(row)
                    == Some("success_rate"@)
                &&& row.success_rate != NumberColumn::Missing && row.created_at is None
                    ==> missing_pattern_column(row) == Some("created_at"@)
            }
        },
        known_id(row.id->0@) is None ==> bad_pattern_column(row) == Some("id"@),
        known_id(row.id->0@) is Some ==> {
            let count = whole_value(row.activation_count->0@, u32::MAX as nat);
            &&& count is None ==> bad_pattern_column(row) == Some("activation_count"@)
            &&& count is Some && row.success_rate == NumberColumn::Malformed ==> bad_pattern_column(
                row,
            ) == Some("success_rate"@)
            &&& count is Some && row.success_rate != NumberColumn::Malformed && parsed_rfc3339(
                row.created_at->0@,
            ) is None ==> bad_pattern_column(row) == Some("created_at"@)
        },
{
}

/// The same of a row of an edge.
pub proof fn law_the_first_bad_column_of_an_edge_is_named(row: EdgeRow)
    ensures
        known_id(row.from_id@) is None ==> bad_edge_column(row) == Some("from_id"@),
        known_id(row.from_id@) is Some && known_id(row.to_id@) is None ==> bad_edge_column(row)
            == Some("to_id"@),
        known_id(row.from_id@) is Some && known_id(row.to_id@) is Some ==> {
            &&& (forall|t: EdgeType| row.label@ != #[trigger] t.name()) ==> bad_edge_column(row)
                == Some("label"@)
            &&& (exists|t: EdgeType| row.label@ == #[trigger] t.name()) && !(row.weight is Number)
                ==> bad_edge_column(row) == Some("weight"@)
        },
{
}

/// Which columns a row of a pattern and of an edge needs.
pub proof fn law_rows_of_patterns_and_edges_need_their_columns(row: PatternRow, edge: EdgeRow)
    ensures
        missing_pattern_column(row) is None <==> row.id is Some && row.situation is Some
            && row.approach is Some && row.activation_count is Some && row.success_rate
            != NumberColumn::Missing && row.created_at is Some,
        bad_pattern_column(row) is None <==> known_id(row.id->0@) is Some && whole_value(
            row.activation_count->0@,
            u32::MAX as nat,
        ) is Some && row.success_rate != NumberColumn::Malformed && parsed_rfc3339(
            row.created_at->0@,
        ) is Some,
        bad_edge_column(edge) is None <==> known_id(edge.from_id@) is Some && known_id(
            edge.to_id@,
        ) is Some && edge.weight is Number && exists|t: EdgeType|
            edge.label@ == #[trigger] t.name(),
{
}

/// A memory type is stored under its name; what has no name, or an unknown one, is a fact.
pub proof fn law_unknown_memory_types_are_facts(
    name: Option<Seq<char>>,
    t: MemoryType,
    other: MemoryType,
)
    ensures
        stored_memory_type(Some(t.name()), other) <==> other == t,
        stored_memory_type(None, other) <==> other == MemoryType::Fact,
        name is Some && (forall|m: MemoryType| name->0 != #[trigger] m.name()) ==> (
        stored_memory_type(name, other) <==> other == MemoryType::Fact),
{
    if t.name() == other.name() {
        crate::graph::law_memory_type_names_differ(t, other);
    }
}

/// A belief that matches a row has its texts, times, type, project and counts from the row,
/// the counts that are missing from its prior, and its probability and confidence from the
/// counts.
pub proof fn law_beliefs_hold_what_their_rows_say(b: Belief, row: BeliefRow)
    requires
        belief_matches(b, row),
    ensures
        known_id(row.id->0@) == Some(b.id),
        b.content@ == row.content->0@,
        optional_text(b.project) == optional_text(row.project),
        stored_memory_type(optional_text(row.memory_type), b.memory_type),
        parsed_rfc3339(row.created_at->0@) == Some(
            (b.created_at.seconds(), b.created_at.subsec_nanos()),
        ),
        parsed_rfc3339(row.last_activated_at->0@) == Some(
            (b.last_activated_at.seconds(), b.last_activated_at.subsec_nanos()),
        ),
        row.alpha0 is Number ==> b.alpha0 == unsigned_zero(row.alpha0->Number_0),
        row.beta0 is Number ==> b.beta0 == unsigned_zero(row.beta0->Number_0),
        row.alpha is Number ==> b.alpha == unsigned_zero(row.alpha->Number_0),
        row.beta is Number ==> b.beta == unsigned_zero(row.beta->Number_0),
        !(row.alpha is Number) ==> b.alpha == b.alpha0,
        !(row.beta is Number) ==> b.beta == b.beta0,
        !(row.alpha0 is Number) ==> b.alpha0.units() == prior_counts(
            row.probability->Number_0.value() as nat,
            row.confidence->Number_0.value() as nat,
        ).0,
        !(row.beta0 is Number) ==> b.beta0.units() == prior_counts(
            row.probability->Number_0.value() as nat,
            row.confidence->Number_0.value() as nat,
        ).1,
        b.probability.units() == mean_of(b.alpha.units(), b.beta.units()),
        b.confidence.units() == confidence_of(plus(b.alpha.units(), b.beta.units())),
{
}

/// The counts that a row gives are those of its columns; those that are missing are taken
/// from the prior, or else count as zero. A number that is missing or malformed is zero.
pub proof fn law_rows_give_their_counts(row: BeliefRow, column: NumberColumn, other: Binary64)
    ensures
        column is Number ==> count_or(column, other) == unsigned_zero(column->Number_0),
        !(column is Number) ==> count_or(column, other) == other,
        column is Number ==> number_or_zero(column) == column->Number_0,
        !(column is Number) ==> number_or_zero(column).bits == 0,
        given_counts(row).len() == 4,
        row.alpha is Number ==> given_counts(row)[0] == unsigned_zero(row.alpha->Number_0),
        row.beta is Number ==> given_counts(row)[1] == unsigned_zero(row.beta->Number_0),
        row.alpha0 is Number ==> given_counts(row)[2] == unsigned_zero(row.alpha0->Number_0),
        row.beta0 is Number ==> given_counts(row)[3] == unsigned_zero(row.beta0->Number_0),
        !(row.alpha is Number) ==> given_counts(row)[0] == given_counts(row)[2],
        !(row.beta is Number) ==> given_counts(row)[1] == given_counts(row)[3],
        !(row.alpha0 is Number) ==> given_counts(row)[2].bits == 0,
        !(row.beta0 is Number) ==> given_counts(row)[3].bits == 0,
{
}

/// Beliefs that are the same as stored agree in all texts, counts, times and in their type,
/// and their probabilities and confidences lie within the change that is noticed.
pub proof fn law_stored_beliefs_agree_in_everything(a: Belief, b: Belief)
    requires
        same_stored(a, b),
    ensures
        a.id == b.id,
        a.content@ == b.content@,
        a.alpha == b.alpha && a.beta == b.beta,
        a.alpha0 == b.alpha0 && a.beta0 == b.beta0,
        a.created_at == b.created_at && a.last_activated_at == b.last_activated_at,
        a.memory_type == b.memory_type,
        optional_text(a.project) == optional_text(b.project),
        distance(a.probability.units(), b.probability.units()) <= settled_units(),
        distance(a.confidence.units(), b.confidence.units()) <= settled_units(),
{
}

/// The identifiers that can be read are read, all of them and in their order.
pub proof fn law_every_readable_identifier_is_read(texts: Seq<Option<String>>)
    ensures
        readable_ids(texts) == texts.filter(
            |t: Option<String>| t is Some && known_id(t->0@) is Some,
        ).map_values(|t: Option<String>| known_id(t->0@)->0),
    decreases texts.len(),
{
    reveal(Seq::filter);
    let p = |t: Option<String>| t is Some && known_id(t->0@) is Some;
    let f = |t: Option<String>| known_id(t->0@)->0;
    if texts.len() > 0 {
        let shorter = texts.drop_last();
        law_every_readable_identifier_is_read(shorter);
        assert(shorter.filter(p).push(texts.last()).map_values(f) =~= shorter.filter(p).map_values(
            f,
        ).push(f(texts.last())));
    } else {
        assert(texts.filter(p).map_values(f) =~= Seq::empty());
    }
}

/// What is written of a belief can be read: its columns are there and its identifier is the
/// text of it. Its counts are written as they are, or left out where they follow from its
/// probability and confidence.
pub proof fn law_rows_hold_what_beliefs_say(row: BeliefRow, b: Belief)
    requires
        row_of_belief(row, b),
    ensures
        missing_belief_column(row) is None,
        row.id->0@ == id_text(b.id),
        row.content->0@ == b.content@,
        row.probability is Number && row.probability->Number_0.value() == b.probability.units(),
        row.confidence is Number && row.confidence->Number_0.value() == b.confidence.units(),
        row.alpha is Number ==> {
            &&& row.alpha->Number_0 == b.alpha && row.beta == NumberColumn::Number(b.beta)
            &&& row.alpha0 == NumberColumn::Number(b.alpha0)
            &&& row.beta0 == NumberColumn::Number(b.beta0)
        },
        !(row.alpha is Number) ==> {
            let counts = prior_counts(
                row.probability->Number_0.value() as nat,
                row.confidence->Number_0.value() as nat,
            );
            &&& b.alpha.units() == counts.0 && b.beta.units() == counts.1
            &&& b.alpha == b.alpha0 && b.beta == b.beta0
        },
        row.created_at->0@ == rfc3339_text(b.created_at.seconds(), b.created_at.subsec_nanos()),
        row.last_activated_at->0@ == rfc3339_text(
            b.last_activated_at.seconds(),
            b.last_activated_at.subsec_nanos(),
        ),
        stored_memory_type(optional_text(row.memory_type), b.memory_type),
        row.memory_type is Some && row.memory_type->0@ == b.memory_type.name(),
        row.project is Some <==> b.project is Some,
        row.project is Some ==> row.project->0@ == b.project->0@,
{
    assert(optional_text(row.project) == optional_text(b.project));
}

/// Whatever holds the columns of a belief in this way is a row of it.
pub proof fn law_columns_of_a_belief_make_its_row(row: BeliefRow, b: Belief)
    requires
        row.id is Some && row.id->0@ == id_text(b.id),
        row.content is Some && row.content->0@ == b.content@,
        row.probability == NumberColumn::Number(Binary64 { bits: b.probability.key() }),
        row.confidence == NumberColumn::Number(Binary64 { bits: b.confidence.key() }),
        is_probability(row.probability->Number_0) && row.probability->Number_0.value()
            == b.probability.units(),
        is_probability(row.confidence->Number_0) && row.confidence->Number_0.value()
            == b.confidence.units(),
        row.alpha == NumberColumn::Number(b.alpha) && row.beta == NumberColumn::Number(b.beta),
        row.alpha0 == NumberColumn::Number(b.alpha0) && row.beta0 == NumberColumn::Number(b.beta0),
        is_count(b.alpha) && is_count(b.beta) && is_count(b.alpha0) && is_count(b.beta0),
        b.agrees_with_counts(),
        row.created_at is Some && row.created_at->0@ == rfc3339_text(
            b.created_at.seconds(),
            b.created_at.subsec_nanos(),
        ),
        row.last_activated_at is Some && row.last_activated_at->0@ == rfc3339_text(
            b.last_activated_at.seconds(),
            b.last_activated_at.subsec_nanos(),
        ),
        -62_167_219_200 <= b.created_at.seconds() < 253_402_300_800,
        b.created_at.subsec_nanos() < 1_000_000_000,
        -62_167_219_200 <= b.last_activated_at.seconds() < 253_402_300_800,
        b.last_activated_at.subsec_nanos() < 1_000_000_000,
        row.memory_type is Some && row.memory_type->0@ == b.memory_type.name(),
        optional_text(row.project) == optional_text(b.project),
    ensures
        row_of_belief(row, b),
{
}

/// Whatever holds the columns of a chunk in this way is a row of it.
pub proof fn law_columns_of_a_chunk_make_its_row(row: ChunkRow, c: DocumentChunk)
    requires
        row.id@ == id_text(c.id),
        row.document_path@ == c.document_path@ && row.content@ == c.content@,
        row.section_path@ == "["@ + json_elements(texts_view(c.section_path@)) + "]"@,
        c.parent_id is Some ==> row.parent_id is Some && row.parent_id->0@ == id_text(
            c.parent_id->0,
        ),
        c.parent_id is None ==> row.parent_id is None,
        optional_text(row.project) == optional_text(c.project),
    ensures
        row_of_chunk(row, c),
{
}

/// The error for numbers that cannot be written names the first that is not finite.
pub proof fn law_the_first_infinite_number_is_named(
    e: StoreError,
    label: Seq<char>,
    values: Seq<(Seq<char>, Binary64)>,
    k: int,
)
    requires
        names_first_infinite(e, label, values),
        0 <= k < values.len(),
        !values[k].1.is_finite(),
        forall|i: int| 0 <= i < k ==> (#[trigger] values[i]).1.is_finite(),
    ensures
        e is NotFinite,
        e->NotFinite_0@ == label,
        e->NotFinite_1@ == values[k].0,
        e->NotFinite_2 == values[k].1,
        !all_finite(values),
{
    let i = choose|i: int|
        #![trigger values[i]]
        {
            &&& 0 <= i < values.len()
            &&& !values[i].1.is_finite()
            &&& all_finite(values.take(i))
            &&& e is NotFinite
            &&& e->NotFinite_0@ == label
            &&& e->NotFinite_1@ == values[i].0
            &&& e->NotFinite_2 == values[i].1
        };
    if k < i {
        assert(values.take(i)[k] == values[k]);
    }
    if i < k {
        assert(values[i].1.is_finite());
    }
}

/// What is written of a chunk are its texts as they are, its section path as a list and
/// its parent if it has one.
pub proof fn law_rows_hold_what_chunks_say(row: ChunkRow, c: DocumentChunk)
    requires
        row_of_chunk(row, c),
    ensures
        row.id@ == id_text(c.id),
        row.document_path@ == c.document_path@ && row.content@ == c.content@,
        row.section_path@ == "["@ + json_elements(texts_view(c.section_path@)) + "]"@,
        row.parent_id is Some <==> c.parent_id is Some,
        c.parent_id is Some ==> row.parent_id->0@ == id_text(c.parent_id->0),
        row.project is Some <==> c.project is Some,
        row.project is Some ==> row.project->0@ == c.project->0@,
{
    assert(optional_text(row.project) == optional_text(c.project));
}

/// Chunks, passages and answers that look the same have the same texts and numbers.
pub proof fn law_views_hold_every_field(
    c: DocumentChunk,
    e: EvidenceRef,
    q: QueryResult,
    texts: Seq<String>,
    i: int,
)
    ensures
        c@.id == c.id && c@.document_path == c.document_path@ && c@.content == c.content@,
        c@.section_path == texts_view(c.section_path@) && c@.parent_id == c.parent_id,
        c@.project == optional_text(c.project),
        e@.chunk_id == e.chunk_id && e@.document_path == e.document_path@,
        e@.section_path == texts_view(e.section_path@) && e@.snippet == e.snippet@,
        e@.weight == e.weight,
        q@.id == q.id@ && q@.document_path == q.document_path@ && q@.content == q.content@,
        q@.section_path == texts_view(q.section_path@),
        q@.parent_content == optional_text(q.parent_content),
        texts_view(texts).len() == texts.len(),
        0 <= i < texts.len() ==> texts_view(texts)[i] == texts[i]@,
        c.project is None ==> optional_text(c.project) is None,
        c.project is Some ==> optional_text(c.project) == Some(c.project->0@),
{
}

/// Lists of updates, passages, answers and chunks are seen item by item, with nothing left
/// out.
pub proof fn law_lists_are_seen_item_by_item(
    updates: Seq<(u128, Probability)>,
    counts: Seq<(u128, Counts)>,
    revised: Seq<(u128, (nat, nat))>,
    means: Map<u128, Probability>,
    refs: Seq<EvidenceRef>,
    answers: Seq<QueryResult>,
    chunks: Seq<DocumentChunk>,
    properties: Seq<Property>,
)
    ensures
        updates_view(updates).len() == updates.len(),
        forall|i: int|
            0 <= i < updates.len() ==> #[trigger] updates_view(updates)[i] == (
                updates[i].0,
                updates[i].1.units(),
            ),
        counts_view(counts).len() == counts.len(),
        forall|i: int|
            0 <= i < counts.len() ==> #[trigger] counts_view(counts)[i] == (
                counts[i].0,
                (counts[i].1.0.units(), counts[i].1.1.units()),
            ),
        means_of(revised).len() == revised.len(),
        forall|i: int|
            0 <= i < revised.len() ==> #[trigger] means_of(revised)[i] == (
                revised[i].0,
                mean_of(revised[i].1.0, revised[i].1.1),
            ),
        means_view(means).dom() == means.dom(),
        forall|id: u128| #[trigger]
            means.contains_key(id) ==> means_view(means)[id] == means[id].units(),
        evidence_view(refs).len() == refs.len(),
        forall|i: int| 0 <= i < refs.len() ==> #[trigger] evidence_view(refs)[i] == refs[i]@,
        answers_view(answers).len() == answers.len(),
        forall|i: int| 0 <= i < answers.len() ==> #[trigger] answers_view(answers)[i] == answers[i]@,
        chunks_view(chunks).len() == chunks.len(),
        forall|i: int| 0 <= i < chunks.len() ==> #[trigger] chunks_view(chunks)[i] == chunks[i]@,
        properties_view(properties).len() == properties.len(),
        forall|i: int|
            0 <= i < properties.len() ==> {
                let p = #[trigger] properties_view(properties)[i];
                &&& p.name == properties[i].name@ && p.kind == properties[i].kind
                &&& p.minimum == properties[i].minimum && p.maximum == properties[i].maximum
                &&& p.default == properties[i].default
                &&& p.is_memory_type == properties[i].is_memory_type
                &&& p.description is Some <==> properties[i].description is Some
                &&& p.description is Some ==> p.description->0 == properties[i].description->0@
            },
{
    assert(means_view(means).dom() =~= means.dom());
}

/// A refusal is known by its kind and its text.
pub proof fn law_refusals_are_known_by_their_text(s: String)
    ensures
        tool_error_view(ToolError::Missing(s)) == ToolError::Missing(s@),
        tool_error_view(ToolError::InvalidMemoryType(s)) == ToolError::InvalidMemoryType(s@),
        tool_error_view(ToolError::BadId(s)) == ToolError::BadId(s@),
        tool_error_view(ToolError::UnknownTool(s)) == ToolError::UnknownTool(s@),
{
}

/// A belief is written only when all its counts are finite, each of which goes by its name.
pub proof fn law_every_count_is_named(b: Belief)
    ensures
        named_counts(b).contains(("alpha"@, b.alpha)),
        named_counts(b).contains(("beta"@, b.beta)),
        named_counts(b).contains(("alpha0"@, b.alpha0)),
        named_counts(b).contains(("beta0"@, b.beta0)),
        all_finite(named_counts(b)) <==> b.alpha.is_finite() && b.beta.is_finite()
            && b.alpha0.is_finite() && b.beta0.is_finite(),
{
    let s = named_counts(b);
    assert(s[0] == ("alpha"@, b.alpha));
    assert(s[1] == ("beta"@, b.beta));
    assert(s[2] == ("alpha0"@, b.alpha0));
    assert(s[3] == ("beta0"@, b.beta0));
    if all_finite(s) {
        assert(s[0].1.is_finite() && s[1].1.is_finite() && s[2].1.is_finite()
            && s[3].1.is_finite());
    }
}

/// A request is known by all that it asks for.
pub proof fn law_requests_are_known_by_their_fields(r: ToolRequest<String>)
    ensures
        match (r, request_view(r)) {
            (
                ToolRequest::InsertBelief { content, probability, confidence, memory_type, project },
                v,
            ) => v == (ToolRequest::<Seq<char>>::InsertBelief {
                content: content@,
                probability,
                confidence,
                memory_type,
                project: optional_text(project),
            }),
            (ToolRequest::DeleteBelief { id }, v) => v == (ToolRequest::<Seq<char>>::DeleteBelief { id }),
            (ToolRequest::DeleteProject { project }, v) => v == (ToolRequest::<Seq<char>>::DeleteProject {
                project: project@,
            }),
            (ToolRequest::DeletePattern { id }, v) => v == (ToolRequest::<Seq<char>>::DeletePattern { id }),
            (ToolRequest::InsertPattern { situation, approach, success_rate }, v) => v == (
            ToolRequest::<Seq<char>>::InsertPattern {
                situation: situation@,
                approach: approach@,
                success_rate,
            }),
            (ToolRequest::RecordEdge { from_id, to_id, edge_type, weight }, v) => v == (
            ToolRequest::<Seq<char>>::RecordEdge { from_id, to_id, edge_type, weight }),
            (ToolRequest::GetBelief { id }, v) => v == (ToolRequest::<Seq<char>>::GetBelief { id }),
            (ToolRequest::ListBeliefs { project, memory_type }, v) => v == (
            ToolRequest::<Seq<char>>::ListBeliefs { project: optional_text(project), memory_type }),
            (ToolRequest::ListPatterns { project }, v) => v == (ToolRequest::<Seq<char>>::ListPatterns {
                project: optional_text(project),
            }),
            (ToolRequest::GetContradictions { project }, v) => v == (
            ToolRequest::<Seq<char>>::GetContradictions { project: optional_text(project) }),
            (ToolRequest::DecayAll { decay_factor, project }, v) => v == (ToolRequest::<Seq<char>>::DecayAll {
                decay_factor,
                project: optional_text(project),
            }),
            (
                ToolRequest::SweepExpiredDefeated { prob_threshold, grace_hours, project },
                v,
            ) => v == (ToolRequest::<Seq<char>>::SweepExpiredDefeated {
                prob_threshold,
                grace_hours,
                project: optional_text(project),
            }),
            (
                ToolRequest::QueryRelevant { context, limit, evidence_per_belief, project },
                v,
            ) => v == (ToolRequest::<Seq<char>>::QueryRelevant {
                context: context@,
                limit,
                evidence_per_belief,
                project: optional_text(project),
            }),
            (ToolRequest::AddEvidence { belief_id, chunk_id, weight }, v) => v == (
            ToolRequest::<Seq<char>>::AddEvidence { belief_id, chunk_id, weight }),
            (ToolRequest::GetEvidence { belief_id }, v) => v == (ToolRequest::<Seq<char>>::GetEvidence {
                belief_id,
            }),
            (ToolRequest::PropagateFrom { id }, v) => v == (ToolRequest::<Seq<char>>::PropagateFrom { id }),
            (ToolRequest::QueryIntervention { id, value }, v) => v == (
            ToolRequest::<Seq<char>>::QueryIntervention { id, value }),
            (ToolRequest::UpdateConfidence { id, confidence }, v) => v == (
            ToolRequest::<Seq<char>>::UpdateConfidence { id, confidence }),
            (ToolRequest::LoadDocument { path, project }, v) => v == (ToolRequest::<Seq<char>>::LoadDocument {
                path: path@,
                project: optional_text(project),
            }),
            (ToolRequest::QueryDocument { context, project, limit }, v) => v == (
            ToolRequest::<Seq<char>>::QueryDocument {
                context: context@,
                project: optional_text(project),
                limit,
            }),
            (ToolRequest::ClearDocument { path }, v) => v == (ToolRequest::<Seq<char>>::ClearDocument {
                path: path@,
            }),
        },
{
}

} // verus!
