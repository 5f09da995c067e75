//! What the calls of the tools ask for.
use vstd::prelude::*;

use crate::graph::{law_memory_type_names_differ, EdgeType, MemoryType};
use crate::ids::parsed_id;
use crate::json::{field, field_index, is_flag, is_number, is_text, is_whole, Json};
use crate::tools::{
    first_bad_id, first_missing, is_given, memory_named, refusal, request_of, ArgumentKind, Tool,
    ToolRequest, DEFAULT_GRACE_HOURS, DEFAULT_THRESHOLD, FULL_WEIGHT,
};

verus! {

/// An object has the value that stands first under a name; a value that is no object has
/// none.
pub proof fn law_the_first_field_of_a_name_counts(v: Json, name: Seq<char>, x: Json)
    ensures
        field(v, name) == Some(x) <==> v is Object && exists|i: int|
            {
                &&& 0 <= i < v->Object_0@.len()
                &&& (#[trigger] v->Object_0@[i]).0@ == name
                &&& v->Object_0@[i].1 == x
                &&& forall|k: int| 0 <= k < i ==> (#[trigger] v->Object_0@[k]).0@ != name
            },
{
    if v is Object {
        let fields = v->Object_0@;
        lemma_field_index(fields, name);
        let n = field_index(fields, name);
        if n < fields.len() {
            assert(fields[n].0@ == name);
        }
        if exists|i: int|
            {
                &&& 0 <= i < fields.len()
                &&& (#[trigger] fields[i]).0@ == name
                &&& fields[i].1 == x
                &&& forall|k: int| 0 <= k < i ==> (#[trigger] fields[k]).0@ != name
            } {
            let i = choose|i: int|
                {
                    &&& 0 <= i < fields.len()
                    &&& (#[trigger] fields[i]).0@ == name
                    &&& fields[i].1 == x
                    &&& forall|k: int| 0 <= k < i ==> (#[trigger] fields[k]).0@ != name
                };
            if i < n {
                assert(fields[i].0@ != name);
            }
        }
    }
}

proof fn lemma_field_index(fields: Seq<(String, Json)>, name: Seq<char>)
    ensures
        0 <= field_index(fields, name) <= fields.len(),
        field_index(fields, name) < fields.len() ==> fields[field_index(fields, name)].0@ == name,
        forall|k: int| 0 <= k < field_index(fields, name) ==> (#[trigger] fields[k]).0@ != name,
    decreases fields.len(),
{
    if fields.len() > 0 && fields[0].0@ != name {
        let rest = fields.drop_first();
        lemma_field_index(rest, name);
        assert forall|k: int| 0 <= k < field_index(fields, name) implies (
        #[trigger] fields[k]).0@ != name by {
            if k > 0 {
                assert(rest[k - 1] == fields[k]);
            }
        }
    }
}

/// An argument is a text, a number, a whole number or a flag exactly when its field holds
/// one.
pub proof fn law_arguments_are_of_their_kind(v: Json, name: Seq<char>)
    ensures
        field(v, name) is None ==> is_text(v, name) is None && is_number(v, name) is None
            && is_whole(v, name) is None && is_flag(v, name) is None,
        forall|x: Json| #[trigger]
            field(v, name) == Some(x) ==> {
                &&& is_text(v, name) == if x is Text {
                    Some(x->Text_0@)
                } else {
                    None
                }
                &&& is_number(v, name) == if x is Number {
                    x->Number_0.number
                } else {
                    None
                }
                &&& is_whole(v, name) == if x is Number {
                    x->Number_0.whole
                } else {
                    None
                }
                &&& is_flag(v, name) == if x is Flag {
                    Some(x->Flag_0)
                } else {
                    None
                }
            },
{
}

/// A memory type is named by its name alone.
pub proof fn law_memory_types_go_by_their_names(s: Seq<char>, t: MemoryType)
    ensures
        memory_named(s) == Some(t) <==> s == t.name(),
        memory_named(s) is None <==> forall|other: MemoryType| s != #[trigger] other.name(),
{
    if memory_named(s) is Some {
        let u = memory_named(s)->0;
        assert(s == u.name());
        if s == t.name() {
            law_memory_type_names_differ(u, t);
        }
    }
}

proof fn lemma_demands(args: Json, required: Seq<(Seq<char>, ArgumentKind)>)
    ensures
        first_missing(args, required) is None <==> forall|i: int|
            0 <= i < required.len() ==> is_given(
                args,
                (#[trigger] required[i]).0,
                required[i].1,
            ),
        first_bad_id(args, required) is None <==> forall|i: int|
            0 <= i < required.len() && (#[trigger] required[i]).1 == ArgumentKind::Id ==> parsed_id(
                is_text(args, required[i].0)->0,
            ) is Ok,
    decreases required.len(),
{
    if required.len() > 0 {
        let rest = required.drop_first();
        lemma_demands(args, rest);
        assert forall|i: int| 1 <= i < required.len() implies #[trigger] required[i] == rest[i
            - 1] by {}
        assert forall|i: int| 0 <= i < rest.len() implies #[trigger] rest[i] == required[i + 1] by {}
    }
}

/// A call is refused for the first required argument that is missing, or else for a memory
/// type that there is not, or else for an identifier that cannot be read; and for nothing
/// else.
pub proof fn law_calls_are_refused_for_their_arguments_only(tool: Tool, args: Json)
    ensures
        refusal(tool, args) is None <==> {
            &&& forall|i: int|
                0 <= i < tool.required().len() ==> is_given(
                    args,
                    (#[trigger] tool.required()[i]).0,
                    tool.required()[i].1,
                )
            &&& (tool == Tool::InsertBelief || tool == Tool::ListBeliefs) && is_text(
                args,
                "memory_type"@,
            ) is Some ==> exists|t: MemoryType|
                is_text(args, "memory_type"@)->0 == #[trigger] t.name()
            &&& forall|i: int|
                0 <= i < tool.required().len() && (#[trigger] tool.required()[i]).1
                    == ArgumentKind::Id ==> parsed_id(
                    is_text(args, tool.required()[i].0)->0,
                ) is Ok
        },
{
    lemma_demands(args, tool.required());
    if is_text(args, "memory_type"@) is Some {
        let s = is_text(args, "memory_type"@)->0;
        law_memory_types_go_by_their_names(s, MemoryType::Fact);
    }
}

/// A belief is inserted with the content, probability and confidence that are given, as a
/// fact where no memory type is named and else of the type that is, and in the project
/// that is named, if any.
pub proof fn law_inserting_a_belief(args: Json)
    ensures
        refusal(Tool::InsertBelief, args) is None <==> {
            &&& is_text(args, "content"@) is Some
            &&& is_number(args, "probability"@) is Some
            &&& is_number(args, "confidence"@) is Some
            &&& is_text(args, "memory_type"@) is Some ==> exists|t: MemoryType|
                    is_text(args, "memory_type"@)->0 == #[trigger] t.name()
        },
        refusal(Tool::InsertBelief, args) is None ==> (match request_of(Tool::InsertBelief, args) {
            ToolRequest::InsertBelief { content, probability, confidence, memory_type, project } => {
                &&& is_text(args, "content"@) == Some(content)
                &&& is_number(args, "probability"@) == Some(probability)
                &&& is_number(args, "confidence"@) == Some(confidence)
                &&& is_text(args, "memory_type"@) is None ==> memory_type == MemoryType::Fact
                &&& is_text(args, "memory_type"@) is Some ==> memory_type.name() == is_text(
                args,
                "memory_type"@,
            )->0
                &&& project == is_text(args, "project"@)
            },
            _ => false,
        }),
{
    law_calls_are_refused_for_their_arguments_only(Tool::InsertBelief, args);
    let required = Tool::InsertBelief.required();
    assert(required[0] == ("content"@, ArgumentKind::Text));
    assert(required[1] == ("probability"@, ArgumentKind::Number));
    assert(required[2] == ("confidence"@, ArgumentKind::Number));
    assert(required.len() == 3);
    if is_text(args, "memory_type"@) is Some {
        let s = is_text(args, "memory_type"@)->0;
        law_memory_types_go_by_their_names(s, MemoryType::Fact);
        if memory_named(s) is Some {
            law_memory_types_go_by_their_names(s, memory_named(s)->0);
        }
    }
}

/// The belief is deleted whose identifier is given.
pub proof fn law_deleting_a_belief(args: Json)
    ensures
        refusal(Tool::DeleteBelief, args) is None <==> {
            &&& is_text(args, "id"@) is Some
            &&& parsed_id(is_text(args, "id"@)->0) is Ok
        },
        refusal(Tool::DeleteBelief, args) is None ==> (match request_of(Tool::DeleteBelief, args) {
            ToolRequest::DeleteBelief { id } => {
                &&& parsed_id(is_text(args, "id"@)->0) == Ok::<u128, Seq<char>>(id)
            },
            _ => false,
        }),
{
    law_calls_are_refused_for_their_arguments_only(Tool::DeleteBelief, args);
    let required = Tool::DeleteBelief.required();
    assert(required[0] == ("id"@, ArgumentKind::Id));
    assert(required.len() == 1);
}

/// The project is deleted that is named.
pub proof fn law_deleting_a_project(args: Json)
    ensures
        refusal(Tool::DeleteProject, args) is None <==> is_text(args, "project"@) is Some,
        refusal(Tool::DeleteProject, args) is None ==> (match request_of(Tool::DeleteProject, args) {
            ToolRequest::DeleteProject { project } => {
                &&& is_text(args, "project"@) == Some(project)
            },
            _ => false,
        }),
{
    law_calls_are_refused_for_their_arguments_only(Tool::DeleteProject, args);
    let required = Tool::DeleteProject.required();
    assert(required[0] == ("project"@, ArgumentKind::Text));
    assert(required.len() == 1);
}

/// The pattern is deleted whose identifier is given.
pub proof fn law_deleting_a_pattern(args: Json)
    ensures
        refusal(Tool::DeletePattern, args) is None <==> {
            &&& is_text(args, "id"@) is Some
            &&& parsed_id(is_text(args, "id"@)->0) is Ok
        },
        refusal(Tool::DeletePattern, args) is None ==> (match request_of(Tool::DeletePattern, args) {
            ToolRequest::DeletePattern { id } => {
                &&& parsed_id(is_text(args, "id"@)->0) == Ok::<u128, Seq<char>>(id)
            },
            _ => false,
        }),
{
    law_calls_are_refused_for_their_arguments_only(Tool::DeletePattern, args);
    let required = Tool::DeletePattern.required();
    assert(required[0] == ("id"@, ArgumentKind::Id));
    assert(required.len() == 1);
}

/// A pattern is inserted with the situation, the approach and the success rate that are
/// given.
pub proof fn law_inserting_a_pattern(args: Json)
    ensures
        refusal(Tool::InsertPattern, args) is None <==> {
            &&& is_text(args, "situation"@) is Some
            &&& is_text(args, "approach"@) is Some
            &&& is_number(args, "success_rate"@) is Some
        },
        refusal(Tool::InsertPattern, args) is None ==> (match request_of(Tool::InsertPattern, args) {
            ToolRequest::InsertPattern { situation, approach, success_rate } => {
                &&& is_text(args, "situation"@) == Some(situation)
                &&& is_text(args, "approach"@) == Some(approach)
                &&& is_number(args, "success_rate"@) == Some(success_rate)
            },
            _ => false,
        }),
{
    law_calls_are_refused_for_their_arguments_only(Tool::InsertPattern, args);
    let required = Tool::InsertPattern.required();
    assert(required[0] == ("situation"@, ArgumentKind::Text));
    assert(required[1] == ("approach"@, ArgumentKind::Text));
    assert(required[2] == ("success_rate"@, ArgumentKind::Number));
    assert(required.len() == 3);
}

/// A supporting edge is recorded from the one belief to the other, with the weight that
/// is given.
pub proof fn law_recording_support(args: Json)
    ensures
        refusal(Tool::RecordSupport, args) is None <==> {
            &&& is_text(args, "from_id"@) is Some
            &&& parsed_id(is_text(args, "from_id"@)->0) is Ok
            &&& is_text(args, "to_id"@) is Some
            &&& parsed_id(is_text(args, "to_id"@)->0) is Ok
            &&& is_number(args, "weight"@) is Some
        },
        refusal(Tool::RecordSupport, args) is None ==> (match request_of(Tool::RecordSupport, args) {
            ToolRequest::RecordEdge { from_id, to_id, edge_type, weight } => {
                &&& parsed_id(is_text(args, "from_id"@)->0) == Ok::<u128, Seq<char>>(from_id)
                &&& parsed_id(is_text(args, "to_id"@)->0) == Ok::<u128, Seq<char>>(to_id)
                &&& edge_type == EdgeType::Supports
                &&& is_number(args, "weight"@) == Some(weight)
            },
            _ => false,
        }),
{
    law_calls_are_refused_for_their_arguments_only(Tool::RecordSupport, args);
    let required = Tool::RecordSupport.required();
    assert(required[0] == ("from_id"@, ArgumentKind::Id));
    assert(required[1] == ("to_id"@, ArgumentKind::Id));
    assert(required[2] == ("weight"@, ArgumentKind::Number));
    assert(required.len() == 3);
}

/// A causing edge is recorded from the one belief to the other, with the weight that
/// is given.
pub proof fn law_recording_a_cause(args: Json)
    ensures
        refusal(Tool::RecordCause, args) is None <==> {
            &&& is_text(args, "from_id"@) is Some
            &&& parsed_id(is_text(args, "from_id"@)->0) is Ok
            &&& is_text(args, "to_id"@) is Some
            &&& parsed_id(is_text(args, "to_id"@)->0) is Ok
            &&& is_number(args, "weight"@) is Some
        },
        refusal(Tool::RecordCause, args) is None ==> (match request_of(Tool::RecordCause, args) {
            ToolRequest::RecordEdge { from_id, to_id, edge_type, weight } => {
                &&& parsed_id(is_text(args, "from_id"@)->0) == Ok::<u128, Seq<char>>(from_id)
                &&& parsed_id(is_text(args, "to_id"@)->0) == Ok::<u128, Seq<char>>(to_id)
                &&& edge_type == EdgeType::Causes
                &&& is_number(args, "weight"@) == Some(weight)
            },
            _ => false,
        }),
{
    law_calls_are_refused_for_their_arguments_only(Tool::RecordCause, args);
    let required = Tool::RecordCause.required();
    assert(required[0] == ("from_id"@, ArgumentKind::Id));
    assert(required[1] == ("to_id"@, ArgumentKind::Id));
    assert(required[2] == ("weight"@, ArgumentKind::Number));
    assert(required.len() == 3);
}

/// A defeating edge is recorded from the one belief to the other, with the weight that
/// is given.
pub proof fn law_recording_a_defeat(args: Json)
    ensures
        refusal(Tool::RecordDefeat, args) is None <==> {
            &&& is_text(args, "from_id"@) is Some
            &&& parsed_id(is_text(args, "from_id"@)->0) is Ok
            &&& is_text(args, "to_id"@) is Some
            &&& parsed_id(is_text(args, "to_id"@)->0) is Ok
            &&& is_number(args, "weight"@) is Some
        },
        refusal(Tool::RecordDefeat, args) is None ==> (match request_of(Tool::RecordDefeat, args) {
            ToolRequest::RecordEdge { from_id, to_id, edge_type, weight } => {
                &&& parsed_id(is_text(args, "from_id"@)->0) == Ok::<u128, Seq<char>>(from_id)
                &&& parsed_id(is_text(args, "to_id"@)->0) == Ok::<u128, Seq<char>>(to_id)
                &&& edge_type == EdgeType::Defeats
                &&& is_number(args, "weight"@) == Some(weight)
            },
            _ => false,
        }),
{
    law_calls_are_refused_for_their_arguments_only(Tool::RecordDefeat, args);
    let required = Tool::RecordDefeat.required();
    assert(required[0] == ("from_id"@, ArgumentKind::Id));
    assert(required[1] == ("to_id"@, ArgumentKind::Id));
    assert(required[2] == ("weight"@, ArgumentKind::Number));
    assert(required.len() == 3);
}

/// A contradiction of two beliefs is recorded, of full weight where none is given.
pub proof fn law_recording_a_contradiction(args: Json)
    ensures
        refusal(Tool::RecordContradiction, args) is None <==> {
            &&& is_text(args, "id_a"@) is Some
            &&& parsed_id(is_text(args, "id_a"@)->0) is Ok
            &&& is_text(args, "id_b"@) is Some
            &&& parsed_id(is_text(args, "id_b"@)->0) is Ok
        },
        refusal(Tool::RecordContradiction, args) is None ==> (match request_of(Tool::RecordContradiction, args) {
            ToolRequest::RecordEdge { from_id, to_id, edge_type, weight } => {
                &&& parsed_id(is_text(args, "id_a"@)->0) == Ok::<u128, Seq<char>>(from_id)
                &&& parsed_id(is_text(args, "id_b"@)->0) == Ok::<u128, Seq<char>>(to_id)
                &&& edge_type == EdgeType::Contradicts
                &&& is_number(args, "weight"@) is Some ==> is_number(args, "weight"@) == Some(weight)
                &&& is_number(args, "weight"@) is None ==> weight.bits == FULL_WEIGHT
            },
            _ => false,
        }),
{
    law_calls_are_refused_for_their_arguments_only(Tool::RecordContradiction, args);
    let required = Tool::RecordContradiction.required();
    assert(required[0] == ("id_a"@, ArgumentKind::Id));
    assert(required[1] == ("id_b"@, ArgumentKind::Id));
    assert(required.len() == 2);
}

/// The belief is fetched whose identifier is given.
pub proof fn law_getting_a_belief(args: Json)
    ensures
        refusal(Tool::GetBelief, args) is None <==> {
            &&& is_text(args, "id"@) is Some
            &&& parsed_id(is_text(args, "id"@)->0) is Ok
        },
        refusal(Tool::GetBelief, args) is None ==> (match request_of(Tool::GetBelief, args) {
            ToolRequest::GetBelief { id } => {
                &&& parsed_id(is_text(args, "id"@)->0) == Ok::<u128, Seq<char>>(id)
            },
            _ => false,
        }),
{
    law_calls_are_refused_for_their_arguments_only(Tool::GetBelief, args);
    let required = Tool::GetBelief.required();
    assert(required[0] == ("id"@, ArgumentKind::Id));
    assert(required.len() == 1);
}

/// Beliefs are listed of the project and of the memory type that are named, or of all.
pub proof fn law_listing_beliefs(args: Json)
    ensures
        refusal(Tool::ListBeliefs, args) is None <==> {
            &&& is_text(args, "memory_type"@) is Some ==> exists|t: MemoryType|
                    is_text(args, "memory_type"@)->0 == #[trigger] t.name()
        },
        refusal(Tool::ListBeliefs, args) is None ==> (match request_of(Tool::ListBeliefs, args) {
            ToolRequest::ListBeliefs { project, memory_type } => {
                &&& project == is_text(args, "project"@)
                &&& is_text(args, "memory_type"@) is None ==> memory_type is None
                &&& is_text(args, "memory_type"@) is Some ==> memory_type is Some
                && memory_type->0.name() == is_text(args, "memory_type"@)->0
            },
            _ => false,
        }),
{
    law_calls_are_refused_for_their_arguments_only(Tool::ListBeliefs, args);
    if is_text(args, "memory_type"@) is Some {
        let s = is_text(args, "memory_type"@)->0;
        law_memory_types_go_by_their_names(s, MemoryType::Fact);
        if memory_named(s) is Some {
            law_memory_types_go_by_their_names(s, memory_named(s)->0);
        }
    }
}

/// Patterns are listed of the project that is named, or of all.
pub proof fn law_listing_patterns(args: Json)
    ensures
        refusal(Tool::ListPatterns, args) is None,
        refusal(Tool::ListPatterns, args) is None ==> (match request_of(Tool::ListPatterns, args) {
            ToolRequest::ListPatterns { project } => {
                &&& project == is_text(args, "project"@)
            },
            _ => false,
        }),
{
    law_calls_are_refused_for_their_arguments_only(Tool::ListPatterns, args);
}

/// Contradictions are fetched of the project that is named, or of all.
pub proof fn law_getting_contradictions(args: Json)
    ensures
        refusal(Tool::GetContradictions, args) is None,
        refusal(Tool::GetContradictions, args) is None ==> (match request_of(Tool::GetContradictions, args) {
            ToolRequest::GetContradictions { project } => {
                &&& project == is_text(args, "project"@)
            },
            _ => false,
        }),
{
    law_calls_are_refused_for_their_arguments_only(Tool::GetContradictions, args);
}

/// Beliefs decay by the factor that is given, if any, in the project that is named, or in
/// all.
pub proof fn law_decaying_all(args: Json)
    ensures
        refusal(Tool::DecayAll, args) is None,
        refusal(Tool::DecayAll, args) is None ==> (match request_of(Tool::DecayAll, args) {
            ToolRequest::DecayAll { decay_factor, project } => {
                &&& decay_factor == is_number(args, "decay_factor"@)
                &&& project == is_text(args, "project"@)
            },
            _ => false,
        }),
{
    law_calls_are_refused_for_their_arguments_only(Tool::DecayAll, args);
}

/// Defeated beliefs are swept with the threshold and the hours of grace that are given, or
/// the customary ones, in the project that is named, or in all.
pub proof fn law_sweeping_defeated_beliefs(args: Json)
    ensures
        refusal(Tool::SweepExpiredDefeated, args) is None,
        refusal(Tool::SweepExpiredDefeated, args) is None ==> (match request_of(Tool::SweepExpiredDefeated, args) {
            ToolRequest::SweepExpiredDefeated { prob_threshold, grace_hours, project } => {
                &&& is_number(args, "prob_threshold"@) is Some ==> is_number(args, "prob_threshold"@) == Some(prob_threshold)
                &&& is_number(args, "prob_threshold"@) is None ==> prob_threshold.bits == DEFAULT_THRESHOLD
                &&& is_number(args, "grace_hours"@) is Some ==> is_number(args, "grace_hours"@) == Some(grace_hours)
                &&& is_number(args, "grace_hours"@) is None ==> grace_hours.bits == DEFAULT_GRACE_HOURS
                &&& project == is_text(args, "project"@)
            },
            _ => false,
        }),
{
    law_calls_are_refused_for_their_arguments_only(Tool::SweepExpiredDefeated, args);
}

/// Beliefs are looked for that are relevant to the context, up to the limit that is given
/// or ten, with evidence only where it is asked for: as many passages as are given, or
/// three.
pub proof fn law_querying_beliefs(args: Json)
    ensures
        refusal(Tool::QueryRelevant, args) is None <==> is_text(args, "context"@) is Some,
        refusal(Tool::QueryRelevant, args) is None ==> (match request_of(Tool::QueryRelevant, args) {
            ToolRequest::QueryRelevant { context, limit, evidence_per_belief, project } => {
                &&& is_text(args, "context"@) == Some(context)
                &&& is_whole(args, "limit"@) is Some ==> limit == is_whole(args, "limit"@)->0 as usize
                &&& is_whole(args, "limit"@) is None ==> limit == 10
                &&& is_flag(args, "include_evidence"@) != Some(true) ==> evidence_per_belief is None
                &&& is_flag(args, "include_evidence"@) == Some(true) ==> evidence_per_belief == Some(
                match is_whole(args, "evidence_per_belief"@) {
                    Some(n) => n as usize,
                    None => 3,
                },
            )
                &&& project == is_text(args, "project"@)
            },
            _ => false,
        }),
{
    law_calls_are_refused_for_their_arguments_only(Tool::QueryRelevant, args);
    let required = Tool::QueryRelevant.required();
    assert(required[0] == ("context"@, ArgumentKind::Text));
    assert(required.len() == 1);
}

/// The chunk comes to ground the belief, with full weight where none is given.
pub proof fn law_adding_evidence(args: Json)
    ensures
        refusal(Tool::AddEvidence, args) is None <==> {
            &&& is_text(args, "belief_id"@) is Some
            &&& parsed_id(is_text(args, "belief_id"@)->0) is Ok
            &&& is_text(args, "chunk_id"@) is Some
            &&& parsed_id(is_text(args, "chunk_id"@)->0) is Ok
        },
        refusal(Tool::AddEvidence, args) is None ==> (match request_of(Tool::AddEvidence, args) {
            ToolRequest::AddEvidence { belief_id, chunk_id, weight } => {
                &&& parsed_id(is_text(args, "belief_id"@)->0) == Ok::<u128, Seq<char>>(belief_id)
                &&& parsed_id(is_text(args, "chunk_id"@)->0) == Ok::<u128, Seq<char>>(chunk_id)
                &&& is_number(args, "weight"@) is Some ==> is_number(args, "weight"@) == Some(weight)
                &&& is_number(args, "weight"@) is None ==> weight.bits == FULL_WEIGHT
            },
            _ => false,
        }),
{
    law_calls_are_refused_for_their_arguments_only(Tool::AddEvidence, args);
    let required = Tool::AddEvidence.required();
    assert(required[0] == ("belief_id"@, ArgumentKind::Id));
    assert(required[1] == ("chunk_id"@, ArgumentKind::Id));
    assert(required.len() == 2);
}

/// The evidence is fetched of the belief whose identifier is given.
pub proof fn law_getting_evidence(args: Json)
    ensures
        refusal(Tool::GetEvidence, args) is None <==> {
            &&& is_text(args, "belief_id"@) is Some
            &&& parsed_id(is_text(args, "belief_id"@)->0) is Ok
        },
        refusal(Tool::GetEvidence, args) is None ==> (match request_of(Tool::GetEvidence, args) {
            ToolRequest::GetEvidence { belief_id } => {
                &&& parsed_id(is_text(args, "belief_id"@)->0) == Ok::<u128, Seq<char>>(belief_id)
            },
            _ => false,
        }),
{
    law_calls_are_refused_for_their_arguments_only(Tool::GetEvidence, args);
    let required = Tool::GetEvidence.required();
    assert(required[0] == ("belief_id"@, ArgumentKind::Id));
    assert(required.len() == 1);
}

/// The propagation starts from the belief whose identifier is given.
pub proof fn law_propagating(args: Json)
    ensures
        refusal(Tool::PropagateFrom, args) is None <==> {
            &&& is_text(args, "id"@) is Some
            &&& parsed_id(is_text(args, "id"@)->0) is Ok
        },
        refusal(Tool::PropagateFrom, args) is None ==> (match request_of(Tool::PropagateFrom, args) {
            ToolRequest::PropagateFrom { id } => {
                &&& parsed_id(is_text(args, "id"@)->0) == Ok::<u128, Seq<char>>(id)
            },
            _ => false,
        }),
{
    law_calls_are_refused_for_their_arguments_only(Tool::PropagateFrom, args);
    let required = Tool::PropagateFrom.required();
    assert(required[0] == ("id"@, ArgumentKind::Id));
    assert(required.len() == 1);
}

/// The intervention sets the belief whose identifier is given to the value that is given.
pub proof fn law_intervening(args: Json)
    ensures
        refusal(Tool::QueryIntervention, args) is None <==> {
            &&& is_text(args, "id"@) is Some
            &&& parsed_id(is_text(args, "id"@)->0) is Ok
            &&& is_number(args, "value"@) is Some
        },
        refusal(Tool::QueryIntervention, args) is None ==> (match request_of(Tool::QueryIntervention, args) {
            ToolRequest::QueryIntervention { id, value } => {
                &&& parsed_id(is_text(args, "id"@)->0) == Ok::<u128, Seq<char>>(id)
                &&& is_number(args, "value"@) == Some(value)
            },
            _ => false,
        }),
{
    law_calls_are_refused_for_their_arguments_only(Tool::QueryIntervention, args);
    let required = Tool::QueryIntervention.required();
    assert(required[0] == ("id"@, ArgumentKind::Id));
    assert(required[1] == ("value"@, ArgumentKind::Number));
    assert(required.len() == 2);
}

/// The belief whose identifier is given gets the confidence that is given.
pub proof fn law_updating_a_confidence(args: Json)
    ensures
        refusal(Tool::UpdateConfidence, args) is None <==> {
            &&& is_text(args, "id"@) is Some
            &&& parsed_id(is_text(args, "id"@)->0) is Ok
            &&& is_number(args, "confidence"@) is Some
        },
        refusal(Tool::UpdateConfidence, args) is None ==> (match request_of(Tool::UpdateConfidence, args) {
            ToolRequest::UpdateConfidence { id, confidence } => {
                &&& parsed_id(is_text(args, "id"@)->0) == Ok::<u128, Seq<char>>(id)
                &&& is_number(args, "confidence"@) == Some(confidence)
            },
            _ => false,
        }),
{
    law_calls_are_refused_for_their_arguments_only(Tool::UpdateConfidence, args);
    let required = Tool::UpdateConfidence.required();
    assert(required[0] == ("id"@, ArgumentKind::Id));
    assert(required[1] == ("confidence"@, ArgumentKind::Number));
    assert(required.len() == 2);
}

/// The document at the path is loaded into the project that is named, if any.
pub proof fn law_loading_a_document(args: Json)
    ensures
        refusal(Tool::LoadDocument, args) is None <==> is_text(args, "path"@) is Some,
        refusal(Tool::LoadDocument, args) is None ==> (match request_of(Tool::LoadDocument, args) {
            ToolRequest::LoadDocument { path, project } => {
                &&& is_text(args, "path"@) == Some(path)
                &&& project == is_text(args, "project"@)
            },
            _ => false,
        }),
{
    law_calls_are_refused_for_their_arguments_only(Tool::LoadDocument, args);
    let required = Tool::LoadDocument.required();
    assert(required[0] == ("path"@, ArgumentKind::Text));
    assert(required.len() == 1);
}

/// Passages are looked for that are similar to the context, in the project that is named or
/// in all, up to the limit that is given or five.
pub proof fn law_querying_documents(args: Json)
    ensures
        refusal(Tool::QueryDocument, args) is None <==> is_text(args, "context"@) is Some,
        refusal(Tool::QueryDocument, args) is None ==> (match request_of(Tool::QueryDocument, args) {
            ToolRequest::QueryDocument { context, project, limit } => {
                &&& is_text(args, "context"@) == Some(context)
                &&& project == is_text(args, "project"@)
                &&& is_whole(args, "limit"@) is Some ==> limit == is_whole(args, "limit"@)->0 as usize
                &&& is_whole(args, "limit"@) is None ==> limit == 5
            },
            _ => false,
        }),
{
    law_calls_are_refused_for_their_arguments_only(Tool::QueryDocument, args);
    let required = Tool::QueryDocument.required();
    assert(required[0] == ("context"@, ArgumentKind::Text));
    assert(required.len() == 1);
}

/// The document at the path is cleared.
pub proof fn law_clearing_a_document(args: Json)
    ensures
        refusal(Tool::ClearDocument, args) is None <==> is_text(args, "path"@) is Some,
        refusal(Tool::ClearDocument, args) is None ==> (match request_of(Tool::ClearDocument, args) {
            ToolRequest::ClearDocument { path } => {
                &&& is_text(args, "path"@) == Some(path)
            },
            _ => false,
        }),
{
    law_calls_are_refused_for_their_arguments_only(Tool::ClearDocument, args);
    let required = Tool::ClearDocument.required();
    assert(required[0] == ("path"@, ArgumentKind::Text));
    assert(required.len() == 1);
}

} // verus!
