//! The tools that clients call over JSON-RPC: what they are called, which
//! arguments they take, and what a call asks for.
use vstd::arithmetic::power2::*;
use vstd::prelude::*;
use vstd::string::*;

use crate::binary64::{
    lemma_nearest_to_fraction, lemma_one_units, one, pattern_units, Binary64,
};
use crate::graph::{law_memory_type_names_differ, EdgeType, MemoryType};
use crate::ids::{parse_id, parsed_id};
use crate::json::{
    flag_field, is_flag, is_json, is_number, is_text, is_whole, number_field, text_field,
    whole_field, Json, JsonModel, JsonNumber,
};
use crate::rounding::round_to_precision;
use crate::text::same_text;

verus! {

/// What kind of value a property has.
#[derive(Clone, Copy, Debug, PartialEq, Eq, Structural)]
pub enum PropertyKind {
    Text,
    Number,
    Integer,
    Flag,
}

/// A bound or a default: a whole number, a number by its bit pattern, or a flag.
#[derive(Clone, Copy, Debug, PartialEq, Eq, Structural)]
pub enum Literal {
    Whole(u64),
    Number(u64),
    Flag(bool),
}

/// A property of a tool's arguments.
#[derive(Clone, Copy, Debug)]
pub struct Property {
    pub name: &'static str,
    pub kind: PropertyKind,
    pub minimum: Option<Literal>,
    pub maximum: Option<Literal>,
    pub default: Option<Literal>,
    /// Whether the value is the name of a memory type.
    pub is_memory_type: bool,
    pub description: Option<&'static str>,
}

/// A property as plain values.
pub struct PropertyModel {
    pub name: Seq<char>,
    pub kind: PropertyKind,
    pub minimum: Option<Literal>,
    pub maximum: Option<Literal>,
    pub default: Option<Literal>,
    pub is_memory_type: bool,
    pub description: Option<Seq<char>>,
}

pub open spec fn optional_literal(t: Option<&'static str>) -> Option<Seq<char>> {
    match t {
        Some(s) => Some(s@),
        None => None,
    }
}

impl View for Property {
    type V = PropertyModel;

    open spec fn view(&self) -> PropertyModel {
        PropertyModel {
            name: self.name@,
            kind: self.kind,
            minimum: self.minimum,
            maximum: self.maximum,
            default: self.default,
            is_memory_type: self.is_memory_type,
            description: optional_literal(self.description),
        }
    }
}

pub open spec fn properties_view(properties: Seq<Property>) -> Seq<PropertyModel> {
    Seq::new(properties.len(), |i: int| properties[i]@)
}

/// What a required argument has to be.
#[derive(Clone, Copy, Debug, PartialEq, Eq, Structural)]
pub enum ArgumentKind {
    Text,
    Number,
    /// A text that is read as an identifier.
    Id,
}

/// The tools that a client can call.
#[derive(Clone, Copy, Debug, PartialEq, Eq, Structural)]
pub enum Tool {
    InsertBelief,
    DeleteBelief,
    DeleteProject,
    DeletePattern,
    InsertPattern,
    RecordSupport,
    RecordCause,
    RecordDefeat,
    RecordContradiction,
    GetBelief,
    ListBeliefs,
    ListPatterns,
    GetContradictions,
    DecayAll,
    SweepExpiredDefeated,
    QueryRelevant,
    AddEvidence,
    GetEvidence,
    PropagateFrom,
    QueryIntervention,
    UpdateConfidence,
    LoadDocument,
    QueryDocument,
    ClearDocument,
}

pub const INSERT_BELIEF_DESCRIPTION: &'static str = "Add a new belief to the graph.";

pub const INSERT_BELIEF_PROJECT: &'static str = "Optional project scope. Beliefs in a project can be bulk-deleted with delete_project when the project is done.";

pub const INSERT_BELIEF_MEMORY_TYPE: &'static str = "Functional memory type. 'fact' (default): declarative knowledge that decays over time absent reinforcement. 'experiential': a hard-won working lesson (gotcha, corrected approach) \u{2014} exempt from time-decay, since its truth doesn't erode with elapsed time. 'working': task-local scratch memory, excluded from cross-session query_relevant retrieval.";

pub const DELETE_BELIEF_DESCRIPTION: &'static str = "Delete a belief and all its edges by ID. Returns {\"deleted\": true} if found, {\"deleted\": false} if not found.";

pub const DELETE_PROJECT_DESCRIPTION: &'static str = "Delete all beliefs tagged with a project name, along with their edges. Use this to forget project-specific knowledge when a project is complete.";

pub const DELETE_PATTERN_DESCRIPTION: &'static str = "Delete a pattern and all its edges by ID. Returns {\"deleted\": true} if found, {\"deleted\": false} if not found.";

pub const INSERT_PATTERN_DESCRIPTION: &'static str = "Add a new pattern to the graph.";

pub const RECORD_SUPPORT_DESCRIPTION: &'static str = "Add a SUPPORTS edge from one belief to another.";

pub const RECORD_CAUSE_DESCRIPTION: &'static str = "Add a CAUSES edge from one belief to another (from_id causes to_id). Causal edges are what query_intervention traverses for counterfactual do(...) queries; unlike record_defeat this does NOT trigger propagation.";

pub const RECORD_DEFEAT_DESCRIPTION: &'static str = "Add a DEFEATS edge and trigger defeat propagation cascade.";

pub const RECORD_CONTRADICTION_DESCRIPTION: &'static str = "Add a bidirectional CONTRADICTS relationship between two beliefs.";

pub const GET_BELIEF_DESCRIPTION: &'static str = "Get a belief by ID.";

pub const LIST_BELIEFS_DESCRIPTION: &'static str = "List beliefs. If project is given, restricts to that project's beliefs plus untagged (global) beliefs; omit to list everything.";

pub const LIST_BELIEFS_PROJECT: &'static str = "Restrict to this project's beliefs plus untagged (global) beliefs. Omit to list everything.";

pub const LIST_BELIEFS_MEMORY_TYPE: &'static str = "Restrict to this memory type. Useful for orphan cleanup of leftover Working beliefs from an interrupted prior session \u{2014} NOT a substitute for tracking the IDs of Working beliefs your own session wrote, since this filter has no session-identity concept and cannot distinguish your in-flight Working beliefs from a concurrent session's on a shared DB.";

pub const LIST_PATTERNS_DESCRIPTION: &'static str = "List patterns. If project is given, restricts to that project's patterns plus untagged (global) patterns; omit to list everything.";

pub const LIST_PATTERNS_PROJECT: &'static str = "Restrict to this project's patterns plus untagged (global) patterns. Omit to list everything.";

pub const GET_CONTRADICTIONS_DESCRIPTION: &'static str = "Find all actively contradicting belief pairs. If project is given, restricts to pairs where both beliefs are visible in that project's scope (tagged with project or untagged).";

pub const GET_CONTRADICTIONS_PROJECT: &'static str = "Only consider pairs where both beliefs are tagged with this project or untagged (global). Omit to consider every pair.";

pub const DECAY_ALL_DESCRIPTION: &'static str = "Apply time decay to beliefs and return count of updated beliefs. If project is given, restricts the sweep to that project's beliefs plus untagged (global) beliefs.";

pub const DECAY_ALL_PROJECT: &'static str = "Restrict the decay sweep to this project's beliefs plus untagged (global) beliefs. Omit to decay everything.";

pub const SWEEP_EXPIRED_DEFEATED_DESCRIPTION: &'static str = "Delete defeated beliefs whose grace period has elapsed (attenuated deletion \u{2014} a defeated belief is deleted only once its probability has decayed below prob_threshold AND grace_hours have passed since it was last defeated, giving a wrong record_defeat call time to be caught and reversed first). Returns count of beliefs deleted. If project is given, restricts the sweep to that project's beliefs plus untagged (global) beliefs.";

pub const SWEEP_EXPIRED_DEFEATED_PROB_THRESHOLD: &'static str = "Probability below which a defeated belief becomes eligible for deletion.";

pub const SWEEP_EXPIRED_DEFEATED_GRACE_HOURS: &'static str = "Hours since the belief was last defeated before it can be deleted.";

pub const SWEEP_EXPIRED_DEFEATED_PROJECT: &'static str = "Restrict the sweep to this project's beliefs plus untagged (global) beliefs. Omit to sweep everything.";

pub const QUERY_RELEVANT_DESCRIPTION: &'static str = "Hybrid retrieval: text match + graph-proximity expansion, ordered by probability. Set include_evidence=true to also return, per belief, the document passages that ground it (with weights). If project is given, restricts the candidate pool to that project's beliefs plus untagged (global) beliefs.";

pub const QUERY_RELEVANT_PROJECT: &'static str = "Restrict the candidate pool to this project's beliefs plus untagged (global) beliefs. Omit to search everything.";

pub const ADD_EVIDENCE_DESCRIPTION: &'static str = "Ground a belief in a document passage: create a GROUNDS edge from a DocumentChunk to a Belief. Read-only w.r.t. belief inference \u{2014} purely provenance. Get chunk_id from query_document results.";

pub const GET_EVIDENCE_DESCRIPTION: &'static str = "Return the document passages grounding a belief (its GROUNDS edges), strongest first.";

pub const PROPAGATE_FROM_DESCRIPTION: &'static str = "Run defeat propagation from a seed belief ID.";

pub const QUERY_INTERVENTION_DESCRIPTION: &'static str = "Counterfactual query P(downstream | do(target = value)). Severs the target's incoming edges and propagates along CAUSES edges only. READ-ONLY: returns projected probabilities for causal descendants; does NOT modify the graph. Use for 'if I change X, what downstream is affected?' \u{2014} distinct from query_relevant (evidential association) and propagate_from (which mutates).";

pub const UPDATE_CONFIDENCE_DESCRIPTION: &'static str = "Update the confidence value of a belief.";

pub const LOAD_DOCUMENT_DESCRIPTION: &'static str = "Parse a markdown file into heading-bounded chunks, embed each chunk, and index them for semantic search. Replaces existing chunks for the same path on reload. Requires [embeddings] in config.toml.";

pub const LOAD_DOCUMENT_PATH: &'static str = "Absolute or repo-relative path to the markdown file.";

pub const LOAD_DOCUMENT_PROJECT: &'static str = "Optional project tag. Chunks tagged with a project can be bulk-deleted via delete_project.";

pub const QUERY_DOCUMENT_DESCRIPTION: &'static str = "Semantic search over indexed document chunks. Embeds the query context and returns the most similar chunks ordered by cosine similarity. Requires [embeddings] in config.toml.";

pub const QUERY_DOCUMENT_CONTEXT: &'static str = "Query text to embed and search.";

pub const QUERY_DOCUMENT_PROJECT: &'static str = "Restrict search to chunks tagged with this project.";

pub const QUERY_DOCUMENT_LIMIT: &'static str = "Maximum results (0 = no limit).";

pub const CLEAR_DOCUMENT_DESCRIPTION: &'static str = "Remove all chunks and embeddings for a given document path. Returns {\"cleared\": N}. No-op if the path was never loaded.";

impl Tool {
    /// The name of the tool.
    pub open spec fn spec_name(self) -> Seq<char> {
        match self {
            Tool::InsertBelief => "insert_belief"@,
            Tool::DeleteBelief => "delete_belief"@,
            Tool::DeleteProject => "delete_project"@,
            Tool::DeletePattern => "delete_pattern"@,
            Tool::InsertPattern => "insert_pattern"@,
            Tool::RecordSupport => "record_support"@,
            Tool::RecordCause => "record_cause"@,
            Tool::RecordDefeat => "record_defeat"@,
            Tool::RecordContradiction => "record_contradiction"@,
            Tool::GetBelief => "get_belief"@,
            Tool::ListBeliefs => "list_beliefs"@,
            Tool::ListPatterns => "list_patterns"@,
            Tool::GetContradictions => "get_contradictions"@,
            Tool::DecayAll => "decay_all"@,
            Tool::SweepExpiredDefeated => "sweep_expired_defeated"@,
            Tool::QueryRelevant => "query_relevant"@,
            Tool::AddEvidence => "add_evidence"@,
            Tool::GetEvidence => "get_evidence"@,
            Tool::PropagateFrom => "propagate_from"@,
            Tool::QueryIntervention => "query_intervention"@,
            Tool::UpdateConfidence => "update_confidence"@,
            Tool::LoadDocument => "load_document"@,
            Tool::QueryDocument => "query_document"@,
            Tool::ClearDocument => "clear_document"@,
        }
    }

    /// The name of the tool.
    pub fn name(self) -> (r: &'static str)
        ensures
            r@ == self.spec_name(),
    {
        match self {
            Tool::InsertBelief => "insert_belief",
            Tool::DeleteBelief => "delete_belief",
            Tool::DeleteProject => "delete_project",
            Tool::DeletePattern => "delete_pattern",
            Tool::InsertPattern => "insert_pattern",
            Tool::RecordSupport => "record_support",
            Tool::RecordCause => "record_cause",
            Tool::RecordDefeat => "record_defeat",
            Tool::RecordContradiction => "record_contradiction",
            Tool::GetBelief => "get_belief",
            Tool::ListBeliefs => "list_beliefs",
            Tool::ListPatterns => "list_patterns",
            Tool::GetContradictions => "get_contradictions",
            Tool::DecayAll => "decay_all",
            Tool::SweepExpiredDefeated => "sweep_expired_defeated",
            Tool::QueryRelevant => "query_relevant",
            Tool::AddEvidence => "add_evidence",
            Tool::GetEvidence => "get_evidence",
            Tool::PropagateFrom => "propagate_from",
            Tool::QueryIntervention => "query_intervention",
            Tool::UpdateConfidence => "update_confidence",
            Tool::LoadDocument => "load_document",
            Tool::QueryDocument => "query_document",
            Tool::ClearDocument => "clear_document",
        }
    }

    /// What the tool does.
    pub open spec fn spec_description(self) -> Seq<char> {
        match self {
            Tool::InsertBelief => INSERT_BELIEF_DESCRIPTION@,
            Tool::DeleteBelief => DELETE_BELIEF_DESCRIPTION@,
            Tool::DeleteProject => DELETE_PROJECT_DESCRIPTION@,
            Tool::DeletePattern => DELETE_PATTERN_DESCRIPTION@,
            Tool::InsertPattern => INSERT_PATTERN_DESCRIPTION@,
            Tool::RecordSupport => RECORD_SUPPORT_DESCRIPTION@,
            Tool::RecordCause => RECORD_CAUSE_DESCRIPTION@,
            Tool::RecordDefeat => RECORD_DEFEAT_DESCRIPTION@,
            Tool::RecordContradiction => RECORD_CONTRADICTION_DESCRIPTION@,
            Tool::GetBelief => GET_BELIEF_DESCRIPTION@,
            Tool::ListBeliefs => LIST_BELIEFS_DESCRIPTION@,
            Tool::ListPatterns => LIST_PATTERNS_DESCRIPTION@,
            Tool::GetContradictions => GET_CONTRADICTIONS_DESCRIPTION@,
            Tool::DecayAll => DECAY_ALL_DESCRIPTION@,
            Tool::SweepExpiredDefeated => SWEEP_EXPIRED_DEFEATED_DESCRIPTION@,
            Tool::QueryRelevant => QUERY_RELEVANT_DESCRIPTION@,
            Tool::AddEvidence => ADD_EVIDENCE_DESCRIPTION@,
            Tool::GetEvidence => GET_EVIDENCE_DESCRIPTION@,
            Tool::PropagateFrom => PROPAGATE_FROM_DESCRIPTION@,
            Tool::QueryIntervention => QUERY_INTERVENTION_DESCRIPTION@,
            Tool::UpdateConfidence => UPDATE_CONFIDENCE_DESCRIPTION@,
            Tool::LoadDocument => LOAD_DOCUMENT_DESCRIPTION@,
            Tool::QueryDocument => QUERY_DOCUMENT_DESCRIPTION@,
            Tool::ClearDocument => CLEAR_DOCUMENT_DESCRIPTION@,
        }
    }

    /// What the tool does.
    pub fn description(self) -> (r: &'static str)
        ensures
            r@ == self.spec_description(),
    {
        match self {
            Tool::InsertBelief => INSERT_BELIEF_DESCRIPTION,
            Tool::DeleteBelief => DELETE_BELIEF_DESCRIPTION,
            Tool::DeleteProject => DELETE_PROJECT_DESCRIPTION,
            Tool::DeletePattern => DELETE_PATTERN_DESCRIPTION,
            Tool::InsertPattern => INSERT_PATTERN_DESCRIPTION,
            Tool::RecordSupport => RECORD_SUPPORT_DESCRIPTION,
            Tool::RecordCause => RECORD_CAUSE_DESCRIPTION,
            Tool::RecordDefeat => RECORD_DEFEAT_DESCRIPTION,
            Tool::RecordContradiction => RECORD_CONTRADICTION_DESCRIPTION,
            Tool::GetBelief => GET_BELIEF_DESCRIPTION,
            Tool::ListBeliefs => LIST_BELIEFS_DESCRIPTION,
            Tool::ListPatterns => LIST_PATTERNS_DESCRIPTION,
            Tool::GetContradictions => GET_CONTRADICTIONS_DESCRIPTION,
            Tool::DecayAll => DECAY_ALL_DESCRIPTION,
            Tool::SweepExpiredDefeated => SWEEP_EXPIRED_DEFEATED_DESCRIPTION,
            Tool::QueryRelevant => QUERY_RELEVANT_DESCRIPTION,
            Tool::AddEvidence => ADD_EVIDENCE_DESCRIPTION,
            Tool::GetEvidence => GET_EVIDENCE_DESCRIPTION,
            Tool::PropagateFrom => PROPAGATE_FROM_DESCRIPTION,
            Tool::QueryIntervention => QUERY_INTERVENTION_DESCRIPTION,
            Tool::UpdateConfidence => UPDATE_CONFIDENCE_DESCRIPTION,
            Tool::LoadDocument => LOAD_DOCUMENT_DESCRIPTION,
            Tool::QueryDocument => QUERY_DOCUMENT_DESCRIPTION,
            Tool::ClearDocument => CLEAR_DOCUMENT_DESCRIPTION,
        }
    }

    /// The tool of that name.
    pub fn from_name(s: &str) -> (r: Option<Tool>)
        ensures
            match r {
                Some(t) => s@ == t.spec_name(),
                None => forall|t: Tool| s@ != #[trigger] t.spec_name(),
            },
    {
        if same_text(s, "insert_belief") {
            Some(Tool::InsertBelief)
        } else if same_text(s, "delete_belief") {
            Some(Tool::DeleteBelief)
        } else if same_text(s, "delete_project") {
            Some(Tool::DeleteProject)
        } else if same_text(s, "delete_pattern") {
            Some(Tool::DeletePattern)
        } else if same_text(s, "insert_pattern") {
            Some(Tool::InsertPattern)
        } else if same_text(s, "record_support") {
            Some(Tool::RecordSupport)
        } else if same_text(s, "record_cause") {
            Some(Tool::RecordCause)
        } else if same_text(s, "record_defeat") {
            Some(Tool::RecordDefeat)
        } else if same_text(s, "record_contradiction") {
            Some(Tool::RecordContradiction)
        } else if same_text(s, "get_belief") {
            Some(Tool::GetBelief)
        } else if same_text(s, "list_beliefs") {
            Some(Tool::ListBeliefs)
        } else if same_text(s, "list_patterns") {
            Some(Tool::ListPatterns)
        } else if same_text(s, "get_contradictions") {
            Some(Tool::GetContradictions)
        } else if same_text(s, "decay_all") {
            Some(Tool::DecayAll)
        } else if same_text(s, "sweep_expired_defeated") {
            Some(Tool::SweepExpiredDefeated)
        } else if same_text(s, "query_relevant") {
            Some(Tool::QueryRelevant)
        } else if same_text(s, "add_evidence") {
            Some(Tool::AddEvidence)
        } else if same_text(s, "get_evidence") {
            Some(Tool::GetEvidence)
        } else if same_text(s, "propagate_from") {
            Some(Tool::PropagateFrom)
        } else if same_text(s, "query_intervention") {
            Some(Tool::QueryIntervention)
        } else if same_text(s, "update_confidence") {
            Some(Tool::UpdateConfidence)
        } else if same_text(s, "load_document") {
            Some(Tool::LoadDocument)
        } else if same_text(s, "query_document") {
            Some(Tool::QueryDocument)
        } else if same_text(s, "clear_document") {
            Some(Tool::ClearDocument)
        } else {
            None
        }
    }

    /// The properties of the arguments.
    pub open spec fn spec_properties(self) -> Seq<PropertyModel> {
        match self {
            Tool::InsertBelief => seq![
                PropertyModel {
                    name: "content"@,
                    kind: PropertyKind::Text,
                    minimum: None,
                    maximum: None,
                    default: None,
                    is_memory_type: false,
                    description: None,
                },
                PropertyModel {
                    name: "probability"@,
                    kind: PropertyKind::Number,
                    minimum: Some(Literal::Number(NOTHING)),
                    maximum: Some(Literal::Number(FULL_WEIGHT)),
                    default: None,
                    is_memory_type: false,
                    description: None,
                },
                PropertyModel {
                    name: "confidence"@,
                    kind: PropertyKind::Number,
                    minimum: Some(Literal::Number(NOTHING)),
                    maximum: Some(Literal::Number(FULL_WEIGHT)),
                    default: None,
                    is_memory_type: false,
                    description: None,
                },
                PropertyModel {
                    name: "project"@,
                    kind: PropertyKind::Text,
                    minimum: None,
                    maximum: None,
                    default: None,
                    is_memory_type: false,
                    description: Some(INSERT_BELIEF_PROJECT@),
                },
                PropertyModel {
                    name: "memory_type"@,
                    kind: PropertyKind::Text,
                    minimum: None,
                    maximum: None,
                    default: None,
                    is_memory_type: true,
                    description: Some(INSERT_BELIEF_MEMORY_TYPE@),
                },
            ],
            Tool::DeleteBelief => seq![
                PropertyModel {
                    name: "id"@,
                    kind: PropertyKind::Text,
                    minimum: None,
                    maximum: None,
                    default: None,
                    is_memory_type: false,
                    description: None,
                },
            ],
            Tool::DeleteProject => seq![
                PropertyModel {
                    name: "project"@,
                    kind: PropertyKind::Text,
                    minimum: None,
                    maximum: None,
                    default: None,
                    is_memory_type: false,
                    description: None,
                },
            ],
            Tool::DeletePattern => seq![
                PropertyModel {
                    name: "id"@,
                    kind: PropertyKind::Text,
                    minimum: None,
                    maximum: None,
                    default: None,
                    is_memory_type: false,
                    description: None,
                },
            ],
            Tool::InsertPattern => seq![
                PropertyModel {
                    name: "situation"@,
                    kind: PropertyKind::Text,
                    minimum: None,
                    maximum: None,
                    default: None,
                    is_memory_type: false,
                    description: None,
                },
                PropertyModel {
                    name: "approach"@,
                    kind: PropertyKind::Text,
                    minimum: None,
                    maximum: None,
                    default: None,
                    is_memory_type: false,
                    description: None,
                },
                PropertyModel {
                    name: "success_rate"@,
                    kind: PropertyKind::Number,
                    minimum: Some(Literal::Number(NOTHING)),
                    maximum: Some(Literal::Number(FULL_WEIGHT)),
                    default: None,
                    is_memory_type: false,
                    description: None,
                },
            ],
            Tool::RecordSupport => seq![
                PropertyModel {
                    name: "from_id"@,
                    kind: PropertyKind::Text,
                    minimum: None,
                    maximum: None,
                    default: None,
                    is_memory_type: false,
                    description: None,
                },
                PropertyModel {
                    name: "to_id"@,
                    kind: PropertyKind::Text,
                    minimum: None,
                    maximum: None,
                    default: None,
                    is_memory_type: false,
                    description: None,
                },
                PropertyModel {
                    name: "weight"@,
                    kind: PropertyKind::Number,
                    minimum: Some(Literal::Number(NOTHING)),
                    maximum: Some(Literal::Number(FULL_WEIGHT)),
                    default: None,
                    is_memory_type: false,
                    description: None,
                },
            ],
            Tool::RecordCause => seq![
                PropertyModel {
                    name: "from_id"@,
                    kind: PropertyKind::Text,
                    minimum: None,
                    maximum: None,
                    default: None,
                    is_memory_type: false,
                    description: None,
                },
                PropertyModel {
                    name: "to_id"@,
                    kind: PropertyKind::Text,
                    minimum: None,
                    maximum: None,
                    default: None,
                    is_memory_type: false,
                    description: None,
                },
                PropertyModel {
                    name: "weight"@,
                    kind: PropertyKind::Number,
                    minimum: Some(Literal::Number(NOTHING)),
                    maximum: Some(Literal::Number(FULL_WEIGHT)),
                    default: None,
                    is_memory_type: false,
                    description: None,
                },
            ],
            Tool::RecordDefeat => seq![
                PropertyModel {
                    name: "from_id"@,
                    kind: PropertyKind::Text,
                    minimum: None,
                    maximum: None,
                    default: None,
                    is_memory_type: false,
                    description: None,
                },
                PropertyModel {
                    name: "to_id"@,
                    kind: PropertyKind::Text,
                    minimum: None,
                    maximum: None,
                    default: None,
                    is_memory_type: false,
                    description: None,
                },
                PropertyModel {
                    name: "weight"@,
                    kind: PropertyKind::Number,
                    minimum: Some(Literal::Number(NOTHING)),
                    maximum: Some(Literal::Number(FULL_WEIGHT)),
                    default: None,
                    is_memory_type: false,
                    description: None,
                },
            ],
            Tool::RecordContradiction => seq![
                PropertyModel {
                    name: "id_a"@,
                    kind: PropertyKind::Text,
                    minimum: None,
                    maximum: None,
                    default: None,
                    is_memory_type: false,
                    description: None,
                },
                PropertyModel {
                    name: "id_b"@,
                    kind: PropertyKind::Text,
                    minimum: None,
                    maximum: None,
                    default: None,
                    is_memory_type: false,
                    description: None,
                },
                PropertyModel {
                    name: "weight"@,
                    kind: PropertyKind::Number,
                    minimum: Some(Literal::Number(NOTHING)),
                    maximum: Some(Literal::Number(FULL_WEIGHT)),
                    default: Some(Literal::Number(FULL_WEIGHT)),
                    is_memory_type: false,
                    description: None,
                },
            ],
            Tool::GetBelief => seq![
                PropertyModel {
                    name: "id"@,
                    kind: PropertyKind::Text,
                    minimum: None,
                    maximum: None,
                    default: None,
                    is_memory_type: false,
                    description: None,
                },
            ],
            Tool::ListBeliefs => seq![
                PropertyModel {
                    name: "project"@,
                    kind: PropertyKind::Text,
                    minimum: None,
                    maximum: None,
                    default: None,
                    is_memory_type: false,
                    description: Some(LIST_BELIEFS_PROJECT@),
                },
                PropertyModel {
                    name: "memory_type"@,
                    kind: PropertyKind::Text,
                    minimum: None,
                    maximum: None,
                    default: None,
                    is_memory_type: true,
                    description: Some(LIST_BELIEFS_MEMORY_TYPE@),
                },
            ],
            Tool::ListPatterns => seq![
                PropertyModel {
                    name: "project"@,
                    kind: PropertyKind::Text,
                    minimum: None,
                    maximum: None,
                    default: None,
                    is_memory_type: false,
                    description: Some(LIST_PATTERNS_PROJECT@),
                },
            ],
            Tool::GetContradictions => seq![
                PropertyModel {
                    name: "project"@,
                    kind: PropertyKind::Text,
                    minimum: None,
                    maximum: None,
                    default: None,
                    is_memory_type: false,
                    description: Some(GET_CONTRADICTIONS_PROJECT@),
                },
            ],
            Tool::DecayAll => seq![
                PropertyModel {
                    name: "decay_factor"@,
                    kind: PropertyKind::Number,
                    minimum: Some(Literal::Number(NOTHING)),
                    maximum: Some(Literal::Number(FULL_WEIGHT)),
                    default: Some(Literal::Number(DEFAULT_DECAY)),
                    is_memory_type: false,
                    description: None,
                },
                PropertyModel {
                    name: "project"@,
                    kind: PropertyKind::Text,
                    minimum: None,
                    maximum: None,
                    default: None,
                    is_memory_type: false,
                    description: Some(DECAY_ALL_PROJECT@),
                },
            ],
            Tool::SweepExpiredDefeated => seq![
                PropertyModel {
                    name: "prob_threshold"@,
                    kind: PropertyKind::Number,
                    minimum: Some(Literal::Number(NOTHING)),
                    maximum: Some(Literal::Number(FULL_WEIGHT)),
                    default: Some(Literal::Number(DEFAULT_THRESHOLD)),
                    is_memory_type: false,
                    description: Some(SWEEP_EXPIRED_DEFEATED_PROB_THRESHOLD@),
                },
                PropertyModel {
                    name: "grace_hours"@,
                    kind: PropertyKind::Number,
                    minimum: Some(Literal::Number(NOTHING)),
                    maximum: None,
                    default: Some(Literal::Number(DEFAULT_GRACE_HOURS)),
                    is_memory_type: false,
                    description: Some(SWEEP_EXPIRED_DEFEATED_GRACE_HOURS@),
                },
                PropertyModel {
                    name: "project"@,
                    kind: PropertyKind::Text,
                    minimum: None,
                    maximum: None,
                    default: None,
                    is_memory_type: false,
                    description: Some(SWEEP_EXPIRED_DEFEATED_PROJECT@),
                },
            ],
            Tool::QueryRelevant => seq![
                PropertyModel {
                    name: "context"@,
                    kind: PropertyKind::Text,
                    minimum: None,
                    maximum: None,
                    default: None,
                    is_memory_type: false,
                    description: None,
                },
                PropertyModel {
                    name: "limit"@,
                    kind: PropertyKind::Integer,
                    minimum: Some(Literal::Whole(0)),
                    maximum: None,
                    default: Some(Literal::Whole(10)),
                    is_memory_type: false,
                    description: None,
                },
                PropertyModel {
                    name: "include_evidence"@,
                    kind: PropertyKind::Flag,
                    minimum: None,
                    maximum: None,
                    default: Some(Literal::Flag(false)),
                    is_memory_type: false,
                    description: None,
                },
                PropertyModel {
                    name: "evidence_per_belief"@,
                    kind: PropertyKind::Integer,
                    minimum: Some(Literal::Whole(0)),
                    maximum: None,
                    default: Some(Literal::Whole(3)),
                    is_memory_type: false,
                    description: None,
                },
                PropertyModel {
                    name: "project"@,
                    kind: PropertyKind::Text,
                    minimum: None,
                    maximum: None,
                    default: None,
                    is_memory_type: false,
                    description: Some(QUERY_RELEVANT_PROJECT@),
                },
            ],
            Tool::AddEvidence => seq![
                PropertyModel {
                    name: "belief_id"@,
                    kind: PropertyKind::Text,
                    minimum: None,
                    maximum: None,
                    default: None,
                    is_memory_type: false,
                    description: None,
                },
                PropertyModel {
                    name: "chunk_id"@,
                    kind: PropertyKind::Text,
                    minimum: None,
                    maximum: None,
                    default: None,
                    is_memory_type: false,
                    description: None,
                },
                PropertyModel {
                    name: "weight"@,
                    kind: PropertyKind::Number,
                    minimum: Some(Literal::Number(NOTHING)),
                    maximum: Some(Literal::Number(FULL_WEIGHT)),
                    default: Some(Literal::Number(FULL_WEIGHT)),
                    is_memory_type: false,
                    description: None,
                },
            ],
            Tool::GetEvidence => seq![
                PropertyModel {
                    name: "belief_id"@,
                    kind: PropertyKind::Text,
                    minimum: None,
                    maximum: None,
                    default: None,
                    is_memory_type: false,
                    description: None,
                },
            ],
            Tool::PropagateFrom => seq![
                PropertyModel {
                    name: "id"@,
                    kind: PropertyKind::Text,
                    minimum: None,
                    maximum: None,
                    default: None,
                    is_memory_type: false,
                    description: None,
                },
            ],
            Tool::QueryIntervention => seq![
                PropertyModel {
                    name: "id"@,
                    kind: PropertyKind::Text,
                    minimum: None,
                    maximum: None,
                    default: None,
                    is_memory_type: false,
                    description: None,
                },
                PropertyModel {
                    name: "value"@,
                    kind: PropertyKind::Number,
                    minimum: Some(Literal::Number(NOTHING)),
                    maximum: Some(Literal::Number(FULL_WEIGHT)),
                    default: None,
                    is_memory_type: false,
                    description: None,
                },
            ],
            Tool::UpdateConfidence => seq![
                PropertyModel {
                    name: "id"@,
                    kind: PropertyKind::Text,
                    minimum: None,
                    maximum: None,
                    default: None,
                    is_memory_type: false,
                    description: None,
                },
                PropertyModel {
                    name: "confidence"@,
                    kind: PropertyKind::Number,
                    minimum: Some(Literal::Number(NOTHING)),
                    maximum: Some(Literal::Number(FULL_WEIGHT)),
                    default: None,
                    is_memory_type: false,
                    description: None,
                },
            ],
            Tool::LoadDocument => seq![
                PropertyModel {
                    name: "path"@,
                    kind: PropertyKind::Text,
                    minimum: None,
                    maximum: None,
                    default: None,
                    is_memory_type: false,
                    description: Some(LOAD_DOCUMENT_PATH@),
                },
                PropertyModel {
                    name: "project"@,
                    kind: PropertyKind::Text,
                    minimum: None,
                    maximum: None,
                    default: None,
                    is_memory_type: false,
                    description: Some(LOAD_DOCUMENT_PROJECT@),
                },
            ],
            Tool::QueryDocument => seq![
                PropertyModel {
                    name: "context"@,
                    kind: PropertyKind::Text,
                    minimum: None,
                    maximum: None,
                    default: None,
                    is_memory_type: false,
                    description: Some(QUERY_DOCUMENT_CONTEXT@),
                },
                PropertyModel {
                    name: "project"@,
                    kind: PropertyKind::Text,
                    minimum: None,
                    maximum: None,
                    default: None,
                    is_memory_type: false,
                    description: Some(QUERY_DOCUMENT_PROJECT@),
                },
                PropertyModel {
                    name: "limit"@,
                    kind: PropertyKind::Integer,
                    minimum: Some(Literal::Whole(0)),
                    maximum: None,
                    default: Some(Literal::Whole(5)),
                    is_memory_type: false,
                    description: Some(QUERY_DOCUMENT_LIMIT@),
                },
            ],
            Tool::ClearDocument => seq![
                PropertyModel {
                    name: "path"@,
                    kind: PropertyKind::Text,
                    minimum: None,
                    maximum: None,
                    default: None,
                    is_memory_type: false,
                    description: None,
                },
            ],
        }
    }

    /// The properties of the arguments.
    pub fn properties(self) -> (r: Vec<Property>)
        ensures
            properties_view(r@) == self.spec_properties(),
    {
        let mut r: Vec<Property> = Vec::new();
        match self {
            Tool::InsertBelief => {
                r.push(
                    Property {
                        name: "content",
                        kind: PropertyKind::Text,
                        minimum: None,
                        maximum: None,
                        default: None,
                        is_memory_type: false,
                        description: None,
                    },
                );
                r.push(
                    Property {
                        name: "probability",
                        kind: PropertyKind::Number,
                        minimum: Some(Literal::Number(NOTHING)),
                        maximum: Some(Literal::Number(FULL_WEIGHT)),
                        default: None,
                        is_memory_type: false,
                        description: None,
                    },
                );
                r.push(
                    Property {
                        name: "confidence",
                        kind: PropertyKind::Number,
                        minimum: Some(Literal::Number(NOTHING)),
                        maximum: Some(Literal::Number(FULL_WEIGHT)),
                        default: None,
                        is_memory_type: false,
                        description: None,
                    },
                );
                r.push(
                    Property {
                        name: "project",
                        kind: PropertyKind::Text,
                        minimum: None,
                        maximum: None,
                        default: None,
                        is_memory_type: false,
                        description: Some(INSERT_BELIEF_PROJECT),
                    },
                );
                r.push(
                    Property {
                        name: "memory_type",
                        kind: PropertyKind::Text,
                        minimum: None,
                        maximum: None,
                        default: None,
                        is_memory_type: true,
                        description: Some(INSERT_BELIEF_MEMORY_TYPE),
                    },
                );
            },
            Tool::DeleteBelief => {
                r.push(
                    Property {
                        name: "id",
                        kind: PropertyKind::Text,
                        minimum: None,
                        maximum: None,
                        default: None,
                        is_memory_type: false,
                        description: None,
                    },
                );
            },
            Tool::DeleteProject => {
                r.push(
                    Property {
                        name: "project",
                        kind: PropertyKind::Text,
                        minimum: None,
                        maximum: None,
                        default: None,
                        is_memory_type: false,
                        description: None,
                    },
                );
            },
            Tool::DeletePattern => {
                r.push(
                    Property {
                        name: "id",
                        kind: PropertyKind::Text,
                        minimum: None,
                        maximum: None,
                        default: None,
                        is_memory_type: false,
                        description: None,
                    },
                );
            },
            Tool::InsertPattern => {
                r.push(
                    Property {
                        name: "situation",
                        kind: PropertyKind::Text,
                        minimum: None,
                        maximum: None,
                        default: None,
                        is_memory_type: false,
                        description: None,
                    },
                );
                r.push(
                    Property {
                        name: "approach",
                        kind: PropertyKind::Text,
                        minimum: None,
                        maximum: None,
                        default: None,
                        is_memory_type: false,
                        description: None,
                    },
                );
                r.push(
                    Property {
                        name: "success_rate",
                        kind: PropertyKind::Number,
                        minimum: Some(Literal::Number(NOTHING)),
                        maximum: Some(Literal::Number(FULL_WEIGHT)),
                        default: None,
                        is_memory_type: false,
                        description: None,
                    },
                );
            },
            Tool::RecordSupport => {
                r.push(
                    Property {
                        name: "from_id",
                        kind: PropertyKind::Text,
                        minimum: None,
                        maximum: None,
                        default: None,
                        is_memory_type: false,
                        description: None,
                    },
                );
                r.push(
                    Property {
                        name: "to_id",
                        kind: PropertyKind::Text,
                        minimum: None,
                        maximum: None,
                        default: None,
                        is_memory_type: false,
                        description: None,
                    },
                );
                r.push(
                    Property {
                        name: "weight",
                        kind: PropertyKind::Number,
                        minimum: Some(Literal::Number(NOTHING)),
                        maximum: Some(Literal::Number(FULL_WEIGHT)),
                        default: None,
                        is_memory_type: false,
                        description: None,
                    },
                );
            },
            Tool::RecordCause => {
                r.push(
                    Property {
                        name: "from_id",
                        kind: PropertyKind::Text,
                        minimum: None,
                        maximum: None,
                        default: None,
                        is_memory_type: false,
                        description: None,
                    },
                );
                r.push(
                    Property {
                        name: "to_id",
                        kind: PropertyKind::Text,
                        minimum: None,
                        maximum: None,
                        default: None,
                        is_memory_type: false,
                        description: None,
                    },
                );
                r.push(
                    Property {
                        name: "weight",
                        kind: PropertyKind::Number,
                        minimum: Some(Literal::Number(NOTHING)),
                        maximum: Some(Literal::Number(FULL_WEIGHT)),
                        default: None,
                        is_memory_type: false,
                        description: None,
                    },
                );
            },
            Tool::RecordDefeat => {
                r.push(
                    Property {
                        name: "from_id",
                        kind: PropertyKind::Text,
                        minimum: None,
                        maximum: None,
                        default: None,
                        is_memory_type: false,
                        description: None,
                    },
                );
                r.push(
                    Property {
                        name: "to_id",
                        kind: PropertyKind::Text,
                        minimum: None,
                        maximum: None,
                        default: None,
                        is_memory_type: false,
                        description: None,
                    },
                );
                r.push(
                    Property {
                        name: "weight",
                        kind: PropertyKind::Number,
                        minimum: Some(Literal::Number(NOTHING)),
                        maximum: Some(Literal::Number(FULL_WEIGHT)),
                        default: None,
                        is_memory_type: false,
                        description: None,
                    },
                );
            },
            Tool::RecordContradiction => {
                r.push(
                    Property {
                        name: "id_a",
                        kind: PropertyKind::Text,
                        minimum: None,
                        maximum: None,
                        default: None,
                        is_memory_type: false,
                        description: None,
                    },
                );
                r.push(
                    Property {
                        name: "id_b",
                        kind: PropertyKind::Text,
                        minimum: None,
                        maximum: None,
                        default: None,
                        is_memory_type: false,
                        description: None,
                    },
                );
                r.push(
                    Property {
                        name: "weight",
                        kind: PropertyKind::Number,
                        minimum: Some(Literal::Number(NOTHING)),
                        maximum: Some(Literal::Number(FULL_WEIGHT)),
                        default: Some(Literal::Number(FULL_WEIGHT)),
                        is_memory_type: false,
                        description: None,
                    },
                );
            },
            Tool::GetBelief => {
                r.push(
                    Property {
                        name: "id",
                        kind: PropertyKind::Text,
                        minimum: None,
                        maximum: None,
                        default: None,
                        is_memory_type: false,
                        description: None,
                    },
                );
            },
            Tool::ListBeliefs => {
                r.push(
                    Property {
                        name: "project",
                        kind: PropertyKind::Text,
                        minimum: None,
                        maximum: None,
                        default: None,
                        is_memory_type: false,
                        description: Some(LIST_BELIEFS_PROJECT),
                    },
                );
                r.push(
                    Property {
                        name: "memory_type",
                        kind: PropertyKind::Text,
                        minimum: None,
                        maximum: None,
                        default: None,
                        is_memory_type: true,
                        description: Some(LIST_BELIEFS_MEMORY_TYPE),
                    },
                );
            },
            Tool::ListPatterns => {
                r.push(
                    Property {
                        name: "project",
                        kind: PropertyKind::Text,
                        minimum: None,
                        maximum: None,
                        default: None,
                        is_memory_type: false,
                        description: Some(LIST_PATTERNS_PROJECT),
                    },
                );
            },
            Tool::GetContradictions => {
                r.push(
                    Property {
                        name: "project",
                        kind: PropertyKind::Text,
                        minimum: None,
                        maximum: None,
                        default: None,
                        is_memory_type: false,
                        description: Some(GET_CONTRADICTIONS_PROJECT),
                    },
                );
            },
            Tool::DecayAll => {
                r.push(
                    Property {
                        name: "decay_factor",
                        kind: PropertyKind::Number,
                        minimum: Some(Literal::Number(NOTHING)),
                        maximum: Some(Literal::Number(FULL_WEIGHT)),
                        default: Some(Literal::Number(DEFAULT_DECAY)),
                        is_memory_type: false,
                        description: None,
                    },
                );
                r.push(
                    Property {
                        name: "project",
                        kind: PropertyKind::Text,
                        minimum: None,
                        maximum: None,
                        default: None,
                        is_memory_type: false,
                        description: Some(DECAY_ALL_PROJECT),
                    },
                );
            },
            Tool::SweepExpiredDefeated => {
                r.push(
                    Property {
                        name: "prob_threshold",
                        kind: PropertyKind::Number,
                        minimum: Some(Literal::Number(NOTHING)),
                        maximum: Some(Literal::Number(FULL_WEIGHT)),
                        default: Some(Literal::Number(DEFAULT_THRESHOLD)),
                        is_memory_type: false,
                        description: Some(SWEEP_EXPIRED_DEFEATED_PROB_THRESHOLD),
                    },
                );
                r.push(
                    Property {
                        name: "grace_hours",
                        kind: PropertyKind::Number,
                        minimum: Some(Literal::Number(NOTHING)),
                        maximum: None,
                        default: Some(Literal::Number(DEFAULT_GRACE_HOURS)),
                        is_memory_type: false,
                        description: Some(SWEEP_EXPIRED_DEFEATED_GRACE_HOURS),
                    },
                );
                r.push(
                    Property {
                        name: "project",
                        kind: PropertyKind::Text,
                        minimum: None,
                        maximum: None,
                        default: None,
                        is_memory_type: false,
                        description: Some(SWEEP_EXPIRED_DEFEATED_PROJECT),
                    },
                );
            },
            Tool::QueryRelevant => {
                r.push(
                    Property {
                        name: "context",
                        kind: PropertyKind::Text,
                        minimum: None,
                        maximum: None,
                        default: None,
                        is_memory_type: false,
                        description: None,
                    },
                );
                r.push(
                    Property {
                        name: "limit",
                        kind: PropertyKind::Integer,
                        minimum: Some(Literal::Whole(0)),
                        maximum: None,
                        default: Some(Literal::Whole(10)),
                        is_memory_type: false,
                        description: None,
                    },
                );
                r.push(
                    Property {
                        name: "include_evidence",
                        kind: PropertyKind::Flag,
                        minimum: None,
                        maximum: None,
                        default: Some(Literal::Flag(false)),
                        is_memory_type: false,
                        description: None,
                    },
                );
                r.push(
                    Property {
                        name: "evidence_per_belief",
                        kind: PropertyKind::Integer,
                        minimum: Some(Literal::Whole(0)),
                        maximum: None,
                        default: Some(Literal::Whole(3)),
                        is_memory_type: false,
                        description: None,
                    },
                );
                r.push(
                    Property {
                        name: "project",
                        kind: PropertyKind::Text,
                        minimum: None,
                        maximum: None,
                        default: None,
                        is_memory_type: false,
                        description: Some(QUERY_RELEVANT_PROJECT),
                    },
                );
            },
            Tool::AddEvidence => {
                r.push(
                    Property {
                        name: "belief_id",
                        kind: PropertyKind::Text,
                        minimum: None,
                        maximum: None,
                        default: None,
                        is_memory_type: false,
                        description: None,
                    },
                );
                r.push(
                    Property {
                        name: "chunk_id",
                        kind: PropertyKind::Text,
                        minimum: None,
                        maximum: None,
                        default: None,
                        is_memory_type: false,
                        description: None,
                    },
                );
                r.push(
                    Property {
                        name: "weight",
                        kind: PropertyKind::Number,
                        minimum: Some(Literal::Number(NOTHING)),
                        maximum: Some(Literal::Number(FULL_WEIGHT)),
                        default: Some(Literal::Number(FULL_WEIGHT)),
                        is_memory_type: false,
                        description: None,
                    },
                );
            },
            Tool::GetEvidence => {
                r.push(
                    Property {
                        name: "belief_id",
                        kind: PropertyKind::Text,
                        minimum: None,
                        maximum: None,
                        default: None,
                        is_memory_type: false,
                        description: None,
                    },
                );
            },
            Tool::PropagateFrom => {
                r.push(
                    Property {
                        name: "id",
                        kind: PropertyKind::Text,
                        minimum: None,
                        maximum: None,
                        default: None,
                        is_memory_type: false,
                        description: None,
                    },
                );
            },
            Tool::QueryIntervention => {
                r.push(
                    Property {
                        name: "id",
                        kind: PropertyKind::Text,
                        minimum: None,
                        maximum: None,
                        default: None,
                        is_memory_type: false,
                        description: None,
                    },
                );
                r.push(
                    Property {
                        name: "value",
                        kind: PropertyKind::Number,
                        minimum: Some(Literal::Number(NOTHING)),
                        maximum: Some(Literal::Number(FULL_WEIGHT)),
                        default: None,
                        is_memory_type: false,
                        description: None,
                    },
                );
            },
            Tool::UpdateConfidence => {
                r.push(
                    Property {
                        name: "id",
                        kind: PropertyKind::Text,
                        minimum: None,
                        maximum: None,
                        default: None,
                        is_memory_type: false,
                        description: None,
                    },
                );
                r.push(
                    Property {
                        name: "confidence",
                        kind: PropertyKind::Number,
                        minimum: Some(Literal::Number(NOTHING)),
                        maximum: Some(Literal::Number(FULL_WEIGHT)),
                        default: None,
                        is_memory_type: false,
                        description: None,
                    },
                );
            },
            Tool::LoadDocument => {
                r.push(
                    Property {
                        name: "path",
                        kind: PropertyKind::Text,
                        minimum: None,
                        maximum: None,
                        default: None,
                        is_memory_type: false,
                        description: Some(LOAD_DOCUMENT_PATH),
                    },
                );
                r.push(
                    Property {
                        name: "project",
                        kind: PropertyKind::Text,
                        minimum: None,
                        maximum: None,
                        default: None,
                        is_memory_type: false,
                        description: Some(LOAD_DOCUMENT_PROJECT),
                    },
                );
            },
            Tool::QueryDocument => {
                r.push(
                    Property {
                        name: "context",
                        kind: PropertyKind::Text,
                        minimum: None,
                        maximum: None,
                        default: None,
                        is_memory_type: false,
                        description: Some(QUERY_DOCUMENT_CONTEXT),
                    },
                );
                r.push(
                    Property {
                        name: "project",
                        kind: PropertyKind::Text,
                        minimum: None,
                        maximum: None,
                        default: None,
                        is_memory_type: false,
                        description: Some(QUERY_DOCUMENT_PROJECT),
                    },
                );
                r.push(
                    Property {
                        name: "limit",
                        kind: PropertyKind::Integer,
                        minimum: Some(Literal::Whole(0)),
                        maximum: None,
                        default: Some(Literal::Whole(5)),
                        is_memory_type: false,
                        description: Some(QUERY_DOCUMENT_LIMIT),
                    },
                );
            },
            Tool::ClearDocument => {
                r.push(
                    Property {
                        name: "path",
                        kind: PropertyKind::Text,
                        minimum: None,
                        maximum: None,
                        default: None,
                        is_memory_type: false,
                        description: None,
                    },
                );
            },
        }
        assert(properties_view(r@) =~= self.spec_properties());
        r
    }

    /// The arguments that have to be there, in the order in which they are asked for.
    pub open spec fn required(self) -> Seq<(Seq<char>, ArgumentKind)> {
        match self {
            Tool::InsertBelief => seq![
                ("content"@, ArgumentKind::Text),
                ("probability"@, ArgumentKind::Number),
                ("confidence"@, ArgumentKind::Number),
            ],
            Tool::DeleteBelief => seq![
                ("id"@, ArgumentKind::Id),
            ],
            Tool::DeleteProject => seq![
                ("project"@, ArgumentKind::Text),
            ],
            Tool::DeletePattern => seq![
                ("id"@, ArgumentKind::Id),
            ],
            Tool::InsertPattern => seq![
                ("situation"@, ArgumentKind::Text),
                ("approach"@, ArgumentKind::Text),
                ("success_rate"@, ArgumentKind::Number),
            ],
            Tool::RecordSupport => seq![
                ("from_id"@, ArgumentKind::Id),
                ("to_id"@, ArgumentKind::Id),
                ("weight"@, ArgumentKind::Number),
            ],
            Tool::RecordCause => seq![
                ("from_id"@, ArgumentKind::Id),
                ("to_id"@, ArgumentKind::Id),
                ("weight"@, ArgumentKind::Number),
            ],
            Tool::RecordDefeat => seq![
                ("from_id"@, ArgumentKind::Id),
                ("to_id"@, ArgumentKind::Id),
                ("weight"@, ArgumentKind::Number),
            ],
            Tool::RecordContradiction => seq![
                ("id_a"@, ArgumentKind::Id),
                ("id_b"@, ArgumentKind::Id),
            ],
            Tool::GetBelief => seq![
                ("id"@, ArgumentKind::Id),
            ],
            Tool::ListBeliefs => Seq::empty(),
            Tool::ListPatterns => Seq::empty(),
            Tool::GetContradictions => Seq::empty(),
            Tool::DecayAll => Seq::empty(),
            Tool::SweepExpiredDefeated => Seq::empty(),
            Tool::QueryRelevant => seq![
                ("context"@, ArgumentKind::Text),
            ],
            Tool::AddEvidence => seq![
                ("belief_id"@, ArgumentKind::Id),
                ("chunk_id"@, ArgumentKind::Id),
            ],
            Tool::GetEvidence => seq![
                ("belief_id"@, ArgumentKind::Id),
            ],
            Tool::PropagateFrom => seq![
                ("id"@, ArgumentKind::Id),
            ],
            Tool::QueryIntervention => seq![
                ("id"@, ArgumentKind::Id),
                ("value"@, ArgumentKind::Number),
            ],
            Tool::UpdateConfidence => seq![
                ("id"@, ArgumentKind::Id),
                ("confidence"@, ArgumentKind::Number),
            ],
            Tool::LoadDocument => seq![
                ("path"@, ArgumentKind::Text),
            ],
            Tool::QueryDocument => seq![
                ("context"@, ArgumentKind::Text),
            ],
            Tool::ClearDocument => seq![
                ("path"@, ArgumentKind::Text),
            ],
        }
    }

    /// The names of the arguments that have to be there.
    pub fn required_names(self) -> (r: Vec<&'static str>)
        ensures
            r@.len() == self.required().len(),
            forall|i: int| 0 <= i < r@.len() ==> (#[trigger] r@[i])@ == self.required()[i].0,
    {
        let mut r: Vec<&'static str> = Vec::new();
        match self {
            Tool::InsertBelief => {
                r.push("content");
                r.push("probability");
                r.push("confidence");
            },
            Tool::DeleteBelief => {
                r.push("id");
            },
            Tool::DeleteProject => {
                r.push("project");
            },
            Tool::DeletePattern => {
                r.push("id");
            },
            Tool::InsertPattern => {
                r.push("situation");
                r.push("approach");
                r.push("success_rate");
            },
            Tool::RecordSupport => {
                r.push("from_id");
                r.push("to_id");
                r.push("weight");
            },
            Tool::RecordCause => {
                r.push("from_id");
                r.push("to_id");
                r.push("weight");
            },
            Tool::RecordDefeat => {
                r.push("from_id");
                r.push("to_id");
                r.push("weight");
            },
            Tool::RecordContradiction => {
                r.push("id_a");
                r.push("id_b");
            },
            Tool::GetBelief => {
                r.push("id");
            },
            Tool::ListBeliefs => {
            },
            Tool::ListPatterns => {
            },
            Tool::GetContradictions => {
            },
            Tool::DecayAll => {
            },
            Tool::SweepExpiredDefeated => {
            },
            Tool::QueryRelevant => {
                r.push("context");
            },
            Tool::AddEvidence => {
                r.push("belief_id");
                r.push("chunk_id");
            },
            Tool::GetEvidence => {
                r.push("belief_id");
            },
            Tool::PropagateFrom => {
                r.push("id");
            },
            Tool::QueryIntervention => {
                r.push("id");
                r.push("value");
            },
            Tool::UpdateConfidence => {
                r.push("id");
                r.push("confidence");
            },
            Tool::LoadDocument => {
                r.push("path");
            },
            Tool::QueryDocument => {
                r.push("context");
            },
            Tool::ClearDocument => {
                r.push("path");
            },
        }
        r
    }
}

/// All tools, in the order in which they are listed.
pub open spec fn all_tools() -> Seq<Tool> {
    seq![
        Tool::InsertBelief,
        Tool::DeleteBelief,
        Tool::DeleteProject,
        Tool::DeletePattern,
        Tool::InsertPattern,
        Tool::RecordSupport,
        Tool::RecordCause,
        Tool::RecordDefeat,
        Tool::RecordContradiction,
        Tool::GetBelief,
        Tool::ListBeliefs,
        Tool::ListPatterns,
        Tool::GetContradictions,
        Tool::DecayAll,
        Tool::SweepExpiredDefeated,
        Tool::QueryRelevant,
        Tool::AddEvidence,
        Tool::GetEvidence,
        Tool::PropagateFrom,
        Tool::QueryIntervention,
        Tool::UpdateConfidence,
        Tool::LoadDocument,
        Tool::QueryDocument,
        Tool::ClearDocument,
    ]
}

/// All tools, in the order in which they are listed.
pub fn tools_list() -> (r: Vec<Tool>)
    ensures
        r@ == all_tools(),
{
    let mut r: Vec<Tool> = Vec::new();
    r.push(Tool::InsertBelief);
    r.push(Tool::DeleteBelief);
    r.push(Tool::DeleteProject);
    r.push(Tool::DeletePattern);
    r.push(Tool::InsertPattern);
    r.push(Tool::RecordSupport);
    r.push(Tool::RecordCause);
    r.push(Tool::RecordDefeat);
    r.push(Tool::RecordContradiction);
    r.push(Tool::GetBelief);
    r.push(Tool::ListBeliefs);
    r.push(Tool::ListPatterns);
    r.push(Tool::GetContradictions);
    r.push(Tool::DecayAll);
    r.push(Tool::SweepExpiredDefeated);
    r.push(Tool::QueryRelevant);
    r.push(Tool::AddEvidence);
    r.push(Tool::GetEvidence);
    r.push(Tool::PropagateFrom);
    r.push(Tool::QueryIntervention);
    r.push(Tool::UpdateConfidence);
    r.push(Tool::LoadDocument);
    r.push(Tool::QueryDocument);
    r.push(Tool::ClearDocument);
    assert(r@ =~= all_tools());
    r
}

/// Every tool is listed.
pub proof fn law_every_tool_is_listed(t: Tool)
    ensures
        all_tools().contains(t),
{
    let all = all_tools();
    match t {
        Tool::InsertBelief => {
            assert(all[0] == t);
        },
        Tool::DeleteBelief => {
            assert(all[1] == t);
        },
        Tool::DeleteProject => {
            assert(all[2] == t);
        },
        Tool::DeletePattern => {
            assert(all[3] == t);
        },
        Tool::InsertPattern => {
            assert(all[4] == t);
        },
        Tool::RecordSupport => {
            assert(all[5] == t);
        },
        Tool::RecordCause => {
            assert(all[6] == t);
        },
        Tool::RecordDefeat => {
            assert(all[7] == t);
        },
        Tool::RecordContradiction => {
            assert(all[8] == t);
        },
        Tool::GetBelief => {
            assert(all[9] == t);
        },
        Tool::ListBeliefs => {
            assert(all[10] == t);
        },
        Tool::ListPatterns => {
            assert(all[11] == t);
        },
        Tool::GetContradictions => {
            assert(all[12] == t);
        },
        Tool::DecayAll => {
            assert(all[13] == t);
        },
        Tool::SweepExpiredDefeated => {
            assert(all[14] == t);
        },
        Tool::QueryRelevant => {
            assert(all[15] == t);
        },
        Tool::AddEvidence => {
            assert(all[16] == t);
        },
        Tool::GetEvidence => {
            assert(all[17] == t);
        },
        Tool::PropagateFrom => {
            assert(all[18] == t);
        },
        Tool::QueryIntervention => {
            assert(all[19] == t);
        },
        Tool::UpdateConfidence => {
            assert(all[20] == t);
        },
        Tool::LoadDocument => {
            assert(all[21] == t);
        },
        Tool::QueryDocument => {
            assert(all[22] == t);
        },
        Tool::ClearDocument => {
            assert(all[23] == t);
        },
    }
}

/// What a call asks for. `T` is the type of texts.
#[derive(Debug)]
pub enum ToolRequest<T> {
    InsertBelief {
        content: T,
        probability: Binary64,
        confidence: Binary64,
        memory_type: MemoryType,
        project: Option<T>,
    },
    DeleteBelief { id: u128 },
    DeleteProject { project: T },
    DeletePattern { id: u128 },
    InsertPattern { situation: T, approach: T, success_rate: Binary64 },
    RecordEdge { from_id: u128, to_id: u128, edge_type: EdgeType, weight: Binary64 },
    GetBelief { id: u128 },
    ListBeliefs { project: Option<T>, memory_type: Option<MemoryType> },
    ListPatterns { project: Option<T> },
    GetContradictions { project: Option<T> },
    DecayAll { decay_factor: Option<Binary64>, project: Option<T> },
    SweepExpiredDefeated { prob_threshold: Binary64, grace_hours: Binary64, project: Option<T> },
    /// `evidence_per_belief` is there where evidence is asked for.
    QueryRelevant {
        context: T,
        limit: usize,
        evidence_per_belief: Option<usize>,
        project: Option<T>,
    },
    AddEvidence { belief_id: u128, chunk_id: u128, weight: Binary64 },
    GetEvidence { belief_id: u128 },
    PropagateFrom { id: u128 },
    QueryIntervention { id: u128, value: Binary64 },
    UpdateConfidence { id: u128, confidence: Binary64 },
    LoadDocument { path: T, project: Option<T> },
    QueryDocument { context: T, project: Option<T>, limit: usize },
    ClearDocument { path: T },
}

/// Why a call is refused. `T` is the type of texts.
#[derive(Debug)]
pub enum ToolError<T> {
    /// A required argument is missing, or of another kind.
    Missing(T),
    /// The argument for the memory type names none.
    InvalidMemoryType(T),
    /// An identifier cannot be read, for the given reason.
    BadId(T),
    /// There is no tool of that name.
    UnknownTool(T),
}

/// An optional text by its characters.
pub open spec fn chars_opt(t: Option<String>) -> Option<Seq<char>> {
    match t {
        Some(s) => Some(s@),
        None => None,
    }
}

/// A request with its texts as characters.
pub open spec fn request_view(r: ToolRequest<String>) -> ToolRequest<Seq<char>> {
    match r {
        ToolRequest::InsertBelief {
            content,
            probability,
            confidence,
            memory_type,
            project,
        } => ToolRequest::InsertBelief {
            content: content@,
            probability,
            confidence,
            memory_type,
            project: chars_opt(project),
        },
        ToolRequest::DeleteBelief { id } => ToolRequest::DeleteBelief { id },
        ToolRequest::DeleteProject { project } => ToolRequest::DeleteProject { project: project@ },
        ToolRequest::DeletePattern { id } => ToolRequest::DeletePattern { id },
        ToolRequest::InsertPattern { situation, approach, success_rate } => {
            ToolRequest::InsertPattern {
                situation: situation@,
                approach: approach@,
                success_rate,
            }
        },
        ToolRequest::RecordEdge { from_id, to_id, edge_type, weight } => ToolRequest::RecordEdge {
            from_id,
            to_id,
            edge_type,
            weight,
        },
        ToolRequest::GetBelief { id } => ToolRequest::GetBelief { id },
        ToolRequest::ListBeliefs { project, memory_type } => ToolRequest::ListBeliefs {
            project: chars_opt(project),
            memory_type,
        },
        ToolRequest::ListPatterns { project } => ToolRequest::ListPatterns {
            project: chars_opt(project),
        },
        ToolRequest::GetContradictions { project } => ToolRequest::GetContradictions {
            project: chars_opt(project),
        },
        ToolRequest::DecayAll { decay_factor, project } => ToolRequest::DecayAll {
            decay_factor,
            project: chars_opt(project),
        },
        ToolRequest::SweepExpiredDefeated { prob_threshold, grace_hours, project } => {
            ToolRequest::SweepExpiredDefeated {
                prob_threshold,
                grace_hours,
                project: chars_opt(project),
            }
        },
        ToolRequest::QueryRelevant { context, limit, evidence_per_belief, project } => {
            ToolRequest::QueryRelevant {
                context: context@,
                limit,
                evidence_per_belief,
                project: chars_opt(project),
            }
        },
        ToolRequest::AddEvidence { belief_id, chunk_id, weight } => ToolRequest::AddEvidence {
            belief_id,
            chunk_id,
            weight,
        },
        ToolRequest::GetEvidence { belief_id } => ToolRequest::GetEvidence { belief_id },
        ToolRequest::PropagateFrom { id } => ToolRequest::PropagateFrom { id },
        ToolRequest::QueryIntervention { id, value } => ToolRequest::QueryIntervention {
            id,
            value,
        },
        ToolRequest::UpdateConfidence { id, confidence } => ToolRequest::UpdateConfidence {
            id,
            confidence,
        },
        ToolRequest::LoadDocument { path, project } => ToolRequest::LoadDocument {
            path: path@,
            project: chars_opt(project),
        },
        ToolRequest::QueryDocument { context, project, limit } => ToolRequest::QueryDocument {
            context: context@,
            project: chars_opt(project),
            limit,
        },
        ToolRequest::ClearDocument { path } => ToolRequest::ClearDocument { path: path@ },
    }
}

/// An error with its text as characters.
pub open spec fn tool_error_view(e: ToolError<String>) -> ToolError<Seq<char>> {
    match e {
        ToolError::Missing(s) => ToolError::Missing(s@),
        ToolError::InvalidMemoryType(s) => ToolError::InvalidMemoryType(s@),
        ToolError::BadId(s) => ToolError::BadId(s@),
        ToolError::UnknownTool(s) => ToolError::UnknownTool(s@),
    }
}

/// A required argument is there and of its kind.
pub open spec fn is_given(args: Json, name: Seq<char>, kind: ArgumentKind) -> bool {
    match kind {
        ArgumentKind::Text => is_text(args, name) is Some,
        ArgumentKind::Id => is_text(args, name) is Some,
        ArgumentKind::Number => is_number(args, name) is Some,
    }
}

/// The first required argument that is not given.
pub open spec fn first_missing(
    args: Json,
    required: Seq<(Seq<char>, ArgumentKind)>,
) -> Option<Seq<char>>
    decreases required.len(),
{
    if required.len() == 0 {
        None
    } else if !is_given(args, required[0].0, required[0].1) {
        Some(required[0].0)
    } else {
        first_missing(args, required.drop_first())
    }
}

/// Why the first identifier that cannot be read cannot be read.
pub open spec fn first_bad_id(
    args: Json,
    required: Seq<(Seq<char>, ArgumentKind)>,
) -> Option<Seq<char>>
    decreases required.len(),
{
    if required.len() == 0 {
        None
    } else if required[0].1 == ArgumentKind::Id && parsed_id(
        is_text(args, required[0].0)->0,
    ) is Err {
        Some(parsed_id(is_text(args, required[0].0)->0)->Err_0)
    } else {
        first_bad_id(args, required.drop_first())
    }
}

/// The tool takes a memory type.
pub open spec fn takes_memory_type(tool: Tool) -> bool {
    tool == Tool::InsertBelief || tool == Tool::ListBeliefs
}

/// The argument for the memory type names none.
pub open spec fn has_bad_memory_type(tool: Tool, args: Json) -> bool {
    takes_memory_type(tool) && match is_text(args, "memory_type"@) {
        Some(s) => memory_named(s) is None,
        None => false,
    }
}

/// Why a call of a tool is refused, if it is: a required argument is missing, or
/// else the memory type is none, or else an identifier cannot be read.
pub open spec fn refusal(tool: Tool, args: Json) -> Option<ToolError<Seq<char>>> {
    if first_missing(args, tool.required()) is Some {
        Some(ToolError::Missing(first_missing(args, tool.required())->0))
    } else if has_bad_memory_type(tool, args) {
        Some(ToolError::InvalidMemoryType(is_text(args, "memory_type"@)->0))
    } else if first_bad_id(args, tool.required()) is Some {
        Some(ToolError::BadId(first_bad_id(args, tool.required())->0))
    } else {
        None
    }
}

/// The identifier in an argument.
pub open spec fn id_argument(args: Json, name: Seq<char>) -> u128 {
    parsed_id(is_text(args, name)->0)->Ok_0
}

/// The number in an argument, or a default.
pub open spec fn number_or_bits(args: Json, name: Seq<char>, bits: u64) -> Binary64 {
    match is_number(args, name) {
        Some(v) => v,
        None => Binary64 { bits },
    }
}

/// The whole number in an argument, or a default.
pub open spec fn whole_or(args: Json, name: Seq<char>, default: u64) -> usize {
    match is_whole(args, name) {
        Some(v) => v as usize,
        None => default as usize,
    }
}

/// The memory type of that name.
pub open spec fn memory_named(s: Seq<char>) -> Option<MemoryType> {
    if s == MemoryType::Fact.name() {
        Some(MemoryType::Fact)
    } else if s == MemoryType::Experiential.name() {
        Some(MemoryType::Experiential)
    } else if s == MemoryType::Working.name() {
        Some(MemoryType::Working)
    } else {
        None
    }
}

/// The memory type that is asked for, if any.
pub open spec fn memory_argument(args: Json) -> Option<MemoryType> {
    match is_text(args, "memory_type"@) {
        Some(s) => memory_named(s),
        None => None,
    }
}

/// Bit patterns of the bounds and defaults: 0, 0.99, 1, 0.3 and 24.
pub const NOTHING: u64 = 0;

pub const DEFAULT_DECAY: u64 = 0x3FEF_AE14_7AE1_47AE;

pub const FULL_WEIGHT: u64 = 0x3FF0_0000_0000_0000;

pub const DEFAULT_THRESHOLD: u64 = 0x3FD3_3333_3333_3333;

pub const DEFAULT_GRACE_HOURS: u64 = 0x4038_0000_0000_0000;

/// What an accepted call asks for.
pub open spec fn request_of(tool: Tool, args: Json) -> ToolRequest<Seq<char>> {
    match tool {
        Tool::InsertBelief => ToolRequest::InsertBelief {
            content: is_text(args, "content"@)->0,
            probability: is_number(args, "probability"@)->0,
            confidence: is_number(args, "confidence"@)->0,
            memory_type: match memory_argument(args) {
                Some(t) => t,
                None => MemoryType::Fact,
            },
            project: is_text(args, "project"@),
        },
        Tool::DeleteBelief => ToolRequest::DeleteBelief { id: id_argument(args, "id"@) },
        Tool::DeleteProject => ToolRequest::DeleteProject {
            project: is_text(args, "project"@)->0,
        },
        Tool::DeletePattern => ToolRequest::DeletePattern { id: id_argument(args, "id"@) },
        Tool::InsertPattern => ToolRequest::InsertPattern {
            situation: is_text(args, "situation"@)->0,
            approach: is_text(args, "approach"@)->0,
            success_rate: is_number(args, "success_rate"@)->0,
        },
        Tool::RecordSupport => recorded_edge(args, EdgeType::Supports),
        Tool::RecordCause => recorded_edge(args, EdgeType::Causes),
        Tool::RecordDefeat => recorded_edge(args, EdgeType::Defeats),
        Tool::RecordContradiction => ToolRequest::RecordEdge {
            from_id: id_argument(args, "id_a"@),
            to_id: id_argument(args, "id_b"@),
            edge_type: EdgeType::Contradicts,
            weight: number_or_bits(args, "weight"@, FULL_WEIGHT),
        },
        Tool::GetBelief => ToolRequest::GetBelief { id: id_argument(args, "id"@) },
        Tool::ListBeliefs => ToolRequest::ListBeliefs {
            project: is_text(args, "project"@),
            memory_type: memory_argument(args),
        },
        Tool::ListPatterns => ToolRequest::ListPatterns { project: is_text(args, "project"@) },
        Tool::GetContradictions => ToolRequest::GetContradictions {
            project: is_text(args, "project"@),
        },
        Tool::DecayAll => ToolRequest::DecayAll {
            decay_factor: is_number(args, "decay_factor"@),
            project: is_text(args, "project"@),
        },
        Tool::SweepExpiredDefeated => ToolRequest::SweepExpiredDefeated {
            prob_threshold: number_or_bits(args, "prob_threshold"@, DEFAULT_THRESHOLD),
            grace_hours: number_or_bits(args, "grace_hours"@, DEFAULT_GRACE_HOURS),
            project: is_text(args, "project"@),
        },
        Tool::QueryRelevant => ToolRequest::QueryRelevant {
            context: is_text(args, "context"@)->0,
            limit: whole_or(args, "limit"@, 10),
            evidence_per_belief: if is_flag(args, "include_evidence"@) == Some(true) {
                Some(whole_or(args, "evidence_per_belief"@, 3))
            } else {
                None
            },
            project: is_text(args, "project"@),
        },
        Tool::AddEvidence => ToolRequest::AddEvidence {
            belief_id: id_argument(args, "belief_id"@),
            chunk_id: id_argument(args, "chunk_id"@),
            weight: number_or_bits(args, "weight"@, FULL_WEIGHT),
        },
        Tool::GetEvidence => ToolRequest::GetEvidence {
            belief_id: id_argument(args, "belief_id"@),
        },
        Tool::PropagateFrom => ToolRequest::PropagateFrom { id: id_argument(args, "id"@) },
        Tool::QueryIntervention => ToolRequest::QueryIntervention {
            id: id_argument(args, "id"@),
            value: is_number(args, "value"@)->0,
        },
        Tool::UpdateConfidence => ToolRequest::UpdateConfidence {
            id: id_argument(args, "id"@),
            confidence: is_number(args, "confidence"@)->0,
        },
        Tool::LoadDocument => ToolRequest::LoadDocument {
            path: is_text(args, "path"@)->0,
            project: is_text(args, "project"@),
        },
        Tool::QueryDocument => ToolRequest::QueryDocument {
            context: is_text(args, "context"@)->0,
            project: is_text(args, "project"@),
            limit: whole_or(args, "limit"@, 5),
        },
        Tool::ClearDocument => ToolRequest::ClearDocument { path: is_text(args, "path"@)->0 },
    }
}

/// The request for an edge with its weight given.
pub open spec fn recorded_edge(args: Json, edge_type: EdgeType) -> ToolRequest<Seq<char>> {
    ToolRequest::RecordEdge {
        from_id: id_argument(args, "from_id"@),
        to_id: id_argument(args, "to_id"@),
        edge_type,
        weight: is_number(args, "weight"@)->0,
    }
}

type Parsed<T> = Result<T, ToolError<String>>;

/// A text that has to be there.
fn need_text<'a>(args: &'a Json, name: &'static str) -> (r: Parsed<&'a str>)
    ensures
        match r {
            Ok(s) => is_text(*args, name@) == Some(s@),
            Err(e) => is_text(*args, name@) is None && tool_error_view(e) == ToolError::Missing(
                name@,
            ),
        },
{
    match text_field(args, name) {
        Some(s) => Ok(s),
        None => Err(ToolError::Missing(name.to_owned())),
    }
}

/// A number that has to be there.
fn need_number(args: &Json, name: &'static str) -> (r: Parsed<Binary64>)
    ensures
        match r {
            Ok(v) => is_number(*args, name@) == Some(v),
            Err(e) => is_number(*args, name@) is None && tool_error_view(e) == ToolError::Missing(
                name@,
            ),
        },
{
    match number_field(args, name) {
        Some(v) => Ok(v),
        None => Err(ToolError::Missing(name.to_owned())),
    }
}

/// An identifier, from its text.
fn need_id(text: &str) -> (r: Parsed<u128>)
    ensures
        match r {
            Ok(id) => parsed_id(text@) is Ok && parsed_id(text@)->Ok_0 == id,
            Err(e) => parsed_id(text@) is Err && tool_error_view(e) == ToolError::BadId(
                parsed_id(text@)->Err_0,
            ),
        },
{
    match parse_id(text) {
        Ok(id) => Ok(id),
        Err(message) => Err(ToolError::BadId(message)),
    }
}

/// A copy of a text that need not be there.
fn optional_field(args: &Json, name: &'static str) -> (r: Option<String>)
    ensures
        chars_opt(r) == is_text(*args, name@),
{
    match text_field(args, name) {
        Some(s) => Some(s.to_owned()),
        None => None,
    }
}

/// The memory type, where one is named.
fn memory_field(args: &Json) -> (r: Parsed<Option<MemoryType>>)
    ensures
        match r {
            Ok(t) => t == memory_argument(*args) && (is_text(*args, "memory_type"@) is Some
                ==> t is Some),
            Err(e) => match is_text(*args, "memory_type"@) {
                Some(s) => memory_named(s) is None && tool_error_view(e)
                    == ToolError::InvalidMemoryType(s),
                None => false,
            },
        },
{
    match text_field(args, "memory_type") {
        Some(s) => match MemoryType::parse(s) {
            Ok(t) => {
                proof {
                    law_memory_type_names_differ(t, memory_named(s@)->0);
                }
                Ok(Some(t))
            },
            Err(_) => Err(ToolError::InvalidMemoryType(s.to_owned())),
        },
        None => Ok(None),
    }
}

fn number_default(args: &Json, name: &'static str, bits: u64) -> (r: Binary64)
    ensures
        r == number_or_bits(*args, name@, bits),
{
    match number_field(args, name) {
        Some(v) => v,
        None => Binary64 { bits },
    }
}

fn whole_default(args: &Json, name: &'static str, default: u64) -> (r: usize)
    ensures
        r == whole_or(*args, name@, default),
{
    match whole_field(args, name) {
        Some(v) => v as usize,
        None => default as usize,
    }
}

proof fn lemma_required_step(args: Json, required: Seq<(Seq<char>, ArgumentKind)>)
    requires
        required.len() > 0,
    ensures
        first_missing(args, required) == if is_given(args, required[0].0, required[0].1) {
            first_missing(args, required.drop_first())
        } else {
            Some(required[0].0)
        },
        first_bad_id(args, required) == if required[0].1 == ArgumentKind::Id && parsed_id(
            is_text(args, required[0].0)->0,
        ) is Err {
            Some(parsed_id(is_text(args, required[0].0)->0)->Err_0)
        } else {
            first_bad_id(args, required.drop_first())
        },
{
}

/// Unfolds the list of up to three required arguments.
proof fn lemma_required(args: Json, required: Seq<(Seq<char>, ArgumentKind)>)
    requires
        required.len() <= 3,
    ensures
        ({
            let given = |i: int| is_given(args, required[i].0, required[i].1);
            let bad = |i: int|
                required[i].1 == ArgumentKind::Id && parsed_id(
                    is_text(args, required[i].0)->0,
                ) is Err;
            let n = required.len();
            &&& first_missing(args, required) == if n > 0 && !given(0) {
                Some(required[0].0)
            } else if n > 1 && !given(1) {
                Some(required[1].0)
            } else if n > 2 && !given(2) {
                Some(required[2].0)
            } else {
                None
            }
            &&& first_bad_id(args, required) == if n > 0 && bad(0) {
                Some(parsed_id(is_text(args, required[0].0)->0)->Err_0)
            } else if n > 1 && bad(1) {
                Some(parsed_id(is_text(args, required[1].0)->0)->Err_0)
            } else if n > 2 && bad(2) {
                Some(parsed_id(is_text(args, required[2].0)->0)->Err_0)
            } else {
                None
            }
        }),
{
    if required.len() > 0 {
        let r1 = required.drop_first();
        lemma_required_step(args, required);
        if r1.len() > 0 {
            let r2 = r1.drop_first();
            lemma_required_step(args, r1);
            if r2.len() > 0 {
                lemma_required_step(args, r2);
                assert(r2.drop_first().len() == 0);
            }
        }
    }
}

/// What a call of a tool asks for, or why it is refused.
pub fn read_call(tool: Tool, args: &Json) -> (r: Parsed<ToolRequest<String>>)
    ensures
        match r {
            Ok(request) => refusal(tool, *args) is None && request_view(request) == request_of(
                tool,
                *args,
            ),
            Err(e) => refusal(tool, *args) == Some(tool_error_view(e)),
        },
{
    proof {
        lemma_required(*args, tool.required());
    }
    match tool {
        Tool::InsertBelief => {
            let content = match need_text(args, "content") {
                Ok(s) => s,
                Err(e) => return Err(e),
            };
            let probability = match need_number(args, "probability") {
                Ok(v) => v,
                Err(e) => return Err(e),
            };
            let confidence = match need_number(args, "confidence") {
                Ok(v) => v,
                Err(e) => return Err(e),
            };
            let memory = match memory_field(args) {
                Ok(t) => t,
                Err(e) => return Err(e),
            };
            let memory_type = match memory {
                Some(t) => t,
                None => MemoryType::Fact,
            };
            Ok(
                ToolRequest::InsertBelief {
                    content: content.to_owned(),
                    probability,
                    confidence,
                    memory_type,
                    project: optional_field(args, "project"),
                },
            )
        },
        Tool::DeleteBelief => match one_id(args, "id") {
            Ok(id) => Ok(ToolRequest::DeleteBelief { id }),
            Err(e) => Err(e),
        },
        Tool::DeleteProject => match need_text(args, "project") {
            Ok(s) => Ok(ToolRequest::DeleteProject { project: s.to_owned() }),
            Err(e) => Err(e),
        },
        Tool::DeletePattern => match one_id(args, "id") {
            Ok(id) => Ok(ToolRequest::DeletePattern { id }),
            Err(e) => Err(e),
        },
        Tool::InsertPattern => {
            let situation = match need_text(args, "situation") {
                Ok(s) => s,
                Err(e) => return Err(e),
            };
            let approach = match need_text(args, "approach") {
                Ok(s) => s,
                Err(e) => return Err(e),
            };
            let success_rate = match need_number(args, "success_rate") {
                Ok(v) => v,
                Err(e) => return Err(e),
            };
            Ok(
                ToolRequest::InsertPattern {
                    situation: situation.to_owned(),
                    approach: approach.to_owned(),
                    success_rate,
                },
            )
        },
        Tool::RecordSupport => read_edge(tool, args, EdgeType::Supports),
        Tool::RecordCause => read_edge(tool, args, EdgeType::Causes),
        Tool::RecordDefeat => read_edge(tool, args, EdgeType::Defeats),
        Tool::RecordContradiction => {
            let (a, b) = match two_ids(args, "id_a", "id_b") {
                Ok(ids) => ids,
                Err(e) => return Err(e),
            };
            Ok(
                ToolRequest::RecordEdge {
                    from_id: a,
                    to_id: b,
                    edge_type: EdgeType::Contradicts,
                    weight: number_default(args, "weight", FULL_WEIGHT),
                },
            )
        },
        Tool::GetBelief => match one_id(args, "id") {
            Ok(id) => Ok(ToolRequest::GetBelief { id }),
            Err(e) => Err(e),
        },
        Tool::ListBeliefs => {
            let memory_type = match memory_field(args) {
                Ok(t) => t,
                Err(e) => return Err(e),
            };
            Ok(
                ToolRequest::ListBeliefs {
                    project: optional_field(args, "project"),
                    memory_type,
                },
            )
        },
        Tool::ListPatterns => Ok(
            ToolRequest::ListPatterns { project: optional_field(args, "project") },
        ),
        Tool::GetContradictions => Ok(
            ToolRequest::GetContradictions { project: optional_field(args, "project") },
        ),
        Tool::DecayAll => Ok(
            ToolRequest::DecayAll {
                decay_factor: number_field(args, "decay_factor"),
                project: optional_field(args, "project"),
            },
        ),
        Tool::SweepExpiredDefeated => Ok(
            ToolRequest::SweepExpiredDefeated {
                prob_threshold: number_default(args, "prob_threshold", DEFAULT_THRESHOLD),
                grace_hours: number_default(args, "grace_hours", DEFAULT_GRACE_HOURS),
                project: optional_field(args, "project"),
            },
        ),
        Tool::QueryRelevant => {
            let context = match need_text(args, "context") {
                Ok(s) => s,
                Err(e) => return Err(e),
            };
            let evidence_per_belief: Option<usize> = match flag_field(args, "include_evidence") {
                Some(true) => Some(whole_default(args, "evidence_per_belief", 3)),
                _ => None,
            };
            Ok(
                ToolRequest::QueryRelevant {
                    context: context.to_owned(),
                    limit: whole_default(args, "limit", 10),
                    evidence_per_belief,
                    project: optional_field(args, "project"),
                },
            )
        },
        Tool::AddEvidence => {
            let (belief_id, chunk_id) = match two_ids(args, "belief_id", "chunk_id") {
                Ok(ids) => ids,
                Err(e) => return Err(e),
            };
            Ok(
                ToolRequest::AddEvidence {
                    belief_id,
                    chunk_id,
                    weight: number_default(args, "weight", FULL_WEIGHT),
                },
            )
        },
        Tool::GetEvidence => match one_id(args, "belief_id") {
            Ok(belief_id) => Ok(ToolRequest::GetEvidence { belief_id }),
            Err(e) => Err(e),
        },
        Tool::PropagateFrom => match one_id(args, "id") {
            Ok(id) => Ok(ToolRequest::PropagateFrom { id }),
            Err(e) => Err(e),
        },
        Tool::QueryIntervention => {
            let id_text = match need_text(args, "id") {
                Ok(s) => s,
                Err(e) => return Err(e),
            };
            let value = match need_number(args, "value") {
                Ok(v) => v,
                Err(e) => return Err(e),
            };
            match need_id(id_text) {
                Ok(id) => Ok(ToolRequest::QueryIntervention { id, value }),
                Err(e) => Err(e),
            }
        },
        Tool::UpdateConfidence => {
            let id_text = match need_text(args, "id") {
                Ok(s) => s,
                Err(e) => return Err(e),
            };
            let confidence = match need_number(args, "confidence") {
                Ok(v) => v,
                Err(e) => return Err(e),
            };
            match need_id(id_text) {
                Ok(id) => Ok(ToolRequest::UpdateConfidence { id, confidence }),
                Err(e) => Err(e),
            }
        },
        Tool::LoadDocument => match need_text(args, "path") {
            Ok(s) => Ok(
                ToolRequest::LoadDocument {
                    path: s.to_owned(),
                    project: optional_field(args, "project"),
                },
            ),
            Err(e) => Err(e),
        },
        Tool::QueryDocument => match need_text(args, "context") {
            Ok(s) => Ok(
                ToolRequest::QueryDocument {
                    context: s.to_owned(),
                    project: optional_field(args, "project"),
                    limit: whole_default(args, "limit", 5),
                },
            ),
            Err(e) => Err(e),
        },
        Tool::ClearDocument => match need_text(args, "path") {
            Ok(s) => Ok(ToolRequest::ClearDocument { path: s.to_owned() }),
            Err(e) => Err(e),
        },
    }
}

/// The one identifier that a call takes.
fn one_id(args: &Json, name: &'static str) -> (r: Parsed<u128>)
    ensures
        match r {
            Ok(id) => is_text(*args, name@) is Some && parsed_id(is_text(*args, name@)->0) is Ok
                && id == id_argument(*args, name@),
            Err(e) => if is_text(*args, name@) is None {
                tool_error_view(e) == ToolError::Missing(name@)
            } else {
                parsed_id(is_text(*args, name@)->0) is Err && tool_error_view(e)
                    == ToolError::BadId(parsed_id(is_text(*args, name@)->0)->Err_0)
            },
        },
{
    match need_text(args, name) {
        Ok(s) => need_id(s),
        Err(e) => Err(e),
    }
}

/// The two identifiers that a call takes.
fn two_ids(args: &Json, first: &'static str, second: &'static str) -> (r: Parsed<(u128, u128)>)
    ensures
        ({
            let a = is_text(*args, first@);
            let b = is_text(*args, second@);
            match r {
                Ok(ids) => {
                    &&& a is Some && b is Some
                    &&& parsed_id(a->0) is Ok && parsed_id(b->0) is Ok
                    &&& ids.0 == id_argument(*args, first@)
                    &&& ids.1 == id_argument(*args, second@)
                },
                Err(e) => if a is None {
                    tool_error_view(e) == ToolError::Missing(first@)
                } else if b is None {
                    tool_error_view(e) == ToolError::Missing(second@)
                } else if parsed_id(a->0) is Err {
                    tool_error_view(e) == ToolError::BadId(parsed_id(a->0)->Err_0)
                } else {
                    parsed_id(b->0) is Err && tool_error_view(e) == ToolError::BadId(
                        parsed_id(b->0)->Err_0,
                    )
                },
            }
        }),
{
    let a = match need_text(args, first) {
        Ok(s) => s,
        Err(e) => return Err(e),
    };
    let b = match need_text(args, second) {
        Ok(s) => s,
        Err(e) => return Err(e),
    };
    let x: u128 = match need_id(a) {
        Ok(id) => id,
        Err(e) => return Err(e),
    };
    match need_id(b) {
        Ok(y) => Ok((x, y)),
        Err(e) => Err(e),
    }
}

/// The request for an edge with its weight given.
fn read_edge(tool: Tool, args: &Json, edge_type: EdgeType) -> (r: Parsed<ToolRequest<String>>)
    requires
        tool == Tool::RecordSupport || tool == Tool::RecordCause || tool == Tool::RecordDefeat,
    ensures
        match r {
            Ok(request) => refusal(tool, *args) is None && request_view(request) == recorded_edge(
                *args,
                edge_type,
            ),
            Err(e) => refusal(tool, *args) == Some(tool_error_view(e)),
        },
{
    proof {
        lemma_required(*args, tool.required());
    }
    let from_text = match need_text(args, "from_id") {
        Ok(s) => s,
        Err(e) => return Err(e),
    };
    let to_text = match need_text(args, "to_id") {
        Ok(s) => s,
        Err(e) => return Err(e),
    };
    let weight = match need_number(args, "weight") {
        Ok(v) => v,
        Err(e) => return Err(e),
    };
    let from_id: u128 = match need_id(from_text) {
        Ok(id) => id,
        Err(e) => return Err(e),
    };
    let to_id: u128 = match need_id(to_text) {
        Ok(id) => id,
        Err(e) => return Err(e),
    };
    Ok(ToolRequest::RecordEdge { from_id, to_id, edge_type, weight })
}

/// What a call of a tool by its name asks for, or why it is refused.
pub fn handle_tool_call(name: &str, args: &Json) -> (r: Parsed<ToolRequest<String>>)
    ensures
        match r {
            Ok(request) => exists|tool: Tool| #[trigger]
                tool.spec_name() == name@ && refusal(tool, *args) is None && request_view(request)
                    == request_of(tool, *args),
            Err(e) => if forall|t: Tool| name@ != #[trigger] t.spec_name() {
                tool_error_view(e) == ToolError::UnknownTool(name@)
            } else {
                exists|t: Tool| #[trigger] t.spec_name() == name@ && refusal(t, *args) == Some(
                    tool_error_view(e),
                )
            },
        },
{
    match Tool::from_name(name) {
        Some(tool) => {
            let r = read_call(tool, args);
            assert(name@ == tool.spec_name());
            r
        },
        None => Err(ToolError::UnknownTool(name.to_owned())),
    }
}

/// What a refused call is answered.
pub open spec fn error_text(e: ToolError<Seq<char>>) -> Seq<char> {
    match e {
        ToolError::Missing(name) => "missing '"@ + name + "'"@,
        ToolError::InvalidMemoryType(name) => {
            "invalid 'memory_type': unknown memory type: "@ + name
        },
        ToolError::BadId(reason) => reason,
        ToolError::UnknownTool(name) => "unknown tool: "@ + name,
    }
}

impl ToolError<String> {
    /// What a refused call is answered.
    pub fn message(&self) -> (r: String)
        ensures
            r@ == error_text(tool_error_view(*self)),
    {
        match self {
            ToolError::Missing(name) => {
                let mut r: String = "missing '".to_owned();
                r.append(name.as_str());
                r.append("'");
                r
            },
            ToolError::InvalidMemoryType(name) => {
                let mut r: String = "invalid 'memory_type': unknown memory type: ".to_owned();
                r.append(name.as_str());
                r
            },
            ToolError::BadId(reason) => reason.clone(),
            ToolError::UnknownTool(name) => {
                let mut r: String = "unknown tool: ".to_owned();
                r.append(name.as_str());
                r
            },
        }
    }
}

/// Whatever a tool requires is among the properties that it lists.
pub proof fn law_required_arguments_are_listed(tool: Tool, i: int)
    requires
        0 <= i < tool.required().len(),
    ensures
        exists|k: int|
            0 <= k < tool.spec_properties().len() && (#[trigger] tool.spec_properties()[k]).name
                == tool.required()[i].0,
{
    let properties = tool.spec_properties();
    let name = tool.required()[i].0;
    if properties.len() > 0 && properties[0].name == name {
    } else if properties.len() > 1 && properties[1].name == name {
    } else {
        assert(properties[2].name == name);
    }
}

/// A call that is not refused names all required arguments.
pub proof fn law_accepted_calls_are_complete(tool: Tool, args: Json, i: int)
    requires
        refusal(tool, args) is None,
        0 <= i < tool.required().len(),
    ensures
        is_given(args, tool.required()[i].0, tool.required()[i].1),
{
    lemma_required(args, tool.required());
}

/// No two tools share a name.
pub proof fn law_tool_names_differ(a: Tool, b: Tool)
    ensures
        a.spec_name() == b.spec_name() ==> a == b,
{
    reveal_strlit("insert_belief");
    reveal_strlit("delete_belief");
    reveal_strlit("delete_project");
    reveal_strlit("delete_pattern");
    reveal_strlit("insert_pattern");
    reveal_strlit("record_support");
    reveal_strlit("record_cause");
    reveal_strlit("record_defeat");
    reveal_strlit("record_contradiction");
    reveal_strlit("get_belief");
    reveal_strlit("list_beliefs");
    reveal_strlit("list_patterns");
    reveal_strlit("get_contradictions");
    reveal_strlit("decay_all");
    reveal_strlit("sweep_expired_defeated");
    reveal_strlit("query_relevant");
    reveal_strlit("add_evidence");
    reveal_strlit("get_evidence");
    reveal_strlit("propagate_from");
    reveal_strlit("query_intervention");
    reveal_strlit("update_confidence");
    reveal_strlit("load_document");
    reveal_strlit("query_document");
    reveal_strlit("clear_document");
    assert("insert_belief"@.len() == 13 && "insert_belief"@[0] == 'i' && "insert_belief"@[8] == 'e');
    assert("delete_belief"@.len() == 13 && "delete_belief"@[0] == 'd' && "delete_belief"@[8] == 'e');
    assert("delete_project"@.len() == 14 && "delete_project"@[0] == 'd' && "delete_project"@[8] == 'r');
    assert("delete_pattern"@.len() == 14 && "delete_pattern"@[0] == 'd' && "delete_pattern"@[8] == 'a');
    assert("insert_pattern"@.len() == 14 && "insert_pattern"@[0] == 'i' && "insert_pattern"@[8] == 'a');
    assert("record_support"@.len() == 14 && "record_support"@[0] == 'r' && "record_support"@[8] == 'u');
    assert("record_cause"@.len() == 12 && "record_cause"@[0] == 'r' && "record_cause"@[8] == 'a');
    assert("record_defeat"@.len() == 13 && "record_defeat"@[0] == 'r' && "record_defeat"@[8] == 'e');
    assert("record_contradiction"@.len() == 20 && "record_contradiction"@[0] == 'r' && "record_contradiction"@[8] == 'o');
    assert("get_belief"@.len() == 10 && "get_belief"@[0] == 'g' && "get_belief"@[8] == 'e');
    assert("list_beliefs"@.len() == 12 && "list_beliefs"@[0] == 'l' && "list_beliefs"@[8] == 'i');
    assert("list_patterns"@.len() == 13 && "list_patterns"@[0] == 'l' && "list_patterns"@[8] == 't');
    assert("get_contradictions"@.len() == 18 && "get_contradictions"@[0] == 'g' && "get_contradictions"@[8] == 'r');
    assert("decay_all"@.len() == 9 && "decay_all"@[0] == 'd' && "decay_all"@[8] == 'l');
    assert("sweep_expired_defeated"@.len() == 22 && "sweep_expired_defeated"@[0] == 's' && "sweep_expired_defeated"@[8] == 'p');
    assert("query_relevant"@.len() == 14 && "query_relevant"@[0] == 'q' && "query_relevant"@[8] == 'l');
    assert("add_evidence"@.len() == 12 && "add_evidence"@[0] == 'a' && "add_evidence"@[8] == 'e');
    assert("get_evidence"@.len() == 12 && "get_evidence"@[0] == 'g' && "get_evidence"@[8] == 'e');
    assert("propagate_from"@.len() == 14 && "propagate_from"@[0] == 'p' && "propagate_from"@[8] == 'e');
    assert("query_intervention"@.len() == 18 && "query_intervention"@[0] == 'q' && "query_intervention"@[8] == 't');
    assert("update_confidence"@.len() == 17 && "update_confidence"@[0] == 'u' && "update_confidence"@[8] == 'o');
    assert("load_document"@.len() == 13 && "load_document"@[0] == 'l' && "load_document"@[8] == 'u');
    assert("query_document"@.len() == 14 && "query_document"@[0] == 'q' && "query_document"@[8] == 'c');
    assert("clear_document"@.len() == 14 && "clear_document"@[0] == 'c' && "clear_document"@[8] == 'c');
}

/// The names of the memory types.
pub fn memory_type_choices() -> (r: Vec<&'static str>)
    ensures
        r@.len() == 3,
        r@[0]@ == MemoryType::Fact.name(),
        r@[1]@ == MemoryType::Experiential.name(),
        r@[2]@ == MemoryType::Working.name(),
{
    let mut r: Vec<&'static str> = Vec::new();
    r.push(MemoryType::Fact.as_str());
    r.push(MemoryType::Experiential.as_str());
    r.push(MemoryType::Working.as_str());
    r
}

/// What a kind of property is called.
pub open spec fn kind_name(kind: PropertyKind) -> Seq<char> {
    match kind {
        PropertyKind::Text => "string"@,
        PropertyKind::Number => "number"@,
        PropertyKind::Integer => "integer"@,
        PropertyKind::Flag => "boolean"@,
    }
}

/// A bound or a default as a JSON value.
pub open spec fn literal_model(l: Literal) -> JsonModel {
    match l {
        Literal::Whole(n) => JsonModel::Number(
            JsonNumber { whole: Some(n), signed: None, number: None },
        ),
        Literal::Number(bits) => JsonModel::Number(
            JsonNumber { whole: None, signed: None, number: Some(Binary64 { bits }) },
        ),
        Literal::Flag(b) => JsonModel::Flag(b),
    }
}

/// A field, where there is a bound or a default.
pub open spec fn literal_fields(name: Seq<char>, l: Option<Literal>) -> Seq<
    (Seq<char>, JsonModel),
> {
    match l {
        Some(l) => seq![(name, literal_model(l))],
        None => Seq::empty(),
    }
}

/// The fields of the schema of a property: its type, and its choices, bounds,
/// default and description as far as it has them.
pub open spec fn property_fields(p: PropertyModel) -> Seq<(Seq<char>, JsonModel)> {
    seq![("type"@, JsonModel::Text(kind_name(p.kind)))] + (if p.is_memory_type {
        seq![
            (
                "enum"@,
                JsonModel::List(
                    seq![
                        JsonModel::Text(MemoryType::Fact.name()),
                        JsonModel::Text(MemoryType::Experiential.name()),
                        JsonModel::Text(MemoryType::Working.name()),
                    ],
                ),
            ),
        ]
    } else {
        Seq::empty()
    }) + literal_fields("minimum"@, p.minimum) + literal_fields("maximum"@, p.maximum)
        + literal_fields("default"@, p.default) + (match p.description {
        Some(d) => seq![("description"@, JsonModel::Text(d))],
        None => Seq::empty(),
    })
}

/// The fields of the schema of a tool's arguments: that they are an object, its
/// properties by name, and which of them have to be there, where some have to.
pub open spec fn argument_fields(tool: Tool) -> Seq<(Seq<char>, JsonModel)> {
    let properties = tool.spec_properties();
    let required = tool.required();
    seq![
        ("type"@, JsonModel::Text("object"@)),
        (
            "properties"@,
            JsonModel::Object(
                Seq::new(
                    properties.len(),
                    |i: int| (properties[i].name, JsonModel::Object(property_fields(properties[i]))),
                ),
            ),
        ),
    ] + (if required.len() > 0 {
        seq![
            (
                "required"@,
                JsonModel::List(
                    Seq::new(required.len(), |i: int| JsonModel::Text(required[i].0)),
                ),
            ),
        ]
    } else {
        Seq::empty()
    })
}

/// How a tool is listed: its name, what it does, and the schema of its arguments.
pub open spec fn schema_model(tool: Tool) -> JsonModel {
    JsonModel::Object(
        seq![
            ("name"@, JsonModel::Text(tool.spec_name())),
            ("description"@, JsonModel::Text(tool.spec_description())),
            ("inputSchema"@, JsonModel::Object(argument_fields(tool))),
        ],
    )
}

/// The fields are those that the model gives.
spec fn are_fields(fields: Seq<(String, Json)>, model: Seq<(Seq<char>, JsonModel)>) -> bool {
    &&& fields.len() == model.len()
    &&& forall|i: int|
        0 <= i < fields.len() ==> (#[trigger] fields[i]).0@ == model[i].0 && is_json(
            fields[i].1,
            model[i].1,
        )
}

/// Adds a field.
fn add_field(
    fields: &mut Vec<(String, Json)>,
    name: &str,
    value: Json,
    before: Ghost<Seq<(Seq<char>, JsonModel)>>,
    model: Ghost<JsonModel>,
)
    requires
        are_fields(old(fields)@, before@),
        is_json(value, model@),
    ensures
        are_fields(final(fields)@, before@ + seq![(name@, model@)]),
{
    fields.push((name.to_owned(), value));
}

/// Adds a bound or a default, where there is one.
fn add_literal(
    fields: &mut Vec<(String, Json)>,
    name: &str,
    l: Option<Literal>,
    before: Ghost<Seq<(Seq<char>, JsonModel)>>,
)
    requires
        are_fields(old(fields)@, before@),
    ensures
        are_fields(final(fields)@, before@ + literal_fields(name@, l)),
{
    match l {
        Some(l) => {
            let value = match l {
                Literal::Whole(n) => Json::Number(
                    JsonNumber { whole: Some(n), signed: None, number: None },
                ),
                Literal::Number(bits) => Json::Number(
                    JsonNumber { whole: None, signed: None, number: Some(Binary64 { bits }) },
                ),
                Literal::Flag(b) => Json::Flag(b),
            };
            add_field(fields, name, value, before, Ghost(literal_model(l)));
        },
        None => {
            assert(before@ + Seq::<(Seq<char>, JsonModel)>::empty() =~= before@);
        },
    }
}

/// The names as a list of texts.
fn text_list(names: &Vec<&'static str>) -> (r: Json)
    ensures
        is_json(
            r,
            JsonModel::List(Seq::new(names@.len(), |i: int| JsonModel::Text(names@[i]@))),
        ),
{
    let n: usize = names.len();
    let mut list: Vec<Json> = Vec::new();
    let mut i: usize = 0;
    while i < n
        invariant
            i <= n,
            n == names@.len(),
            list@.len() == i,
            forall|k: int|
                0 <= k < i ==> is_json(#[trigger] list@[k], JsonModel::Text(names@[k]@)),
        decreases n - i,
    {
        list.push(Json::Text(names[i].to_owned()));
        i = i + 1;
    }
    Json::List(list)
}

/// The schema of a property.
fn property_schema(p: &Property) -> (r: Json)
    ensures
        is_json(r, JsonModel::Object(property_fields(p@))),
{
    let mut fields: Vec<(String, Json)> = Vec::new();
    let kind = match p.kind {
        PropertyKind::Text => "string",
        PropertyKind::Number => "number",
        PropertyKind::Integer => "integer",
        PropertyKind::Flag => "boolean",
    };
    let ghost none = Seq::<(Seq<char>, JsonModel)>::empty();
    let ghost m1 = seq![("type"@, JsonModel::Text(kind_name(p.kind)))];
    add_field(
        &mut fields,
        "type",
        Json::Text(kind.to_owned()),
        Ghost(none),
        Ghost(JsonModel::Text(kind_name(p.kind))),
    );
    assert(none + m1 =~= m1);
    let ghost choices = JsonModel::List(
        seq![
            JsonModel::Text(MemoryType::Fact.name()),
            JsonModel::Text(MemoryType::Experiential.name()),
            JsonModel::Text(MemoryType::Working.name()),
        ],
    );
    let ghost m2 = m1 + if p.is_memory_type {
        seq![("enum"@, choices)]
    } else {
        none
    };
    if p.is_memory_type {
        let names = memory_type_choices();
        let list = text_list(&names);
        assert(Seq::new(names@.len(), |i: int| JsonModel::Text(names@[i]@)) =~= choices->List_0);
        add_field(&mut fields, "enum", list, Ghost(m1), Ghost(choices));
    } else {
        assert(m1 + none =~= m1);
    }
    add_literal(&mut fields, "minimum", p.minimum, Ghost(m2));
    let ghost m3 = m2 + literal_fields("minimum"@, p.minimum);
    add_literal(&mut fields, "maximum", p.maximum, Ghost(m3));
    let ghost m4 = m3 + literal_fields("maximum"@, p.maximum);
    add_literal(&mut fields, "default", p.default, Ghost(m4));
    let ghost m5 = m4 + literal_fields("default"@, p.default);
    match p.description {
        Some(d) => {
            add_field(
                &mut fields,
                "description",
                Json::Text(d.to_owned()),
                Ghost(m5),
                Ghost(JsonModel::Text(d@)),
            );
        },
        None => {
            assert(m5 + none =~= m5);
        },
    }
    Json::Object(fields)
}

/// The schemas of the properties of a tool's arguments, by name.
fn properties_schema(tool: Tool) -> (r: Json)
    ensures
        is_json(r, argument_fields(tool)[1].1),
{
    let properties = tool.properties();
    let ghost models = tool.spec_properties();
    let n: usize = properties.len();
    let mut fields: Vec<(String, Json)> = Vec::new();
    let mut i: usize = 0;
    while i < n
        invariant
            i <= n,
            n == properties@.len(),
            models == properties_view(properties@),
            fields@.len() == i,
            forall|k: int|
                0 <= k < i ==> (#[trigger] fields@[k]).0@ == models[k].name && is_json(
                    fields@[k].1,
                    JsonModel::Object(property_fields(models[k])),
                ),
        decreases n - i,
    {
        let p = properties[i];
        assert(models[i as int] == p@);
        fields.push((p.name.to_owned(), property_schema(&p)));
        i = i + 1;
    }
    Json::Object(fields)
}

/// How a tool is listed: its name, what it does, and the schema of its arguments.
pub fn tool_schema(tool: Tool) -> (r: Json)
    ensures
        is_json(r, schema_model(tool)),
{
    let ghost model = argument_fields(tool);
    let ghost none = Seq::<(Seq<char>, JsonModel)>::empty();
    let mut schema: Vec<(String, Json)> = Vec::new();
    let ghost m1 = seq![("type"@, JsonModel::Text("object"@))];
    add_field(
        &mut schema,
        "type",
        Json::Text("object".to_owned()),
        Ghost(none),
        Ghost(JsonModel::Text("object"@)),
    );
    assert(none + m1 =~= m1);
    add_field(
        &mut schema,
        "properties",
        properties_schema(tool),
        Ghost(m1),
        Ghost(model[1].1),
    );
    let ghost m2 = m1 + seq![("properties"@, model[1].1)];
    let required = tool.required_names();
    if required.len() > 0 {
        let list = text_list(&required);
        assert(Seq::new(required@.len(), |i: int| JsonModel::Text(required@[i]@)) =~= Seq::new(
            tool.required().len(),
            |i: int| JsonModel::Text(tool.required()[i].0),
        ));
        add_field(&mut schema, "required", list, Ghost(m2), Ghost(model[2].1));
        assert(m2 + seq![("required"@, model[2].1)] =~= model);
    } else {
        assert(m2 =~= model);
    }
    let mut fields: Vec<(String, Json)> = Vec::new();
    fields.push(("name".to_owned(), Json::Text(tool.name().to_owned())));
    fields.push(("description".to_owned(), Json::Text(tool.description().to_owned())));
    let input = Json::Object(schema);
    assert(is_json(input, JsonModel::Object(model)));
    fields.push(("inputSchema".to_owned(), input));
    assert(is_json(fields@[0].1, JsonModel::Text(tool.spec_name())));
    assert(is_json(fields@[1].1, JsonModel::Text(tool.spec_description())));
    Json::Object(fields)
}

/// The defaults are the numbers nearest to 1, 99/100, 3/10 and 24.
pub proof fn law_defaults_of_the_tools()
    ensures
        pattern_units(DEFAULT_DECAY) == round_to_precision(53, 99 * one(), 100),
        pattern_units(FULL_WEIGHT) == one(),
        pattern_units(DEFAULT_THRESHOLD) == round_to_precision(53, 3 * one(), 10),
        pattern_units(DEFAULT_GRACE_HOURS) == 24 * one(),
{
    lemma2_to64();
    lemma2_to64_rest();
    lemma_one_units();
    assert(0x3FEF_AE14_7AE1_47AEnat / 0x0010_0000_0000_0000 == 1022);
    let d: nat = 0x0010_0000_0000_0000 + 0x3FEF_AE14_7AE1_47AEnat % 0x0010_0000_0000_0000;
    assert(d == 8917127262193582);
    lemma_nearest_to_fraction(99, 100, 53, d);
    assert(0x3FD3_3333_3333_3333nat / 0x0010_0000_0000_0000 == 1021);
    let m: nat = 0x0010_0000_0000_0000 + 0x3FD3_3333_3333_3333nat % 0x0010_0000_0000_0000;
    assert(m == 5404319552844595);
    lemma_nearest_to_fraction(3, 10, 54, m);
    assert(0x4038_0000_0000_0000nat / 0x0010_0000_0000_0000 == 1027);
    assert(0x4038_0000_0000_0000nat % 0x0010_0000_0000_0000 == 0x0008_0000_0000_0000);
    lemma_pow2_adds(48, 1026);
    let hours: nat = 0x0018_0000_0000_0000;
    assert(hours == 24 * pow2(48));
    vstd::arithmetic::mul::lemma_mul_is_associative(24, pow2(48) as int, pow2(1026) as int);
}

} // verus!
