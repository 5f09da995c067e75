//! The rules of the belief service: what a new edge entails, which passages
//! ground a belief, and how answers are put together.
use std::collections::HashMap;
use vstd::prelude::*;
use vstd::string::*;

use crate::binary64::{lemma_nearest_to_fraction, lemma_pattern_order, one, Binary64, SIGN_BIT};
use crate::documents::{texts_view, DocumentChunk, QueryResult};
use crate::graph::{is_probability, Belief, Edge, EdgeType, GraphError, MemoryType, Probability};
use crate::ids::{id_text, write_id};
use crate::inference::EdgeTuple;
use crate::rounding::round_to_precision;
use crate::sorting::{comes_before, falling_order, lemma_falling_order_unique, order_falling};
use crate::text::{copy_texts, optional_text, same_text, trim_text, trimmed};

verus! {

broadcast use vstd::std_specs::hash::group_hash_axioms;

/// Counts of the vertices and edges of the graph. Contradicting edges are
/// counted in both directions.
#[derive(Clone, Copy, Debug)]
pub struct MimirStats {
    pub beliefs: usize,
    pub patterns: usize,
    pub supports: usize,
    pub defeats: usize,
    pub causes: usize,
    pub contradicts: usize,
}

/// A passage that grounds a belief, with the strength of the grounding.
#[derive(Clone, Debug)]
pub struct EvidenceRef {
    pub chunk_id: u128,
    pub document_path: String,
    pub section_path: Vec<String>,
    /// The content of the chunk, trimmed.
    pub snippet: String,
    pub weight: Binary64,
}

/// A belief with the passages that ground it.
#[derive(Clone, Debug)]
pub struct GroundedBelief {
    pub belief: Belief,
    pub evidence: Vec<EvidenceRef>,
}

/// An edge with the mean of its source: source, target, type, weight, mean.
pub type IncomingEdge = (u128, u128, EdgeType, Probability, Probability);

/// The edges without the means of their sources.
pub fn strip_source_means(incoming: &[IncomingEdge]) -> (r: Vec<EdgeTuple>)
    ensures
        r@.len() == incoming@.len(),
        forall|i: int|
            0 <= i < r@.len() ==> #[trigger] r@[i] == (
                incoming@[i].0,
                incoming@[i].1,
                incoming@[i].2,
                incoming@[i].3,
            ),
{
    let mut r: Vec<EdgeTuple> = Vec::new();
    let n: usize = incoming.len();
    let mut i: usize = 0;
    while i < n
        invariant
            i <= n,
            n == incoming@.len(),
            r@.len() == i,
            forall|k: int|
                0 <= k < i ==> #[trigger] r@[k] == (
                    incoming@[k].0,
                    incoming@[k].1,
                    incoming@[k].2,
                    incoming@[k].3,
                ),
        decreases n - i,
    {
        let e = incoming[i];
        r.push((e.0, e.1, e.2, e.3));
        i = i + 1;
    }
    r
}

/// The means of the sources that are not among `ids`; the first edge of a
/// source counts.
pub open spec fn external_means(incoming: Seq<IncomingEdge>, ids: Seq<u128>) -> Map<
    u128,
    Probability,
>
    decreases incoming.len(),
{
    if incoming.len() == 0 {
        Map::empty()
    } else {
        let before = external_means(incoming.drop_last(), ids);
        let e = incoming.last();
        if ids.contains(e.0) || before.contains_key(e.0) {
            before
        } else {
            before.insert(e.0, e.4)
        }
    }
}

/// The means of the sources outside the given set.
pub fn external_means_from(incoming: &[IncomingEdge], ids: &[u128]) -> (r: HashMap<
    u128,
    Probability,
>)
    ensures
        r@ == external_means(incoming@, ids@),
{
    let mut inside: HashMap<u128, bool> = HashMap::new();
    let m: usize = ids.len();
    let mut k: usize = 0;
    while k < m
        invariant
            k <= m,
            m == ids@.len(),
            forall|id: u128| #[trigger]
                inside@.contains_key(id) <==> ids@.take(k as int).contains(id),
        decreases m - k,
    {
        inside.insert(ids[k], true);
        proof {
            let a = ids@.take(k as int);
            let b = ids@.take(k + 1);
            assert(b =~= a.push(ids@[k as int]));
            assert forall|id: u128| #[trigger]
                inside@.contains_key(id) <==> b.contains(id) by {
                if a.contains(id) {
                    let j = choose|j: int| 0 <= j < a.len() && a[j] == id;
                    assert(b[j] == id);
                }
                if id == ids@[k as int] {
                    assert(b[k as int] == id);
                }
                if b.contains(id) {
                    let j = choose|j: int| 0 <= j < b.len() && b[j] == id;
                    if j < k {
                        assert(a[j] == id);
                    }
                }
            }
        }
        k = k + 1;
    }
    assert(ids@.take(m as int) =~= ids@);
    let mut r: HashMap<u128, Probability> = HashMap::new();
    let n: usize = incoming.len();
    let mut i: usize = 0;
    assert(incoming@.take(0) =~= Seq::empty());
    while i < n
        invariant
            i <= n,
            n == incoming@.len(),
            forall|id: u128| #[trigger] inside@.contains_key(id) <==> ids@.contains(id),
            r@ == external_means(incoming@.take(i as int), ids@),
        decreases n - i,
    {
        assert(incoming@.take(i + 1).drop_last() =~= incoming@.take(i as int));
        let e = incoming[i];
        if !inside.contains_key(&e.0) && !r.contains_key(&e.0) {
            r.insert(e.0, e.4);
        }
        i = i + 1;
    }
    assert(incoming@.take(n as int) =~= incoming@);
    r
}

/// What adding an edge takes: the edges to insert, and whether the change is to
/// be propagated from the source.
#[derive(Debug)]
pub struct EdgePlan {
    pub edges: Vec<Edge>,
    pub propagate: bool,
}

/// Plans the insertion of an edge. A contradiction is inserted in both
/// directions; a defeat is propagated.
pub fn plan_edge(from_id: u128, to_id: u128, edge_type: EdgeType, weight: Binary64) -> (r: Result<
    EdgePlan,
    GraphError,
>)
    ensures
        match r {
            Ok(plan) => {
                &&& is_probability(weight)
                &&& plan.propagate == (edge_type == EdgeType::Defeats)
                &&& plan.edges@.len() == if edge_type == EdgeType::Contradicts {
                    2int
                } else {
                    1int
                }
                &&& plan.edges@[0].from_id == from_id && plan.edges@[0].to_id == to_id
                &&& edge_type == EdgeType::Contradicts ==> plan.edges@[1].from_id == to_id
                    && plan.edges@[1].to_id == from_id
                &&& forall|i: int|
                    0 <= i < plan.edges@.len() ==> (#[trigger] plan.edges@[i]).edge_type
                        == edge_type && plan.edges@[i].weight.units() == weight.value()
            },
            Err(e) => !is_probability(weight) && e == GraphError::ProbabilityOutOfRange(weight),
        },
{
    let edge = match Edge::new(from_id, to_id, edge_type, weight) {
        Ok(edge) => edge,
        Err(e) => return Err(e),
    };
    let mut edges: Vec<Edge> = Vec::new();
    let w = edge.weight;
    edges.push(edge);
    if edge_type == EdgeType::Contradicts {
        edges.push(Edge { from_id: to_id, to_id: from_id, edge_type, weight: w });
    }
    Ok(EdgePlan { edges, propagate: edge_type == EdgeType::Defeats })
}

/// The beliefs of a memory type; all where none is given.
pub open spec fn of_type(beliefs: Seq<Belief>, t: Option<MemoryType>) -> Seq<Belief>
    decreases beliefs.len(),
{
    match t {
        None => beliefs,
        Some(mt) => if beliefs.len() == 0 {
            Seq::empty()
        } else if beliefs.last().memory_type == mt {
            of_type(beliefs.drop_last(), t).push(beliefs.last())
        } else {
            of_type(beliefs.drop_last(), t)
        },
    }
}

/// Keeps the beliefs of a memory type; all where none is given.
pub fn filter_by_type(beliefs: &[Belief], memory_type: Option<MemoryType>) -> (r: Vec<Belief>)
    ensures
        r@ == of_type(beliefs@, memory_type),
{
    let mt = match memory_type {
        None => {
            return crate::retrieval::copy_beliefs(beliefs);
        },
        Some(mt) => mt,
    };
    let mut r: Vec<Belief> = Vec::new();
    let n: usize = beliefs.len();
    let mut i: usize = 0;
    assert(beliefs@.take(0) =~= Seq::empty());
    while i < n
        invariant
            i <= n,
            n == beliefs@.len(),
            memory_type == Some(mt),
            r@ == of_type(beliefs@.take(i as int), memory_type),
        decreases n - i,
    {
        assert(beliefs@.take(i + 1).drop_last() =~= beliefs@.take(i as int));
        if beliefs[i].memory_type == mt {
            r.push(beliefs[i].duplicate());
        }
        i = i + 1;
    }
    assert(beliefs@.take(n as int) =~= beliefs@);
    r
}

/// Bit pattern of the number nearest to 0.8: the similarity from which on a
/// passage grounds a belief.
pub const GROUND_THRESHOLD: u64 = 0x3FE9_9999_9999_999A;

/// A similarity below the threshold.
pub open spec fn below_threshold(similarity: Binary64) -> bool {
    !similarity.is_nan() && similarity.value() < (Binary64 { bits: GROUND_THRESHOLD }).value()
}

/// The candidates before the first one below the threshold.
pub open spec fn grounding_prefix(candidates: Seq<(u128, Binary64)>) -> Seq<(u128, Binary64)>
    decreases candidates.len(),
{
    if candidates.len() == 0 || below_threshold(candidates[0].1) {
        Seq::empty()
    } else {
        seq![candidates[0]] + grounding_prefix(candidates.drop_first())
    }
}

/// The candidates that are similar enough. They are given by falling
/// similarity, so that the first one below the threshold ends them.
pub fn similar_enough(candidates: &[(u128, Binary64)]) -> (r: Vec<(u128, Binary64)>)
    ensures
        r@ == grounding_prefix(candidates@),
{
    let mut r: Vec<(u128, Binary64)> = Vec::new();
    let n: usize = candidates.len();
    let mut i: usize = 0;
    assert(candidates@.skip(0) =~= candidates@);
    assert(r@ + grounding_prefix(candidates@) =~= grounding_prefix(candidates@));
    let threshold = Binary64 { bits: GROUND_THRESHOLD };
    while i < n && !candidates[i].1.less_than(threshold)
        invariant
            i <= n,
            threshold.bits == GROUND_THRESHOLD,
            n == candidates@.len(),
            grounding_prefix(candidates@) == r@ + grounding_prefix(candidates@.skip(i as int)),
        decreases n - i,
    {
        proof {
            let rest = candidates@.skip(i as int);
            assert(rest.drop_first() =~= candidates@.skip(i + 1));
            assert(!below_threshold(rest[0].1));
            assert(r@ + (seq![rest[0]] + grounding_prefix(rest.drop_first())) =~= r@.push(rest[0])
                + grounding_prefix(rest.drop_first()));
        }
        r.push(candidates[i]);
        i = i + 1;
    }
    proof {
        let rest = candidates@.skip(i as int);
        assert(grounding_prefix(rest) =~= Seq::empty());
        assert(r@ + grounding_prefix(rest) =~= r@);
    }
    r
}

/// A passage and a belief go together when either belongs to no project, or both
/// to the same.
pub open spec fn compatible(a: Option<Seq<char>>, b: Option<Seq<char>>) -> bool {
    a is None || b is None || a == b
}

/// Whether two projects go together.
pub fn compatible_projects(a: &Option<String>, b: &Option<String>) -> (r: bool)
    ensures
        r == compatible(optional_text(*a), optional_text(*b)),
{
    match (a, b) {
        (Some(x), Some(y)) => same_text(x.as_str(), y.as_str()),
        _ => true,
    }
}

/// The weight with which a similar passage grounds a belief; none where their
/// projects do not go together.
pub fn grounding_weight(
    belief_project: &Option<String>,
    chunk_project: &Option<String>,
    similarity: Binary64,
) -> (r: Result<Option<Probability>, GraphError>)
    ensures
        match r {
            Ok(None) => !compatible(optional_text(*belief_project), optional_text(*chunk_project)),
            Ok(Some(w)) => compatible(optional_text(*belief_project), optional_text(*chunk_project))
                && is_probability(similarity) && w.units() == similarity.value(),
            Err(e) => compatible(optional_text(*belief_project), optional_text(*chunk_project))
                && !is_probability(similarity) && e == GraphError::ProbabilityOutOfRange(
                similarity,
            ),
        },
{
    if !compatible_projects(belief_project, chunk_project) {
        return Ok(None);
    }
    match Probability::new(similarity) {
        Ok(w) => Ok(Some(w)),
        Err(e) => Err(e),
    }
}

/// A whole number by which numbers are ordered; the two zeros have the same.
pub open spec fn weight_key(w: Binary64) -> u128 {
    if w.is_negative() {
        (0x8000_0000_0000_0000 - w.pattern()) as u128
    } else {
        (0x8000_0000_0000_0000 + w.pattern()) as u128
    }
}

/// Numbers are ordered as their keys.
pub proof fn lemma_weight_key(a: Binary64, b: Binary64)
    ensures
        weight_key(a) < weight_key(b) <==> a.value() < b.value(),
        weight_key(a) == weight_key(b) <==> a.value() == b.value(),
{
    if a.pattern() < b.pattern() {
        lemma_pattern_order(a.pattern(), b.pattern());
    }
    if b.pattern() < a.pattern() {
        lemma_pattern_order(b.pattern(), a.pattern());
    }
    if a.pattern() > 0 {
        lemma_pattern_order(0, a.pattern());
    }
    if b.pattern() > 0 {
        lemma_pattern_order(0, b.pattern());
    }
}

fn key_of(w: Binary64) -> (r: u128)
    ensures
        r == weight_key(w),
{
    if w.bits >= SIGN_BIT {
        0x8000_0000_0000_0000u128 - (w.bits - SIGN_BIT) as u128
    } else {
        0x8000_0000_0000_0000u128 + w.bits as u128
    }
}

/// The keys of the weights.
pub open spec fn weight_keys(entries: Seq<(u128, Binary64)>) -> Seq<u128> {
    Seq::new(entries.len(), |i: int| weight_key(entries[i].1))
}

/// `r` holds the entries by falling weight, equal ones in their given order, at
/// most `limit` of them, or all where the limit is zero.
pub open spec fn are_strongest(
    r: Seq<(u128, Binary64)>,
    entries: Seq<(u128, Binary64)>,
    limit: usize,
) -> bool {
    exists|order: Seq<usize>| #[trigger]
        falling_order(order, weight_keys(entries)) && {
            let sorted = Seq::new(order.len(), |i: int| entries[order[i] as int]);
            r == if 0 < limit && limit < sorted.len() {
                sorted.take(limit as int)
            } else {
                sorted
            }
        }
}

/// The entries of the greatest weight: chunks with the weight of their edge.
pub fn strongest(entries: &[(u128, Binary64)], limit: usize) -> (r: Vec<(u128, Binary64)>)
    requires
        forall|i: int| 0 <= i < entries@.len() ==> !(#[trigger] entries@[i]).1.is_nan(),
    ensures
        are_strongest(r@, entries@, limit),
        limit > 0 ==> r@.len() <= limit,
{
    let mut keys: Vec<u128> = Vec::new();
    let n: usize = entries.len();
    let mut i: usize = 0;
    while i < n
        invariant
            i <= n,
            n == entries@.len(),
            keys@ == weight_keys(entries@).take(i as int),
        decreases n - i,
    {
        keys.push(key_of(entries[i].1));
        i = i + 1;
        assert(keys@ =~= weight_keys(entries@).take(i as int));
    }
    assert(keys@ =~= weight_keys(entries@));
    let order = order_falling(&keys);
    let count: usize = if 0 < limit && limit < n {
        limit
    } else {
        n
    };
    let ghost sorted = Seq::new(order@.len(), |k: int| entries@[order@[k] as int]);
    let mut r: Vec<(u128, Binary64)> = Vec::new();
    let mut j: usize = 0;
    while j < count
        invariant
            j <= count <= n,
            n == entries@.len(),
            order@.len() == n,
            falling_order(order@, keys@),
            keys@.len() == n,
            sorted == Seq::new(order@.len(), |k: int| entries@[order@[k] as int]),
            r@ == sorted.take(j as int),
        decreases count - j,
    {
        r.push(entries[order[j]]);
        j = j + 1;
        assert(r@ =~= sorted.take(j as int));
    }
    assert(sorted.take(n as int) =~= sorted);
    r
}

/// The chunks that ground a belief, with the weights of their edges, in the
/// order of the rows. A row names a belief, a chunk and a weight.
pub open spec fn grounds_of(rows: Seq<(u128, u128, Binary64)>, belief: u128) -> Seq<
    (u128, Binary64),
>
    decreases rows.len(),
{
    if rows.len() == 0 {
        Seq::empty()
    } else {
        let before = grounds_of(rows.drop_last(), belief);
        let row = rows.last();
        if row.0 == belief {
            before.push((row.1, row.2))
        } else {
            before
        }
    }
}

/// The strongest grounds of a belief.
pub fn pick_grounds(rows: &[(u128, u128, Binary64)], belief: u128, limit: usize) -> (r: Vec<
    (u128, Binary64),
>)
    requires
        forall|i: int| 0 <= i < rows@.len() ==> !(#[trigger] rows@[i]).2.is_nan(),
    ensures
        are_strongest(r@, grounds_of(rows@, belief), limit),
        limit > 0 ==> r@.len() <= limit,
{
    let mut entries: Vec<(u128, Binary64)> = Vec::new();
    let n: usize = rows.len();
    let mut i: usize = 0;
    assert(rows@.take(0) =~= Seq::empty());
    while i < n
        invariant
            i <= n,
            n == rows@.len(),
            forall|k: int| 0 <= k < n ==> !(#[trigger] rows@[k]).2.is_nan(),
            entries@ == grounds_of(rows@.take(i as int), belief),
            forall|k: int| 0 <= k < entries@.len() ==> !(#[trigger] entries@[k]).1.is_nan(),
        decreases n - i,
    {
        assert(rows@.take(i + 1).drop_last() =~= rows@.take(i as int));
        let row = rows[i];
        assert(!rows@[i as int].2.is_nan());
        if row.0 == belief {
            entries.push((row.1, row.2));
        }
        i = i + 1;
    }
    assert(rows@.take(n as int) =~= rows@);
    strongest(entries.as_slice(), limit)
}

/// A grounding passage as plain values.
pub struct EvidenceModel {
    pub chunk_id: u128,
    pub document_path: Seq<char>,
    pub section_path: Seq<Seq<char>>,
    pub snippet: Seq<char>,
    pub weight: Binary64,
}

impl View for EvidenceRef {
    type V = EvidenceModel;

    open spec fn view(&self) -> EvidenceModel {
        EvidenceModel {
            chunk_id: self.chunk_id,
            document_path: self.document_path@,
            section_path: texts_view(self.section_path@),
            snippet: self.snippet@,
            weight: self.weight,
        }
    }
}

pub open spec fn evidence_view(refs: Seq<EvidenceRef>) -> Seq<EvidenceModel> {
    Seq::new(refs.len(), |i: int| refs[i]@)
}

/// The passages behind the picked chunks, without the chunks that are missing.
/// Each has the weight of its own edge.
pub open spec fn evidence_of(
    picked: Seq<(u128, Binary64)>,
    chunks: Map<u128, DocumentChunk>,
) -> Seq<EvidenceModel>
    decreases picked.len(),
{
    if picked.len() == 0 {
        Seq::empty()
    } else {
        let before = evidence_of(picked.drop_last(), chunks);
        let (id, weight) = picked.last();
        if chunks.contains_key(id) {
            before.push(
                EvidenceModel {
                    chunk_id: id,
                    document_path: chunks[id].document_path@,
                    section_path: texts_view(chunks[id].section_path@),
                    snippet: trimmed(chunks[id].content@),
                    weight,
                },
            )
        } else {
            before
        }
    }
}

/// Puts the passages of a belief together from the chunks that were fetched.
pub fn collect_evidence(
    picked: &[(u128, Binary64)],
    chunks: &HashMap<u128, DocumentChunk>,
) -> (r: Vec<EvidenceRef>)
    ensures
        evidence_view(r@) == evidence_of(picked@, chunks@),
{
    let mut r: Vec<EvidenceRef> = Vec::new();
    let n: usize = picked.len();
    let mut i: usize = 0;
    proof {
        assert(picked@.take(0) =~= Seq::empty());
        assert(evidence_view(r@) =~= Seq::empty());
    }
    while i < n
        invariant
            i <= n,
            n == picked@.len(),
            evidence_view(r@) == evidence_of(picked@.take(i as int), chunks@),
        decreases n - i,
    {
        assert(picked@.take(i + 1).drop_last() =~= picked@.take(i as int));
        let ghost before = evidence_view(r@);
        let (chunk_id, weight) = picked[i];
        match chunks.get(&chunk_id) {
            Some(c) => {
                r.push(
                    EvidenceRef {
                        chunk_id,
                        document_path: c.document_path.clone(),
                        section_path: copy_texts(&c.section_path),
                        snippet: trim_text(c.content.as_str()),
                        weight,
                    },
                );
                assert(evidence_view(r@) =~= before.push(r@.last()@));
            },
            None => {},
        }
        i = i + 1;
    }
    assert(picked@.take(n as int) =~= picked@);
    r
}

/// For each belief its strongest grounds.
pub fn plan_grounds(
    beliefs: &Vec<Belief>,
    rows: &[(u128, u128, Binary64)],
    evidence_per_belief: usize,
) -> (r: Vec<Vec<(u128, Binary64)>>)
    requires
        forall|i: int| 0 <= i < rows@.len() ==> !(#[trigger] rows@[i]).2.is_nan(),
    ensures
        r@.len() == beliefs@.len(),
        forall|i: int|
            0 <= i < r@.len() ==> are_strongest(
                (#[trigger] r@[i])@,
                grounds_of(rows@, beliefs@[i].id),
                evidence_per_belief,
            ),
{
    let mut r: Vec<Vec<(u128, Binary64)>> = Vec::new();
    let n: usize = beliefs.len();
    let mut i: usize = 0;
    while i < n
        invariant
            i <= n,
            n == beliefs@.len(),
            forall|k: int| 0 <= k < rows@.len() ==> !(#[trigger] rows@[k]).2.is_nan(),
            r@.len() == i,
            forall|k: int|
                0 <= k < i ==> are_strongest(
                    (#[trigger] r@[k])@,
                    grounds_of(rows@, beliefs@[k].id),
                    evidence_per_belief,
                ),
        decreases n - i,
    {
        r.push(pick_grounds(rows, beliefs[i].id, evidence_per_belief));
        i = i + 1;
    }
    r
}

/// The chunks that a plan needs, each once, in the order of their first use.
pub open spec fn needed_chunks(plan: Seq<Vec<(u128, Binary64)>>) -> Seq<u128>
    decreases plan.len(),
{
    if plan.len() == 0 {
        Seq::empty()
    } else {
        with_chunks(needed_chunks(plan.drop_last()), plan.last()@)
    }
}

pub open spec fn with_chunks(known: Seq<u128>, picked: Seq<(u128, Binary64)>) -> Seq<u128>
    decreases picked.len(),
{
    if picked.len() == 0 {
        known
    } else {
        let before = with_chunks(known, picked.drop_last());
        if before.contains(picked.last().0) {
            before
        } else {
            before.push(picked.last().0)
        }
    }
}

/// The chunks to fetch for a plan, each once.
pub fn chunks_to_fetch(plan: &Vec<Vec<(u128, Binary64)>>) -> (r: Vec<u128>)
    ensures
        r@ == needed_chunks(plan@),
{
    let mut r: Vec<u128> = Vec::new();
    let n: usize = plan.len();
    let mut i: usize = 0;
    assert(plan@.take(0) =~= Seq::empty());
    while i < n
        invariant
            i <= n,
            n == plan@.len(),
            r@ == needed_chunks(plan@.take(i as int)),
        decreases n - i,
    {
        assert(plan@.take(i + 1).drop_last() =~= plan@.take(i as int));
        let ghost before = r@;
        let picked = &plan[i];
        let m: usize = picked.len();
        let mut j: usize = 0;
        assert(picked@.take(0) =~= Seq::empty());
        while j < m
            invariant
                j <= m,
                m == picked@.len(),
                r@ == with_chunks(before, picked@.take(j as int)),
            decreases m - j,
        {
            assert(picked@.take(j + 1).drop_last() =~= picked@.take(j as int));
            if !crate::inference::contains_id(&r, picked[j].0) {
                r.push(picked[j].0);
            }
            j = j + 1;
        }
        assert(picked@.take(m as int) =~= picked@);
        i = i + 1;
    }
    assert(plan@.take(n as int) =~= plan@);
    r
}

/// Joins beliefs with their passages.
pub fn ground_beliefs(
    beliefs: &Vec<Belief>,
    plan: &Vec<Vec<(u128, Binary64)>>,
    chunks: &HashMap<u128, DocumentChunk>,
) -> (r: Vec<GroundedBelief>)
    requires
        plan@.len() == beliefs@.len(),
    ensures
        r@.len() == beliefs@.len(),
        forall|i: int|
            0 <= i < r@.len() ==> (#[trigger] r@[i]).belief == beliefs@[i] && evidence_view(
                r@[i].evidence@,
            ) == evidence_of(plan@[i]@, chunks@),
{
    let mut r: Vec<GroundedBelief> = Vec::new();
    let n: usize = beliefs.len();
    let mut i: usize = 0;
    while i < n
        invariant
            i <= n,
            n == beliefs@.len(),
            n == plan@.len(),
            r@.len() == i,
            forall|k: int|
                0 <= k < i ==> (#[trigger] r@[k]).belief == beliefs@[k] && evidence_view(
                    r@[k].evidence@,
                ) == evidence_of(plan@[k]@, chunks@),
        decreases n - i,
    {
        let evidence = collect_evidence(plan[i].as_slice(), chunks);
        r.push(GroundedBelief { belief: beliefs[i].duplicate(), evidence });
        i = i + 1;
    }
    r
}

/// An answer to a document query as plain values.
pub struct QueryModel {
    pub id: Seq<char>,
    pub document_path: Seq<char>,
    pub section_path: Seq<Seq<char>>,
    pub content: Seq<char>,
    pub parent_content: Option<Seq<char>>,
}

impl View for QueryResult {
    type V = QueryModel;

    open spec fn view(&self) -> QueryModel {
        QueryModel {
            id: self.id@,
            document_path: self.document_path@,
            section_path: texts_view(self.section_path@),
            content: self.content@,
            parent_content: optional_text(self.parent_content),
        }
    }
}

pub open spec fn answers_view(answers: Seq<QueryResult>) -> Seq<QueryModel> {
    Seq::new(answers.len(), |i: int| answers[i]@)
}

/// The chunks found, without those that are missing, each with the content of
/// its parent where it has one.
pub open spec fn document_answers(
    ids: Seq<u128>,
    chunks: Map<u128, DocumentChunk>,
) -> Seq<QueryModel>
    decreases ids.len(),
{
    if ids.len() == 0 {
        Seq::empty()
    } else {
        let before = document_answers(ids.drop_last(), chunks);
        let id = ids.last();
        if chunks.contains_key(id) {
            let c = chunks[id];
            before.push(
                QueryModel {
                    id: id_text(c.id),
                    document_path: c.document_path@,
                    section_path: texts_view(c.section_path@),
                    content: c.content@,
                    parent_content: match c.parent_id {
                        Some(p) => if chunks.contains_key(p) {
                            Some(chunks[p].content@)
                        } else {
                            None
                        },
                        None => None,
                    },
                },
            )
        } else {
            before
        }
    }
}

/// Puts the answers to a document query together from the chunks that were
/// fetched, parents included.
pub fn answer_document_query(ids: &[u128], chunks: &HashMap<u128, DocumentChunk>) -> (r: Vec<
    QueryResult,
>)
    ensures
        answers_view(r@) == document_answers(ids@, chunks@),
{
    let mut r: Vec<QueryResult> = Vec::new();
    let n: usize = ids.len();
    let mut i: usize = 0;
    proof {
        assert(ids@.take(0) =~= Seq::empty());
        assert(answers_view(r@) =~= Seq::empty());
    }
    while i < n
        invariant
            i <= n,
            n == ids@.len(),
            answers_view(r@) == document_answers(ids@.take(i as int), chunks@),
        decreases n - i,
    {
        assert(ids@.take(i + 1).drop_last() =~= ids@.take(i as int));
        let ghost before = answers_view(r@);
        match chunks.get(&ids[i]) {
            Some(c) => {
                let parent_content: Option<String> = match c.parent_id {
                    Some(p) => match chunks.get(&p) {
                        Some(parent) => Some(parent.content.clone()),
                        None => None,
                    },
                    None => None,
                };
                r.push(
                    QueryResult {
                        id: write_id(c.id),
                        document_path: c.document_path.clone(),
                        section_path: copy_texts(&c.section_path),
                        content: c.content.clone(),
                        parent_content,
                    },
                );
                assert(answers_view(r@) =~= before.push(r@.last()@));
            },
            None => {},
        }
        i = i + 1;
    }
    assert(ids@.take(n as int) =~= ids@);
    r
}

/// The threshold is the number nearest to four fifths.
pub proof fn law_threshold_is_four_fifths()
    ensures
        (Binary64 { bits: GROUND_THRESHOLD }).value() == round_to_precision(53, 4 * one(), 5),
{
    vstd::arithmetic::power2::lemma2_to64();
    vstd::arithmetic::power2::lemma2_to64_rest();
    assert(0x3FE9_9999_9999_999Anat / 0x0010_0000_0000_0000 == 1022);
    let m: nat = 0x0010_0000_0000_0000 + 0x3FE9_9999_9999_999Anat % 0x0010_0000_0000_0000;
    assert(m == 7205759403792794);
    lemma_nearest_to_fraction(4, 5, 53, m);
}

/// There is only one way to list the strongest entries.
pub proof fn law_strongest_is_unique(
    a: Seq<(u128, Binary64)>,
    b: Seq<(u128, Binary64)>,
    entries: Seq<(u128, Binary64)>,
    limit: usize,
)
    requires
        are_strongest(a, entries, limit),
        are_strongest(b, entries, limit),
    ensures
        a == b,
{
    let keys = weight_keys(entries);
    let x = choose|order: Seq<usize>| #[trigger]
        falling_order(order, keys) && {
            let sorted = Seq::new(order.len(), |i: int| entries[order[i] as int]);
            a == if 0 < limit && limit < sorted.len() {
                sorted.take(limit as int)
            } else {
                sorted
            }
        };
    let y = choose|order: Seq<usize>| #[trigger]
        falling_order(order, keys) && {
            let sorted = Seq::new(order.len(), |i: int| entries[order[i] as int]);
            b == if 0 < limit && limit < sorted.len() {
                sorted.take(limit as int)
            } else {
                sorted
            }
        };
    lemma_falling_order_unique(x, y, keys);
}

/// The strongest entries come by falling weight.
pub proof fn law_strongest_come_first(
    r: Seq<(u128, Binary64)>,
    entries: Seq<(u128, Binary64)>,
    limit: usize,
    i: int,
    j: int,
)
    requires
        are_strongest(r, entries, limit),
        0 <= i < j < r.len(),
    ensures
        r[i].1.value() >= r[j].1.value(),
{
    let keys = weight_keys(entries);
    let order = choose|order: Seq<usize>| #[trigger]
        falling_order(order, keys) && {
            let sorted = Seq::new(order.len(), |i: int| entries[order[i] as int]);
            r == if 0 < limit && limit < sorted.len() {
                sorted.take(limit as int)
            } else {
                sorted
            }
        };
    assert(comes_before(keys, order[i] as int, order[j] as int));
    assert(order[i] < keys.len() && order[j] < keys.len());
    lemma_weight_key(r[i].1, r[j].1);
}

/// A source outside the set has a mean exactly when it has an edge.
pub proof fn law_external_sources_have_means(
    incoming: Seq<IncomingEdge>,
    ids: Seq<u128>,
    id: u128,
)
    ensures
        external_means(incoming, ids).contains_key(id) <==> !ids.contains(id) && exists|i: int|
            0 <= i < incoming.len() && (#[trigger] incoming[i]).0 == id,
    decreases incoming.len(),
{
    if incoming.len() > 0 {
        let shorter = incoming.drop_last();
        law_external_sources_have_means(shorter, ids, id);
        assert(incoming[incoming.len() - 1] == incoming.last());
        if exists|i: int| 0 <= i < shorter.len() && (#[trigger] shorter[i]).0 == id {
            let i = choose|i: int| 0 <= i < shorter.len() && (#[trigger] shorter[i]).0 == id;
            assert(incoming[i].0 == id);
        }
        if exists|i: int| 0 <= i < incoming.len() && (#[trigger] incoming[i]).0 == id {
            let i = choose|i: int| 0 <= i < incoming.len() && (#[trigger] incoming[i]).0 == id;
            if i < shorter.len() {
                assert(shorter[i].0 == id);
            }
        }
    }
}

/// Passages and beliefs of the same project, or of none, go together, in either
/// order.
pub proof fn law_compatibility_is_mutual(a: Option<Seq<char>>, b: Option<Seq<char>>)
    ensures
        compatible(a, b) == compatible(b, a),
{
}

} // verus!
