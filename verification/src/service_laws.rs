//! What grounds beliefs, and which lists of them are shown.
use vstd::prelude::*;

use crate::binary64::Binary64;
use crate::cli::{
    are_most_probable, are_most_successful, joined_with, probability_keys, rate_keys, truncated,
    without_embedding,
};
use crate::documents::{texts_view, DocumentChunk};
use crate::graph::{law_keys_order_probabilities, Belief, MemoryType, Pattern};
use crate::ids::id_text;
use crate::retrieval::shortened;
use crate::service::{
    are_strongest, below_threshold, compatible, document_answers, evidence_of, external_means,
    grounding_prefix, grounds_of, needed_chunks, of_type, weight_keys, with_chunks, EvidenceModel,
    IncomingEdge, QueryModel, GROUND_THRESHOLD,
};
use crate::sorting::{falling_order, lemma_order_complete};
use crate::text::trimmed;

verus! {

/// The mean of a source outside the set is the one that its first edge carries.
pub proof fn law_the_first_edge_of_a_source_gives_its_mean(
    incoming: Seq<IncomingEdge>,
    ids: Seq<u128>,
    i: int,
)
    requires
        0 <= i < incoming.len(),
        !ids.contains(incoming[i].0),
        forall|k: int| 0 <= k < i ==> (#[trigger] incoming[k]).0 != incoming[i].0,
    ensures
        external_means(incoming, ids).contains_key(incoming[i].0),
        external_means(incoming, ids)[incoming[i].0] == incoming[i].4,
    decreases incoming.len(),
{
    let shorter = incoming.drop_last();
    if i == incoming.len() - 1 {
        crate::service::law_external_sources_have_means(shorter, ids, incoming[i].0);
        assert forall|k: int| 0 <= k < shorter.len() implies (#[trigger] shorter[k]).0
            != incoming[i].0 by {
            assert(shorter[k] == incoming[k]);
        }
    } else {
        assert(shorter[i] == incoming[i]);
        assert forall|k: int| 0 <= k < i implies (#[trigger] shorter[k]).0 != shorter[i].0 by {
            assert(shorter[k] == incoming[k]);
        }
        law_the_first_edge_of_a_source_gives_its_mean(shorter, ids, i);
    }
}

/// The beliefs of a memory type are all the given ones of that type, in their order;
/// without a type they are all.
pub proof fn law_beliefs_of_a_type_are_kept(beliefs: Seq<Belief>, t: MemoryType)
    ensures
        of_type(beliefs, Some(t)) == beliefs.filter(|b: Belief| b.memory_type == t),
        of_type(beliefs, None) == beliefs,
    decreases beliefs.len(),
{
    reveal(Seq::filter);
    let p = |b: Belief| b.memory_type == t;
    if beliefs.len() > 0 {
        law_beliefs_of_a_type_are_kept(beliefs.drop_last(), t);
    }
    assert(of_type(beliefs, Some(t)) =~= beliefs.filter(p));
}

/// The candidates that are similar enough are those before the first one that lies below
/// the threshold, and all where none does.
pub proof fn law_candidates_end_at_the_threshold(candidates: Seq<(u128, Binary64)>)
    ensures
        ({
            let r = grounding_prefix(candidates);
            let low = |s: Binary64|
                !s.is_nan() && s.value() < (Binary64 { bits: GROUND_THRESHOLD }).value();
            &&& r.len() <= candidates.len()
            &&& r == candidates.take(r.len() as int)
            &&& forall|i: int| 0 <= i < r.len() ==> !low((#[trigger] r[i]).1)
            &&& r.len() < candidates.len() ==> low(candidates[r.len() as int].1)
        }),
    decreases candidates.len(),
{
    let r = grounding_prefix(candidates);
    if candidates.len() > 0 && !below_threshold(candidates[0].1) {
        let rest = candidates.drop_first();
        law_candidates_end_at_the_threshold(rest);
        let tail = grounding_prefix(rest);
        assert(r =~= candidates.take(r.len() as int)) by {
            assert forall|i: int| 0 <= i < r.len() implies r[i] == candidates[i] by {
                if i > 0 {
                    assert(r[i] == tail[i - 1]);
                    assert(tail[i - 1] == rest.take(tail.len() as int)[i - 1]);
                }
            }
        }
        assert forall|i: int| 0 <= i < r.len() implies !below_threshold((#[trigger] r[i]).1) by {
            if i > 0 {
                assert(r[i] == tail[i - 1]);
            }
        }
        if r.len() < candidates.len() {
            assert(candidates[r.len() as int] == rest[tail.len() as int]);
        }
    } else {
        assert(candidates.take(0) =~= Seq::empty());
    }
}

/// A passage and a belief of different projects do not go together; one without project
/// goes with any.
pub proof fn law_only_different_projects_part(a: Option<Seq<char>>, b: Option<Seq<char>>)
    ensures
        !compatible(a, b) <==> a is Some && b is Some && a->0 != b->0,
{
}

/// The grounds of a belief are the chunks of all rows that name it, with their weights, in
/// the order of the rows.
pub proof fn law_every_row_of_a_belief_grounds_it(
    rows: Seq<(u128, u128, Binary64)>,
    belief: u128,
)
    ensures
        grounds_of(rows, belief) == rows.filter(
            |row: (u128, u128, Binary64)| row.0 == belief,
        ).map_values(|row: (u128, u128, Binary64)| (row.1, row.2)),
    decreases rows.len(),
{
    reveal(Seq::filter);
    let p = |row: (u128, u128, Binary64)| row.0 == belief;
    let f = |row: (u128, u128, Binary64)| (row.1, row.2);
    if rows.len() > 0 {
        law_every_row_of_a_belief_grounds_it(rows.drop_last(), belief);
        assert(rows.drop_last().filter(p).push(rows.last()).map_values(f) =~= rows.drop_last().filter(
            p,
        ).map_values(f).push(f(rows.last())));
    } else {
        assert(rows.filter(p).map_values(f) =~= Seq::empty());
    }
}

/// The strongest entries are as many as the limit lets through, or all where it is zero;
/// each of them is given, and none that is left out is heavier.
pub proof fn law_no_stronger_entry_is_left_out(
    r: Seq<(u128, Binary64)>,
    entries: Seq<(u128, Binary64)>,
    limit: usize,
)
    requires
        are_strongest(r, entries, limit),
        forall|i: int| 0 <= i < entries.len() ==> !(#[trigger] entries[i]).1.is_nan(),
    ensures
        r.len() == if limit == 0 || limit > entries.len() {
            entries.len()
        } else {
            limit as nat
        },
        forall|i: int| 0 <= i < r.len() ==> entries.contains(#[trigger] r[i]),
        forall|k: int, i: int|
            0 <= k < entries.len() && 0 <= i < r.len() && !r.contains(#[trigger] entries[k])
                ==> (#[trigger] r[i]).1.value() >= entries[k].1.value(),
{
    let keys = weight_keys(entries);
    let order = choose|order: Seq<usize>| #[trigger]
        falling_order(order, keys) && {
            let sorted = Seq::new(order.len(), |i: int| entries[order[i] as int]);
            r == if 0 < limit && limit < sorted.len() {
                sorted.take(limit as int)
            } else {
                sorted
            }
        };
    let sorted = Seq::new(order.len(), |i: int| entries[order[i] as int]);
    assert forall|i: int| 0 <= i < r.len() implies entries.contains(#[trigger] r[i]) by {
        assert(order[i] < keys.len());
        assert(r[i] == sorted[i]);
        assert(entries[order[i] as int] == r[i]);
    }
    assert forall|k: int, i: int|
        0 <= k < entries.len() && 0 <= i < r.len() && !r.contains(
            #[trigger] entries[k],
        ) implies (#[trigger] r[i]).1.value() >= entries[k].1.value() by {
        lemma_order_complete(order, keys, k);
        let m = choose|m: int| 0 <= m < order.len() && #[trigger] order[m] == k;
        if m < r.len() {
            assert(r[m] == sorted[m]);
            assert(r[m] == entries[k]);
        }
        assert(r[i] == sorted[i]);
        let all = Seq::new(order.len(), |i: int| entries[order[i] as int]);
        assert(are_strongest(all, entries, 0));
        crate::service::law_strongest_come_first(all, entries, 0, i, m);
    }
}

/// The passages behind the picked chunks are those of all chunks that there are, in the
/// order in which they were picked, each with the weight of its own edge, the place of
/// its chunk and its text without white space at the ends.
pub proof fn law_every_picked_chunk_gives_a_passage(
    picked: Seq<(u128, Binary64)>,
    chunks: Map<u128, DocumentChunk>,
)
    ensures
        evidence_of(picked, chunks) == picked.filter(
            |p: (u128, Binary64)| chunks.contains_key(p.0),
        ).map_values(
            |p: (u128, Binary64)|
                EvidenceModel {
                    chunk_id: p.0,
                    document_path: chunks[p.0].document_path@,
                    section_path: texts_view(chunks[p.0].section_path@),
                    snippet: trimmed(chunks[p.0].content@),
                    weight: p.1,
                },
        ),
    decreases picked.len(),
{
    reveal(Seq::filter);
    let there = |p: (u128, Binary64)| chunks.contains_key(p.0);
    let passage = |p: (u128, Binary64)|
        EvidenceModel {
            chunk_id: p.0,
            document_path: chunks[p.0].document_path@,
            section_path: texts_view(chunks[p.0].section_path@),
            snippet: trimmed(chunks[p.0].content@),
            weight: p.1,
        };
    if picked.len() > 0 {
        let shorter = picked.drop_last();
        law_every_picked_chunk_gives_a_passage(shorter, chunks);
        assert(shorter.filter(there).push(picked.last()).map_values(passage) =~= shorter.filter(
            there,
        ).map_values(passage).push(passage(picked.last())));
    } else {
        assert(picked.filter(there).map_values(passage) =~= Seq::empty());
    }
}

/// The chunks to fetch are those that some belief picks, each once.
pub proof fn law_every_picked_chunk_is_fetched_once(plan: Seq<Vec<(u128, Binary64)>>, id: u128)
    ensures
        needed_chunks(plan).no_duplicates(),
        needed_chunks(plan).contains(id) <==> exists|i: int, k: int|
            0 <= i < plan.len() && 0 <= k < plan[i]@.len() && (#[trigger] plan[i]@[k]).0 == id,
    decreases plan.len(),
{
    if plan.len() > 0 {
        let shorter = plan.drop_last();
        let n = shorter.len() as int;
        law_every_picked_chunk_is_fetched_once(shorter, id);
        lemma_chunks_added(needed_chunks(shorter), plan.last()@, id);
        assert(plan[n] == plan.last());
        if needed_chunks(shorter).contains(id) {
            let (i, k) = choose|i: int, k: int|
                0 <= i < shorter.len() && 0 <= k < shorter[i]@.len() && (
                #[trigger] shorter[i]@[k]).0 == id;
            assert(plan[i]@[k].0 == id);
        }
        if exists|k: int| 0 <= k < plan.last()@.len() && (#[trigger] plan.last()@[k]).0 == id {
            let k = choose|k: int| 0 <= k < plan.last()@.len() && (#[trigger] plan.last()@[k]).0 == id;
            assert(plan[n]@[k].0 == id);
        }
        if exists|i: int, k: int|
            0 <= i < plan.len() && 0 <= k < plan[i]@.len() && (#[trigger] plan[i]@[k]).0 == id {
            let (i, k) = choose|i: int, k: int|
                0 <= i < plan.len() && 0 <= k < plan[i]@.len() && (#[trigger] plan[i]@[k]).0 == id;
            if i < n {
                assert(shorter[i]@[k].0 == id);
            } else {
                assert(plan.last()@[k].0 == id);
            }
        }
    }
}

proof fn lemma_chunks_added(known: Seq<u128>, picked: Seq<(u128, Binary64)>, id: u128)
    requires
        known.no_duplicates(),
    ensures
        with_chunks(known, picked).no_duplicates(),
        with_chunks(known, picked).contains(id) <==> known.contains(id) || exists|k: int|
            0 <= k < picked.len() && (#[trigger] picked[k]).0 == id,
    decreases picked.len(),
{
    if picked.len() > 0 {
        let shorter = picked.drop_last();
        let before = with_chunks(known, shorter);
        let all = with_chunks(known, picked);
        lemma_chunks_added(known, shorter, id);
        assert(picked[picked.len() - 1] == picked.last());
        if before.contains(id) {
            let k = choose|k: int| 0 <= k < before.len() && before[k] == id;
            assert(all[k] == id);
        }
        if picked.last().0 == id && !before.contains(id) {
            assert(all[before.len() as int] == id);
        }
        if exists|k: int| 0 <= k < shorter.len() && (#[trigger] shorter[k]).0 == id {
            let k = choose|k: int| 0 <= k < shorter.len() && (#[trigger] shorter[k]).0 == id;
            assert(picked[k].0 == id);
        }
        if exists|k: int| 0 <= k < picked.len() && (#[trigger] picked[k]).0 == id {
            let k = choose|k: int| 0 <= k < picked.len() && (#[trigger] picked[k]).0 == id;
            if k < shorter.len() {
                assert(shorter[k].0 == id);
            }
        }
        if all.contains(id) && !before.contains(id) {
            let k = choose|k: int| 0 <= k < all.len() && all[k] == id;
            if k < before.len() {
                assert(before[k] == id);
            }
        }
    }
}

/// A document query is answered with all chunks found that there are, in the order in
/// which they were found, each with its own place and text, and with the text of its
/// parent where it has one that there is.
pub proof fn law_every_chunk_found_is_answered(ids: Seq<u128>, chunks: Map<u128, DocumentChunk>)
    ensures
        document_answers(ids, chunks) == ids.filter(
            |id: u128| chunks.contains_key(id),
        ).map_values(
            |id: u128|
                QueryModel {
                    id: id_text(chunks[id].id),
                    document_path: chunks[id].document_path@,
                    section_path: texts_view(chunks[id].section_path@),
                    content: chunks[id].content@,
                    parent_content: if chunks[id].parent_id is Some && chunks.contains_key(
                        chunks[id].parent_id->0,
                    ) {
                        Some(chunks[chunks[id].parent_id->0].content@)
                    } else {
                        None
                    },
                },
        ),
    decreases ids.len(),
{
    reveal(Seq::filter);
    let there = |id: u128| chunks.contains_key(id);
    let answer = |id: u128|
        QueryModel {
            id: id_text(chunks[id].id),
            document_path: chunks[id].document_path@,
            section_path: texts_view(chunks[id].section_path@),
            content: chunks[id].content@,
            parent_content: if chunks[id].parent_id is Some && chunks.contains_key(
                chunks[id].parent_id->0,
            ) {
                Some(chunks[chunks[id].parent_id->0].content@)
            } else {
                None
            },
        };
    if ids.len() > 0 {
        let shorter = ids.drop_last();
        law_every_chunk_found_is_answered(shorter, chunks);
        assert(shorter.filter(there).push(ids.last()).map_values(answer) =~= shorter.filter(
            there,
        ).map_values(answer).push(answer(ids.last())));
    } else {
        assert(ids.filter(there).map_values(answer) =~= Seq::empty());
    }
}

/// The most probable beliefs come by falling probability, as many as the limit lets
/// through or all where it is zero, and none that is left out is more probable.
pub proof fn law_no_more_probable_belief_is_left_out(
    r: Seq<Belief>,
    beliefs: Seq<Belief>,
    limit: usize,
)
    requires
        are_most_probable(r, beliefs, limit),
    ensures
        r.len() == if limit == 0 || limit > beliefs.len() {
            beliefs.len()
        } else {
            limit as nat
        },
        forall|i: int| 0 <= i < r.len() ==> beliefs.contains(#[trigger] r[i]),
        forall|i: int, j: int|
            0 <= i < j < r.len() ==> (#[trigger] r[i]).probability.units() >= (
            #[trigger] r[j]).probability.units(),
        forall|k: int, i: int|
            0 <= k < beliefs.len() && 0 <= i < r.len() && !r.contains(#[trigger] beliefs[k]) ==> (
            #[trigger] r[i]).probability.units() >= beliefs[k].probability.units(),
{
    let keys = probability_keys(beliefs);
    let order = choose|order: Seq<usize>| #[trigger]
        falling_order(order, keys) && r == shortened(
            Seq::new(order.len(), |i: int| beliefs[order[i] as int]),
            limit,
        );
    let sorted = Seq::new(order.len(), |i: int| beliefs[order[i] as int]);
    assert forall|i: int, j: int| 0 <= i < j < sorted.len() implies (
    #[trigger] sorted[i]).probability.units() >= (#[trigger] sorted[j]).probability.units() by {
        assert(order[i] < keys.len() && order[j] < keys.len());
        assert(keys[order[i] as int] >= keys[order[j] as int]);
        law_keys_order_probabilities(sorted[i].probability, sorted[j].probability);
    }
    assert forall|i: int| 0 <= i < r.len() implies beliefs.contains(#[trigger] r[i]) by {
        assert(order[i] < keys.len());
        assert(r[i] == sorted[i]);
        assert(beliefs[order[i] as int] == r[i]);
    }
    assert forall|i: int, j: int| 0 <= i < j < r.len() implies (
    #[trigger] r[i]).probability.units() >= (#[trigger] r[j]).probability.units() by {
        assert(r[i] == sorted[i] && r[j] == sorted[j]);
    }
    assert forall|k: int, i: int|
        0 <= k < beliefs.len() && 0 <= i < r.len() && !r.contains(#[trigger] beliefs[k]) implies (
    #[trigger] r[i]).probability.units() >= beliefs[k].probability.units() by {
        lemma_order_complete(order, keys, k);
        let m = choose|m: int| 0 <= m < order.len() && #[trigger] order[m] == k;
        assert(sorted[m] == beliefs[k]);
        if m < r.len() {
            assert(r[m] == beliefs[k]);
        }
        assert(r[i] == sorted[i]);
    }
}

/// The most successful patterns come by falling success rate, as many as the limit lets
/// through or all where it is zero, and none that is left out is more successful.
pub proof fn law_no_more_successful_pattern_is_left_out(
    r: Seq<usize>,
    patterns: Seq<Pattern>,
    limit: usize,
)
    requires
        are_most_successful(r, patterns, limit),
    ensures
        r.len() == if limit == 0 || limit > patterns.len() {
            patterns.len()
        } else {
            limit as nat
        },
        forall|i: int| 0 <= i < r.len() ==> (#[trigger] r[i]) < patterns.len(),
        forall|i: int, j: int|
            0 <= i < j < r.len() ==> patterns[#[trigger] r[i] as int].success_rate.units()
                >= patterns[#[trigger] r[j] as int].success_rate.units(),
        forall|k: usize, i: int|
            k < patterns.len() && 0 <= i < r.len() && !#[trigger] r.contains(k)
                ==> patterns[#[trigger] r[i] as int].success_rate.units()
                >= patterns[k as int].success_rate.units(),
{
    let keys = rate_keys(patterns);
    let order = choose|order: Seq<usize>| #[trigger]
        falling_order(order, keys) && r == if 0 < limit && limit < order.len() {
            order.take(limit as int)
        } else {
            order
        };
    assert forall|i: int, j: int|
        0 <= i < j < order.len() implies patterns[#[trigger] order[i] as int].success_rate.units()
        >= patterns[#[trigger] order[j] as int].success_rate.units() by {
        assert(keys[order[i] as int] >= keys[order[j] as int]);
        law_keys_order_probabilities(
            patterns[order[i] as int].success_rate,
            patterns[order[j] as int].success_rate,
        );
    }
    assert forall|i: int| 0 <= i < r.len() implies (#[trigger] r[i]) < patterns.len() by {
        assert(r[i] == order[i]);
    }
    assert forall|i: int, j: int|
        0 <= i < j < r.len() implies patterns[#[trigger] r[i] as int].success_rate.units()
        >= patterns[#[trigger] r[j] as int].success_rate.units() by {
        assert(r[i] == order[i] && r[j] == order[j]);
    }
    assert forall|k: usize, i: int|
        k < patterns.len() && 0 <= i < r.len() && !#[trigger] r.contains(
            k,
        ) implies patterns[#[trigger] r[i] as int].success_rate.units()
        >= patterns[k as int].success_rate.units() by {
        lemma_order_complete(order, keys, k as int);
        let m = choose|m: int| 0 <= m < order.len() && #[trigger] order[m] == k as int;
        if m < r.len() {
            assert(r[m] == k);
        }
        assert(r[i] == order[i]);
    }
}

/// The beliefs that are still to be embedded are all those that have no embedding, in
/// their given order.
pub proof fn law_every_belief_without_embedding_is_pending(
    beliefs: Seq<Belief>,
    embedded: Seq<u128>,
)
    ensures
        without_embedding(beliefs, embedded) == beliefs.filter(
            |b: Belief| !embedded.contains(b.id),
        ),
    decreases beliefs.len(),
{
    reveal(Seq::filter);
    let p = |b: Belief| !embedded.contains(b.id);
    if beliefs.len() > 0 {
        law_every_belief_without_embedding_is_pending(beliefs.drop_last(), embedded);
    }
    assert(without_embedding(beliefs, embedded) =~= beliefs.filter(p));
}

/// A shortened text is the text without white space at its ends where that is short
/// enough; otherwise it has the greatest length and consists of the beginning of that and
/// an ellipsis.
pub proof fn law_texts_are_shortened_at_their_end(s: Seq<char>, max: int)
    requires
        max > 0,
    ensures
        trimmed(s).len() <= max ==> truncated(s, max) == trimmed(s),
        trimmed(s).len() > max ==> {
            &&& truncated(s, max).len() == max
            &&& truncated(s, max).take(max - 1) == trimmed(s).take(max - 1)
            &&& truncated(s, max).last() as u32 == 8230
        },
{
    if trimmed(s).len() > max {
        assert(truncated(s, max).take(max - 1) =~= trimmed(s).take(max - 1));
    }
}

/// Texts are joined in their order, with the separator between every two of them.
pub proof fn law_texts_are_joined_in_order(
    a: Seq<Seq<char>>,
    b: Seq<Seq<char>>,
    text: Seq<char>,
    separator: Seq<char>,
)
    requires
        a.len() > 0,
        b.len() > 0,
    ensures
        joined_with(seq![text], separator) == text,
        joined_with(Seq::empty(), separator) == Seq::<char>::empty(),
        joined_with(a + b, separator) == joined_with(a, separator) + separator + joined_with(
            b,
            separator,
        ),
    decreases b.len(),
{
    let all = a + b;
    assert(all.last() == b.last());
    if b.len() == 1 {
        assert(all.drop_last() =~= a);
    } else {
        law_texts_are_joined_in_order(a, b.drop_last(), text, separator);
        assert(all.drop_last() =~= a + b.drop_last());
        assert(joined_with(all, separator) =~= joined_with(a, separator) + separator + joined_with(
            b,
            separator,
        ));
    }
}

} // verus!
