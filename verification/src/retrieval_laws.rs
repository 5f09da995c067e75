//! Which beliefs a query finds, and in which order it answers with them.
use vstd::arithmetic::power2::*;
use vstd::prelude::*;

use crate::binary32::{single_plus, single_units};
use crate::fusion::{contribution, lemma_absent_keeps_score, list_score};
use crate::graph::{law_keys_order_probabilities, Belief, MemoryType};
use crate::inference_laws::distinct_ids;
use crate::retrieval::{
    admitted, are_scores, belief_ids, by_type, deduplicated, distinct, hit_positions, is_answer,
    is_prior_ranking, is_step, is_token_ranking, known_beliefs, lemma_position, lowered_contents,
    position_of, query_terms, ranks, relevance, retrievable, shortened, term_hits, token_key,
    type_ranking, Expansion, PRIOR_WEIGHT, TOKEN_WEIGHT, TYPE_WEIGHT, VECTOR_WEIGHT,
};
use crate::rounding::{lemma_representable, lemma_round_exact, lemma_round_relative};
use crate::sequences::{
    lemma_filter_members, lemma_kept_positions, lemma_list_one_more, lemma_one_more_position,
    lists_each_once, positions,
};
use crate::sorting::{falling_order, lemma_order_complete};
use crate::text::{has_part, lower_case, words};

verus! {

/// Every belief that is not working memory can be retrieved, whatever its project, and
/// no working memory can; the order stays.
pub proof fn law_all_but_working_memory_is_retrievable(beliefs: Seq<Belief>)
    ensures
        retrievable(beliefs) == beliefs.filter(|b: Belief| b.memory_type != MemoryType::Working),
        forall|b: Belief| #[trigger]
            retrievable(beliefs).contains(b) <==> beliefs.contains(b) && b.memory_type
                != MemoryType::Working,
    decreases beliefs.len(),
{
    reveal(Seq::filter);
    let p = |b: Belief| b.memory_type != MemoryType::Working;
    if beliefs.len() > 0 {
        law_all_but_working_memory_is_retrievable(beliefs.drop_last());
    }
    assert(retrievable(beliefs) =~= beliefs.filter(p));
    assert forall|b: Belief| #[trigger]
        retrievable(beliefs).contains(b) <==> beliefs.contains(b) && b.memory_type
            != MemoryType::Working by {
        lemma_filter_members(beliefs, p, b);
    }
}

/// The identifiers of a list are taken each once, in the order of their first occurrence.
pub proof fn law_identifiers_are_taken_once(ids: Seq<u128>)
    ensures
        lists_each_once(deduplicated(ids), ids),
    decreases ids.len(),
{
    if ids.len() > 0 {
        law_identifiers_are_taken_once(ids.drop_last());
        lemma_list_one_more(deduplicated(ids.drop_last()), ids.drop_last(), ids.last());
        assert(ids.drop_last().push(ids.last()) =~= ids);
    }
}

/// The terms of a query are its words, each once.
pub proof fn law_terms_are_the_words_of_the_query(lowered: Seq<char>)
    ensures
        lists_each_once(query_terms(lowered), words(lowered)),
{
    lemma_distinct(words(lowered));
}

proof fn lemma_distinct(ws: Seq<Seq<char>>)
    ensures
        lists_each_once(distinct(ws), ws),
    decreases ws.len(),
{
    if ws.len() > 0 {
        lemma_distinct(ws.drop_last());
        lemma_list_one_more(distinct(ws.drop_last()), ws.drop_last(), ws.last());
        assert(ws.drop_last().push(ws.last()) =~= ws);
    }
}

proof fn lemma_position_found(beliefs: Seq<Belief>, id: u128, i: int)
    requires
        0 <= i < beliefs.len(),
        beliefs[i].id == id,
    ensures
        position_of(beliefs, id) >= i,
    decreases beliefs.len(),
{
    if beliefs.last().id != id {
        assert(beliefs.drop_last()[i] == beliefs[i]);
        lemma_position_found(beliefs.drop_last(), id, i);
    }
}

/// What is searched of a belief is its content, in lower case.
pub proof fn law_contents_are_searched_regardless_of_case(beliefs: Seq<Belief>, i: int)
    requires
        0 <= i < beliefs.len(),
    ensures
        lowered_contents(beliefs).len() == beliefs.len(),
        lowered_contents(beliefs)[i] == lower_case(beliefs[i].content@),
{
}

/// The beliefs looked up are those whose identifiers are given, in the order of the
/// identifiers, without the identifiers that are not known.
pub proof fn law_known_beliefs_are_looked_up(beliefs: Seq<Belief>, ids: Seq<u128>)
    ensures
        belief_ids(known_beliefs(beliefs, ids)) == ids.filter(
            |id: u128| exists|k: int| 0 <= k < beliefs.len() && (#[trigger] beliefs[k]).id == id,
        ),
        forall|i: int|
            0 <= i < known_beliefs(beliefs, ids).len() ==> beliefs.contains(
                #[trigger] known_beliefs(beliefs, ids)[i],
            ),
    decreases ids.len(),
{
    reveal(Seq::filter);
    let p = |id: u128| exists|k: int| 0 <= k < beliefs.len() && (#[trigger] beliefs[k]).id == id;
    let all = known_beliefs(beliefs, ids);
    if ids.len() > 0 {
        let id = ids.last();
        let before = known_beliefs(beliefs, ids.drop_last());
        law_known_beliefs_are_looked_up(beliefs, ids.drop_last());
        lemma_position(beliefs, id);
        if p(id) {
            let k = choose|k: int| 0 <= k < beliefs.len() && (#[trigger] beliefs[k]).id == id;
            lemma_position_found(beliefs, id, k);
            assert(belief_ids(all) =~= belief_ids(before).push(id));
        } else {
            if position_of(beliefs, id) >= 0 {
                assert(beliefs[position_of(beliefs, id)].id == id);
            }
        }
        assert forall|i: int| 0 <= i < all.len() implies beliefs.contains(#[trigger] all[i]) by {
            if i < before.len() {
                assert(all[i] == before[i]);
            } else {
                assert(all[i] == beliefs[position_of(beliefs, id)]);
            }
        }
    } else {
        assert(belief_ids(all) =~= ids.filter(p));
    }
}

/// A search starts from every belief that either ranking names, unless it is working
/// memory.
pub proof fn law_search_starts_from_every_ranked_belief(
    beliefs: Seq<Belief>,
    token_ranked: Seq<u128>,
    vector_ranked: Seq<u128>,
    i: int,
)
    requires
        distinct_ids(beliefs),
        0 <= i < beliefs.len(),
        beliefs[i].memory_type != MemoryType::Working,
        token_ranked.contains(beliefs[i].id) || vector_ranked.contains(beliefs[i].id),
    ensures
        known_beliefs(retrievable(beliefs), deduplicated(token_ranked + vector_ranked)).contains(
            beliefs[i],
        ),
{
    let id = beliefs[i].id;
    let all = token_ranked + vector_ranked;
    let ids = deduplicated(all);
    let bs = retrievable(beliefs);
    let found = known_beliefs(bs, ids);
    law_identifiers_are_taken_once(all);
    if token_ranked.contains(id) {
        let k = choose|k: int| 0 <= k < token_ranked.len() && token_ranked[k] == id;
        assert(all[k] == id);
    } else {
        let k = choose|k: int| 0 <= k < vector_ranked.len() && vector_ranked[k] == id;
        assert(all[token_ranked.len() + k] == id);
    }
    assert(all.contains(id));
    assert(ids.contains(id));
    law_all_but_working_memory_is_retrievable(beliefs);
    assert(beliefs.contains(beliefs[i]));
    assert(bs.contains(beliefs[i]));
    let k = choose|k: int| 0 <= k < bs.len() && bs[k] == beliefs[i];
    let p = |x: u128| exists|k: int| 0 <= k < bs.len() && (#[trigger] bs[k]).id == x;
    assert(bs[k].id == id);
    assert(p(id));
    law_known_beliefs_are_looked_up(bs, ids);
    lemma_filter_members(ids, p, id);
    assert(belief_ids(found).contains(id));
    let m = choose|m: int| 0 <= m < belief_ids(found).len() && belief_ids(found)[m] == id;
    assert(bs.contains(found[m]));
    assert(beliefs.contains(found[m]));
    let q = choose|q: int| 0 <= q < beliefs.len() && beliefs[q] == found[m];
    assert(beliefs[q].id == beliefs[i].id);
    assert(q == i);
}

/// The number of terms that occur in a text.
proof fn lemma_hits(terms: Seq<Seq<char>>, text: Seq<char>)
    ensures
        term_hits(terms, text) == terms.filter(|t: Seq<char>| has_part(text, t)).len(),
    decreases terms.len(),
{
    reveal(Seq::filter);
    if terms.len() > 0 {
        lemma_hits(terms.drop_last(), text);
    }
}

proof fn lemma_hit_positions(terms: Seq<Seq<char>>, texts: Seq<Seq<char>>, n: nat)
    requires
        n <= texts.len(),
    ensures
        hit_positions(terms, texts.take(n as int)) == positions(n).filter(
            |i: int| term_hits(terms, texts[i]) > 0,
        ),
    decreases n,
{
    let p = |i: int| term_hits(terms, texts[i]) > 0;
    if n == 0 {
        reveal(Seq::filter);
        assert(positions(0).filter(p) =~= Seq::empty());
    } else {
        let m = (n - 1) as nat;
        lemma_hit_positions(terms, texts, m);
        lemma_one_more_position(m, p);
        assert(texts.take(n as int).drop_last() =~= texts.take(m as int));
        assert(texts.take(n as int).last() == texts[m as int]);
    }
}

/// Some term occurs in a text.
pub open spec fn is_hit(terms: Seq<Seq<char>>, text: Seq<char>) -> bool {
    exists|k: int| 0 <= k < terms.len() && has_part(text, #[trigger] terms[k])
}

proof fn lemma_is_hit(terms: Seq<Seq<char>>, text: Seq<char>)
    ensures
        term_hits(terms, text) > 0 <==> is_hit(terms, text),
{
    let p = |t: Seq<char>| has_part(text, t);
    let kept = terms.filter(p);
    lemma_hits(terms, text);
    if kept.len() > 0 {
        lemma_filter_members(terms, p, kept[0]);
        assert(kept.contains(kept[0]));
        let k = choose|k: int| 0 <= k < terms.len() && terms[k] == kept[0];
        assert(has_part(text, terms[k]));
    }
    if is_hit(terms, text) {
        let k = choose|k: int| 0 <= k < terms.len() && has_part(text, #[trigger] terms[k]);
        lemma_filter_members(terms, p, terms[k]);
        assert(terms.contains(terms[k]));
        let j = choose|j: int| 0 <= j < kept.len() && kept[j] == terms[k];
    }
}

/// A ranking by keys holds the given identifiers, all of them; of two, the one with the
/// greater key comes first, and with equal keys the one that was given first.
pub proof fn law_rankings_are_by_falling_key(
    ranking: Seq<u128>,
    ids: Seq<u128>,
    keys: Seq<u128>,
    i: int,
    j: int,
)
    requires
        ranks(ranking, ids, keys),
        0 <= i < ids.len(),
        0 <= j < ids.len(),
        keys[i] > keys[j] || (keys[i] == keys[j] && i < j),
    ensures
        ranking.len() == ids.len(),
        exists|a: int, b: int|
            0 <= a < b < ranking.len() && #[trigger] ranking[a] == ids[i] && #[trigger] ranking[b]
                == ids[j],
{
    let order = choose|order: Seq<usize>| #[trigger]
        falling_order(order, keys) && ids.len() == keys.len() && ranking == Seq::new(
            order.len(),
            |i: int| ids[order[i] as int],
        );
    lemma_order_complete(order, keys, i);
    lemma_order_complete(order, keys, j);
    let a = choose|a: int| 0 <= a < order.len() && #[trigger] order[a] == i;
    let b = choose|b: int| 0 <= b < order.len() && #[trigger] order[b] == j;
    assert(ranking[a] == ids[i] && ranking[b] == ids[j]);
    if b < a {
        assert(order[b] == j && order[a] == i);
    }
}

proof fn lemma_ranking_members(ranking: Seq<u128>, ids: Seq<u128>, keys: Seq<u128>, id: u128)
    requires
        ranks(ranking, ids, keys),
    ensures
        ranking.contains(id) <==> ids.contains(id),
{
    let order = choose|order: Seq<usize>| #[trigger]
        falling_order(order, keys) && ids.len() == keys.len() && ranking == Seq::new(
            order.len(),
            |i: int| ids[order[i] as int],
        );
    if ids.contains(id) {
        let i = choose|i: int| 0 <= i < ids.len() && ids[i] == id;
        lemma_order_complete(order, keys, i);
        let a = choose|a: int| 0 <= a < order.len() && #[trigger] order[a] == i;
        assert(ranking[a] == id);
    }
    if ranking.contains(id) {
        let a = choose|a: int| 0 <= a < ranking.len() && ranking[a] == id;
        assert(order[a] < keys.len());
        assert(ids[order[a] as int] == id);
    }
}

/// The ranking by terms holds the beliefs whose text some term of the query occurs in,
/// and no others.
pub proof fn law_terms_find_every_text_that_they_occur_in(
    ranking: Seq<u128>,
    beliefs: Seq<Belief>,
    terms: Seq<Seq<char>>,
    texts: Seq<Seq<char>>,
    id: u128,
)
    requires
        is_token_ranking(ranking, beliefs, terms, texts),
    ensures
        ranking.contains(id) <==> exists|i: int|
            0 <= i < texts.len() && (#[trigger] beliefs[i]).id == id && is_hit(terms, texts[i]),
{
    let hit = hit_positions(terms, texts);
    let ids = Seq::new(hit.len(), |i: int| beliefs[hit[i]].id);
    let keys = Seq::new(hit.len(), |i: int| token_key(terms, texts[hit[i]], beliefs[hit[i]]));
    let p = |i: int| term_hits(terms, texts[i]) > 0;
    lemma_ranking_members(ranking, ids, keys, id);
    lemma_hit_positions(terms, texts, texts.len());
    assert(texts.take(texts.len() as int) =~= texts);
    assert(hit == positions(texts.len()).filter(p));
    if ids.contains(id) {
        let k = choose|k: int| 0 <= k < ids.len() && ids[k] == id;
        lemma_kept_positions(texts.len(), p, hit[k]);
        assert(hit.contains(hit[k]));
        lemma_is_hit(terms, texts[hit[k]]);
        assert(beliefs[hit[k]].id == id);
    }
    if exists|i: int|
        0 <= i < texts.len() && (#[trigger] beliefs[i]).id == id && is_hit(terms, texts[i]) {
        let i = choose|i: int|
            0 <= i < texts.len() && (#[trigger] beliefs[i]).id == id && is_hit(terms, texts[i]);
        lemma_is_hit(terms, texts[i]);
        lemma_kept_positions(texts.len(), p, i);
        let k = choose|k: int| 0 <= k < hit.len() && hit[k] == i;
        assert(ids[k] == id);
    }
}

/// Of two beliefs that terms occur in, the one that more terms occur in comes first; with
/// as many, the more probable one; and with the same probability the one given first.
pub proof fn law_more_terms_come_first(
    ranking: Seq<u128>,
    beliefs: Seq<Belief>,
    terms: Seq<Seq<char>>,
    texts: Seq<Seq<char>>,
    i: int,
    j: int,
)
    requires
        is_token_ranking(ranking, beliefs, terms, texts),
        0 <= i < texts.len(),
        0 <= j < texts.len(),
        terms.len() < 0x8000_0000_0000_0000,
        is_hit(terms, texts[i]),
        is_hit(terms, texts[j]),
        ({
            let x = terms.filter(|t: Seq<char>| has_part(texts[i], t)).len();
            let y = terms.filter(|t: Seq<char>| has_part(texts[j], t)).len();
            let p = beliefs[i].probability.units();
            let q = beliefs[j].probability.units();
            x > y || (x == y && (p > q || (p == q && i < j)))
        }),
    ensures
        exists|a: int, b: int|
            0 <= a < b < ranking.len() && #[trigger] ranking[a] == beliefs[i].id
                && #[trigger] ranking[b] == beliefs[j].id,
{
    let hit = hit_positions(terms, texts);
    let ids = Seq::new(hit.len(), |k: int| beliefs[hit[k]].id);
    let keys = Seq::new(hit.len(), |k: int| token_key(terms, texts[hit[k]], beliefs[hit[k]]));
    let p = |k: int| term_hits(terms, texts[k]) > 0;
    lemma_hit_positions(terms, texts, texts.len());
    assert(texts.take(texts.len() as int) =~= texts);
    lemma_is_hit(terms, texts[i]);
    lemma_is_hit(terms, texts[j]);
    lemma_kept_positions(texts.len(), p, i);
    lemma_kept_positions(texts.len(), p, j);
    let a = choose|a: int| 0 <= a < hit.len() && hit[a] == i;
    let b = choose|b: int| 0 <= b < hit.len() && hit[b] == j;
    lemma_hits(terms, texts[i]);
    lemma_hits(terms, texts[j]);
    terms.lemma_filter_len(|t: Seq<char>| has_part(texts[i], t));
    terms.lemma_filter_len(|t: Seq<char>| has_part(texts[j], t));
    law_keys_order_probabilities(beliefs[i].probability, beliefs[j].probability);
    law_keys_order_probabilities(beliefs[j].probability, beliefs[i].probability);
    lemma_positions_rise(texts.len(), p);
    if i < j && b <= a {
        assert(hit[b] <= hit[a]);
    }
    law_rankings_are_by_falling_key(ranking, ids, keys, a, b);
}

proof fn lemma_positions_rise(n: nat, p: spec_fn(int) -> bool)
    ensures
        ({
            let kept = positions(n).filter(p);
            &&& forall|i: int, j: int| 0 <= i < j < kept.len() ==> kept[i] < kept[j]
            &&& forall|i: int| 0 <= i < kept.len() ==> #[trigger] kept[i] < n
        }),
    decreases n,
{
    reveal(Seq::filter);
    if n > 0 {
        let m = (n - 1) as nat;
        lemma_positions_rise(m, p);
        lemma_one_more_position(m, p);
    }
}

/// The more probable of two beliefs comes first in the ranking by probability, and all
/// beliefs are in it.
pub proof fn law_more_probable_beliefs_come_first(
    ranking: Seq<u128>,
    beliefs: Seq<Belief>,
    i: int,
    j: int,
)
    requires
        is_prior_ranking(ranking, beliefs),
        0 <= i < beliefs.len(),
        0 <= j < beliefs.len(),
        beliefs[i].probability.units() > beliefs[j].probability.units() || (
        beliefs[i].probability.units() == beliefs[j].probability.units() && i < j),
    ensures
        ranking.len() == beliefs.len(),
        exists|a: int, b: int|
            0 <= a < b < ranking.len() && #[trigger] ranking[a] == beliefs[i].id
                && #[trigger] ranking[b] == beliefs[j].id,
{
    law_keys_order_probabilities(beliefs[i].probability, beliefs[j].probability);
    law_keys_order_probabilities(beliefs[j].probability, beliefs[i].probability);
    law_rankings_are_by_falling_key(
        ranking,
        belief_ids(beliefs),
        Seq::new(beliefs.len(), |k: int| beliefs[k].probability.key() as u128),
        i,
        j,
    );
}

/// Where a type is preferred, the beliefs of that type come first in the ranking by type,
/// then all others, each part in the given order; where none is, the ranking is empty.
pub proof fn law_preferred_types_come_first(beliefs: Seq<Belief>, t: MemoryType)
    ensures
        type_ranking(beliefs, Some(t)) == beliefs.filter(
            |b: Belief| b.memory_type == t,
        ).map_values(|b: Belief| b.id) + beliefs.filter(|b: Belief| b.memory_type != t).map_values(
            |b: Belief| b.id,
        ),
        type_ranking(beliefs, None) == Seq::<u128>::empty(),
{
    lemma_by_type(beliefs, t);
}

proof fn lemma_by_type(beliefs: Seq<Belief>, t: MemoryType)
    ensures
        by_type(beliefs, t, true) == beliefs.filter(|b: Belief| b.memory_type == t).map_values(
            |b: Belief| b.id,
        ),
        by_type(beliefs, t, false) == beliefs.filter(|b: Belief| b.memory_type != t).map_values(
            |b: Belief| b.id,
        ),
    decreases beliefs.len(),
{
    reveal(Seq::filter);
    let is = |b: Belief| b.memory_type == t;
    let other = |b: Belief| b.memory_type != t;
    let id = |b: Belief| b.id;
    if beliefs.len() > 0 {
        let shorter = beliefs.drop_last();
        lemma_by_type(shorter, t);
        assert(shorter.filter(is).push(beliefs.last()).map_values(id) =~= shorter.filter(
            is,
        ).map_values(id).push(beliefs.last().id));
        assert(shorter.filter(other).push(beliefs.last()).map_values(id) =~= shorter.filter(
            other,
        ).map_values(id).push(beliefs.last().id));
    } else {
        assert(beliefs.filter(is).map_values(id) =~= Seq::empty());
        assert(beliefs.filter(other).map_values(id) =~= Seq::empty());
    }
}

/// The share that a rank contributes is the weight over sixty and the rank, up to the
/// last places of the number and of the format.
pub proof fn law_a_rank_contributes_its_share(weight: nat, rank: nat)
    requires
        rank + 60 <= 0x0100_0000,
    ensures
        ({
            let share = contribution(weight, rank) * (60 + rank) * 0x0100_0000;
            let slack = weight + 0x0100_0000 * (60 + rank);
            share <= weight * 0x0100_0000 + slack && weight * 0x0100_0000 <= share + slack
        }),
{
    lemma2_to64();
    lemma2_to64_rest();
    assert(pow2(24) == 0x0100_0000);
    lemma_representable(24, rank, 0);
    lemma_representable(24, 60 + rank, 0);
    lemma_round_exact(24, rank, 1);
    lemma_round_exact(24, 60 + rank, 1);
    assert(rank * pow2(0) == rank && (60 + rank) * pow2(0) == 60 + rank);
    assert(rank * 1 == rank && (60 + rank) * 1 == 60 + rank);
    lemma_round_relative(24, weight, 60 + rank);
}

/// A list adds the share of its rank to the score of each belief that it names, and
/// leaves every other score.
pub proof fn law_a_list_adds_one_share(list: Seq<u128>, weight: nat, id: u128, start: nat, r: int)
    requires
        list.no_duplicates(),
    ensures
        0 <= r < list.len() && list[r] == id ==> list_score(list, weight, id, start)
            == single_plus(start, contribution(weight, r as nat)),
        !list.contains(id) ==> list_score(list, weight, id, start) == start,
    decreases list.len(),
{
    if !list.contains(id) {
        lemma_absent_keeps_score(list, weight, id, start);
    }
    if 0 <= r < list.len() && list[r] == id {
        let shorter = list.drop_last();
        if r == list.len() - 1 {
            assert(!shorter.contains(id)) by {
                if shorter.contains(id) {
                    let k = choose|k: int| 0 <= k < shorter.len() && shorter[k] == id;
                    assert(list[k] == list[r]);
                }
            }
            lemma_absent_keeps_score(shorter, weight, id, start);
        } else {
            assert(list[list.len() - 1] != list[r]);
            assert(shorter.no_duplicates());
            assert(shorter[r] == id);
            law_a_list_adds_one_share(shorter, weight, id, start, r);
        }
    }
}

/// The share of a rank of a list; none where the list does not name the belief.
pub open spec fn with_share(list: Seq<u128>, weight: u32, id: u128, start: nat) -> nat {
    if exists|r: int| 0 <= r < list.len() && #[trigger] list[r] == id {
        let r = choose|r: int| 0 <= r < list.len() && #[trigger] list[r] == id;
        single_plus(start, contribution(single_units(weight), r as nat))
    } else {
        start
    }
}

/// The relevance of a belief is the sum of the shares of its ranks by similarity, by
/// terms, by probability and by type, in that order.
pub proof fn law_relevance_sums_four_shares(
    id: u128,
    vector_ranked: Seq<u128>,
    token_ranked: Seq<u128>,
    prior_ranked: Seq<u128>,
    type_ranked: Seq<u128>,
)
    requires
        vector_ranked.no_duplicates(),
        token_ranked.no_duplicates(),
        prior_ranked.no_duplicates(),
        type_ranked.no_duplicates(),
    ensures
        relevance(id, vector_ranked, token_ranked, prior_ranked, type_ranked) == with_share(
            type_ranked,
            TYPE_WEIGHT,
            id,
            with_share(
                prior_ranked,
                PRIOR_WEIGHT,
                id,
                with_share(
                    token_ranked,
                    TOKEN_WEIGHT,
                    id,
                    with_share(vector_ranked, VECTOR_WEIGHT, id, 0),
                ),
            ),
        ),
{
    lemma_with_share(vector_ranked, VECTOR_WEIGHT, id, 0);
    let a = with_share(vector_ranked, VECTOR_WEIGHT, id, 0);
    lemma_with_share(token_ranked, TOKEN_WEIGHT, id, a);
    let b = with_share(token_ranked, TOKEN_WEIGHT, id, a);
    lemma_with_share(prior_ranked, PRIOR_WEIGHT, id, b);
    let c = with_share(prior_ranked, PRIOR_WEIGHT, id, b);
    lemma_with_share(type_ranked, TYPE_WEIGHT, id, c);
}

proof fn lemma_with_share(list: Seq<u128>, weight: u32, id: u128, start: nat)
    requires
        list.no_duplicates(),
    ensures
        list_score(list, single_units(weight), id, start) == with_share(list, weight, id, start),
{
    if exists|r: int| 0 <= r < list.len() && #[trigger] list[r] == id {
        let r = choose|r: int| 0 <= r < list.len() && #[trigger] list[r] == id;
        law_a_list_adds_one_share(list, single_units(weight), id, start, r);
    } else {
        assert(!list.contains(id));
        law_a_list_adds_one_share(list, single_units(weight), id, start, -1);
    }
}

/// An answer comes by falling relevance, and what a limit leaves out is no more relevant
/// than what it lets through. Without a limit everything found is in it.
pub proof fn law_answers_come_by_falling_relevance(
    r: Seq<Belief>,
    found: Seq<Belief>,
    vector_ranked: Seq<u128>,
    token_ranked: Seq<u128>,
    prior: Seq<u128>,
    limit: usize,
    prefer_type: Option<MemoryType>,
)
    requires
        is_answer(r, found, vector_ranked, token_ranked, limit, prefer_type),
        is_prior_ranking(prior, found),
    ensures
        ({
            let weigh = |b: Belief|
                relevance(
                    b.id,
                    vector_ranked,
                    token_ranked,
                    prior,
                    type_ranking(found, prefer_type),
                );
            &&& r.len() == if limit == 0 || limit > found.len() {
                found.len()
            } else {
                limit as nat
            }
            &&& forall|i: int, j: int|
                0 <= i < j < r.len() ==> weigh(#[trigger] r[i]) >= weigh(#[trigger] r[j])
            &&& forall|k: int, i: int|
                0 <= k < found.len() && 0 <= i < r.len() && !r.contains(#[trigger] found[k])
                    ==> weigh(#[trigger] r[i]) >= weigh(found[k])
        }),
{
    let types = type_ranking(found, prefer_type);
    let (other, scores, order): (Seq<u128>, Seq<u128>, Seq<usize>) = choose|
        other: Seq<u128>,
        scores: Seq<u128>,
        order: Seq<usize>,
    |
        #![trigger is_prior_ranking(other, found), falling_order(order, scores)]
        {
            &&& is_prior_ranking(other, found)
            &&& are_scores(scores, found, vector_ranked, token_ranked, other, types)
            &&& falling_order(order, scores)
            &&& r == shortened(Seq::new(order.len(), |i: int| found[order[i] as int]), limit)
        };
    crate::retrieval::law_ranking_is_unique(
        prior,
        other,
        belief_ids(found),
        Seq::new(found.len(), |i: int| found[i].probability.key() as u128),
    );
    let weigh = |b: Belief| relevance(b.id, vector_ranked, token_ranked, prior, types);
    let sorted = Seq::new(order.len(), |i: int| found[order[i] as int]);
    assert forall|i: int, j: int| 0 <= i < j < sorted.len() implies weigh(#[trigger] sorted[i])
        >= weigh(#[trigger] sorted[j]) by {
        let a = order[i] as int;
        let b = order[j] as int;
        assert(order[i] < scores.len() && order[j] < scores.len());
        assert(scores[a] >= scores[b]);
        if scores[a] > scores[b] {
            crate::binary32::lemma_single_order(scores[b] as u32, scores[a] as u32);
        }
    }
    assert forall|i: int, j: int| 0 <= i < j < r.len() implies weigh(#[trigger] r[i]) >= weigh(
        #[trigger] r[j],
    ) by {
        assert(r[i] == sorted[i] && r[j] == sorted[j]);
    }
    assert forall|k: int, i: int|
        0 <= k < found.len() && 0 <= i < r.len() && !r.contains(
            #[trigger] found[k],
        ) implies weigh(#[trigger] r[i]) >= weigh(found[k]) by {
        lemma_order_complete(order, scores, k);
        let m = choose|m: int| 0 <= m < order.len() && #[trigger] order[m] == k;
        assert(sorted[m] == found[k]);
        if m < r.len() {
            assert(r[m] == found[k]);
        }
        assert(r[i] == sorted[i]);
    }
}

/// What is offered to a search is added behind what it has found: each belief once that
/// is neither working memory nor found already, in the order in which they are offered.
pub proof fn law_expansion_adds_what_is_new(found: Seq<Belief>, offered: Seq<Belief>)
    ensures
        ({
            let all = admitted(found, offered);
            let n = found.len() as int;
            &&& all.len() >= found.len()
            &&& all.take(n) == found
            &&& lists_each_once(
                belief_ids(all.skip(n)),
                belief_ids(
                    offered.filter(
                        |b: Belief|
                            b.memory_type != MemoryType::Working && !belief_ids(found).contains(
                                b.id,
                            ),
                    ),
                ),
            )
            &&& forall|i: int| n <= i < all.len() ==> offered.contains(#[trigger] all[i])
        }),
    decreases offered.len(),
{
    reveal(Seq::filter);
    let p = |b: Belief|
        b.memory_type != MemoryType::Working && !belief_ids(found).contains(b.id);
    let all = admitted(found, offered);
    let n = found.len() as int;
    if offered.len() > 0 {
        let shorter = offered.drop_last();
        let before = admitted(found, shorter);
        let b = offered.last();
        law_expansion_adds_what_is_new(found, shorter);
        assert(all.take(n) =~= found);
        let old_ids = belief_ids(before.skip(n));
        assert(belief_ids(before).contains(b.id) <==> belief_ids(found).contains(b.id)
            || old_ids.contains(b.id)) by {
            if belief_ids(before).contains(b.id) {
                let k = choose|k: int| 0 <= k < before.len() && belief_ids(before)[k] == b.id;
                if k < n {
                    assert(before.take(n)[k] == found[k]);
                    assert(belief_ids(found)[k] == b.id);
                } else {
                    assert(old_ids[k - n] == b.id);
                }
            }
            if belief_ids(found).contains(b.id) {
                let k = choose|k: int| 0 <= k < n && belief_ids(found)[k] == b.id;
                assert(before.take(n)[k] == found[k]);
                assert(belief_ids(before)[k] == b.id);
            }
            if old_ids.contains(b.id) {
                let k = choose|k: int| 0 <= k < old_ids.len() && old_ids[k] == b.id;
                assert(belief_ids(before)[n + k] == b.id);
            }
        }
        let kept = shorter.filter(p);
        if p(b) {
            lemma_list_one_more(old_ids, belief_ids(kept), b.id);
            assert(belief_ids(kept.push(b)) =~= belief_ids(kept).push(b.id));
            if !old_ids.contains(b.id) {
                assert(belief_ids(all.skip(n)) =~= old_ids.push(b.id));
            }
        }
        assert forall|i: int| n <= i < all.len() implies offered.contains(#[trigger] all[i]) by {
            if i < before.len() {
                assert(all[i] == before[i]);
                assert(shorter.contains(before[i]));
                let k = choose|k: int| 0 <= k < shorter.len() && shorter[k] == before[i];
                assert(offered[k] == all[i]);
            } else {
                assert(offered[offered.len() - 1] == all[i]);
            }
        }
    } else {
        assert(all.take(n) =~= found);
        assert(belief_ids(all.skip(n)) =~= Seq::empty());
        assert(belief_ids(offered.filter(p)) =~= Seq::empty());
    }
}

/// A deep search asks about every belief that it adds; any search goes on to ask about
/// what it has not asked about yet, and keeps its rankings.
pub proof fn law_a_search_forgets_no_question(
    before: Expansion,
    neighbours: Seq<Belief>,
    after: Expansion,
)
    requires
        before.next_id() is Some,
        is_step(before, neighbours, after),
    ensures
        forall|i: int|
            1 <= i < before.pending().len() ==> after.pending().contains(
                #[trigger] before.pending()[i],
            ),
        forall|i: int|
            0 <= i < before.pending_starts().len() && (before.pending().len() > 0 || i > 0)
                ==> after.pending_starts().contains(#[trigger] before.pending_starts()[i]),
        before.is_deep() ==> forall|i: int|
            before.results().len() <= i < after.results().len() ==> after.pending().contains(
                (#[trigger] after.results()[i]).id,
            ),
        !before.is_deep() && before.pending().len() == 0 ==> after.pending().len() == 0,
        after.is_deep() == before.is_deep(),
        after.token_ranking() == before.token_ranking(),
        after.vector_ranking() == before.vector_ranking(),
{
    let rest = if before.pending().len() > 0 {
        before.pending().drop_first()
    } else {
        Seq::empty()
    };
    assert forall|i: int| 1 <= i < before.pending().len() implies after.pending().contains(
        #[trigger] before.pending()[i],
    ) by {
        assert(after.pending()[i - 1] == before.pending()[i]);
    }
    assert forall|i: int|
        0 <= i < before.pending_starts().len() && (before.pending().len() > 0 || i
            > 0) implies after.pending_starts().contains(
        #[trigger] before.pending_starts()[i],
    ) by {
        if before.pending().len() > 0 {
            assert(after.pending_starts()[i] == before.pending_starts()[i]);
        } else {
            assert(after.pending_starts()[i - 1] == before.pending_starts()[i]);
        }
    }
    if before.is_deep() {
        law_expansion_adds_what_is_new(before.results(), neighbours);
        assert forall|i: int|
            before.results().len() <= i < after.results().len() implies after.pending().contains(
            (#[trigger] after.results()[i]).id,
        ) by {
            let k = rest.len() + i - before.results().len();
            assert(after.pending()[k] == after.results()[i].id);
        }
    }
}

} // verus!
