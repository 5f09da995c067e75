//! Retrieval of relevant beliefs: candidates by shared words and by similarity,
//! expanded along the graph and ranked by fused ranks.
use vstd::arithmetic::power2::*;
use vstd::prelude::*;
use vstd::string::*;

use crate::binary32::{lemma_single_order, single_units, Binary32};
use crate::documents::texts_view;
use crate::fusion::{fused_score, is_ranked, lemma_unranked_scores_zero, list_score, weighted_rrf};
use crate::graph::{Belief, MemoryType};
use crate::inference::contains_id;
use crate::rounding::{
    excess_bits, lemma_nearest_even_common_factor, lemma_scaled_length, nearest_even,
    round_to_precision,
};
use crate::sorting::{comes_before, falling_order, lemma_falling_order_unique, lemma_order_complete, order_falling};
use crate::text::{chars_of, contains_part, has_part, lower_case, split_words, to_lower_case, words};

verus! {

broadcast use vstd::std_specs::hash::group_hash_axioms;

/// Bit patterns of the weights of the four rankings: 1, 0.3, 0.1 and 0.5.
pub const VECTOR_WEIGHT: u32 = 0x3F80_0000;

pub const TOKEN_WEIGHT: u32 = 0x3E99_999A;

pub const PRIOR_WEIGHT: u32 = 0x3DCC_CCCD;

pub const TYPE_WEIGHT: u32 = 0x3F00_0000;

/// The identifiers of beliefs.
pub open spec fn belief_ids(beliefs: Seq<Belief>) -> Seq<u128> {
    Seq::new(beliefs.len(), |i: int| beliefs[i].id)
}

/// The beliefs that are not working memory, in their given order.
pub open spec fn retrievable(beliefs: Seq<Belief>) -> Seq<Belief>
    decreases beliefs.len(),
{
    if beliefs.len() == 0 {
        Seq::empty()
    } else if beliefs.last().memory_type != MemoryType::Working {
        retrievable(beliefs.drop_last()).push(beliefs.last())
    } else {
        retrievable(beliefs.drop_last())
    }
}

/// The words of a list, each once, in the order of their first occurrence.
pub open spec fn distinct(ws: Seq<Seq<char>>) -> Seq<Seq<char>>
    decreases ws.len(),
{
    if ws.len() == 0 {
        Seq::empty()
    } else {
        let before = distinct(ws.drop_last());
        if before.contains(ws.last()) {
            before
        } else {
            before.push(ws.last())
        }
    }
}

/// The terms of a query in lower case: its distinct words.
pub open spec fn query_terms(lowered: Seq<char>) -> Seq<Seq<char>> {
    distinct(words(lowered))
}

/// Number of terms that occur in a text.
pub open spec fn term_hits(terms: Seq<Seq<char>>, text: Seq<char>) -> nat
    decreases terms.len(),
{
    if terms.len() == 0 {
        0
    } else {
        term_hits(terms.drop_last(), text) + if has_part(text, terms.last()) {
            1nat
        } else {
            0nat
        }
    }
}

/// The positions of the texts that some term occurs in.
pub open spec fn hit_positions(terms: Seq<Seq<char>>, texts: Seq<Seq<char>>) -> Seq<int>
    decreases texts.len(),
{
    if texts.len() == 0 {
        Seq::empty()
    } else if term_hits(terms, texts.last()) > 0 {
        hit_positions(terms, texts.drop_last()).push(texts.len() - 1)
    } else {
        hit_positions(terms, texts.drop_last())
    }
}

/// `ranking` lists `ids` by falling key, equal keys in their given order.
pub open spec fn ranks(ranking: Seq<u128>, ids: Seq<u128>, keys: Seq<u128>) -> bool {
    exists|order: Seq<usize>| #[trigger]
        falling_order(order, keys) && ids.len() == keys.len() && ranking == Seq::new(
            order.len(),
            |i: int| ids[order[i] as int],
        )
}

/// The key by which a belief is ranked among those that a term occurs in: the
/// number of terms first, then the probability.
pub open spec fn token_key(terms: Seq<Seq<char>>, text: Seq<char>, belief: Belief) -> u128 {
    (term_hits(terms, text) * 0x1_0000_0000_0000_0000 + belief.probability.key()) as u128
}

/// `ranking` is the ranking of the beliefs by shared terms. `texts` holds the
/// content of each belief in lower case.
pub open spec fn is_token_ranking(
    ranking: Seq<u128>,
    beliefs: Seq<Belief>,
    terms: Seq<Seq<char>>,
    texts: Seq<Seq<char>>,
) -> bool {
    let hit = hit_positions(terms, texts);
    ranks(
        ranking,
        Seq::new(hit.len(), |i: int| beliefs[hit[i]].id),
        Seq::new(hit.len(), |i: int| token_key(terms, texts[hit[i]], beliefs[hit[i]])),
    )
}

/// The contents of the beliefs in lower case.
pub open spec fn lowered_contents(beliefs: Seq<Belief>) -> Seq<Seq<char>> {
    Seq::new(beliefs.len(), |i: int| lower_case(beliefs[i].content@))
}

/// The identifiers of a list, each once, in the order of their first occurrence.
pub open spec fn deduplicated(ids: Seq<u128>) -> Seq<u128>
    decreases ids.len(),
{
    if ids.len() == 0 {
        Seq::empty()
    } else {
        let before = deduplicated(ids.drop_last());
        if before.contains(ids.last()) {
            before
        } else {
            before.push(ids.last())
        }
    }
}

/// Position of the last belief with an identifier, or -1 where there is none.
pub open spec fn position_of(beliefs: Seq<Belief>, id: u128) -> int
    decreases beliefs.len(),
{
    if beliefs.len() == 0 {
        -1
    } else if beliefs.last().id == id {
        beliefs.len() - 1
    } else {
        position_of(beliefs.drop_last(), id)
    }
}

/// The beliefs with the given identifiers, as far as they are known.
pub open spec fn known_beliefs(beliefs: Seq<Belief>, ids: Seq<u128>) -> Seq<Belief>
    decreases ids.len(),
{
    if ids.len() == 0 {
        Seq::empty()
    } else {
        let before = known_beliefs(beliefs, ids.drop_last());
        let at = position_of(beliefs, ids.last());
        if at >= 0 {
            before.push(beliefs[at])
        } else {
            before
        }
    }
}

/// The beliefs that an expansion adds to those found: the ones that are not
/// working memory and not found yet, each once.
pub open spec fn admitted(found: Seq<Belief>, offered: Seq<Belief>) -> Seq<Belief>
    decreases offered.len(),
{
    if offered.len() == 0 {
        found
    } else {
        let before = admitted(found, offered.drop_last());
        let b = offered.last();
        if b.memory_type != MemoryType::Working && !belief_ids(before).contains(b.id) {
            before.push(b)
        } else {
            before
        }
    }
}

/// The beliefs of the preferred type first, then the others.
pub open spec fn by_type(beliefs: Seq<Belief>, t: MemoryType, preferred: bool) -> Seq<u128>
    decreases beliefs.len(),
{
    if beliefs.len() == 0 {
        Seq::empty()
    } else {
        let before = by_type(beliefs.drop_last(), t, preferred);
        if (beliefs.last().memory_type == t) == preferred {
            before.push(beliefs.last().id)
        } else {
            before
        }
    }
}

/// The ranking by preferred type; empty where no type is preferred.
pub open spec fn type_ranking(beliefs: Seq<Belief>, prefer: Option<MemoryType>) -> Seq<u128> {
    match prefer {
        Some(t) => by_type(beliefs, t, true) + by_type(beliefs, t, false),
        None => Seq::empty(),
    }
}

/// `ranking` is the ranking of the beliefs by probability.
pub open spec fn is_prior_ranking(ranking: Seq<u128>, beliefs: Seq<Belief>) -> bool {
    ranks(
        ranking,
        belief_ids(beliefs),
        Seq::new(beliefs.len(), |i: int| beliefs[i].probability.key() as u128),
    )
}

pub open spec fn shortened(beliefs: Seq<Belief>, limit: usize) -> Seq<Belief> {
    if 0 < limit && limit < beliefs.len() {
        beliefs.take(limit as int)
    } else {
        beliefs
    }
}

/// No belief is working memory and no two share an identifier.
pub open spec fn are_results(beliefs: Seq<Belief>) -> bool {
    &&& forall|i: int|
        0 <= i < beliefs.len() ==> (#[trigger] beliefs[i]).memory_type != MemoryType::Working
    &&& belief_ids(beliefs).no_duplicates()
}

/// Number of similar beliefs to ask for: four times the limit, at least twenty;
/// fifty where there is no limit.
pub fn vector_pool(limit: usize) -> (r: usize)
    requires
        limit * 4 <= usize::MAX,
    ensures
        r == if limit == 0 {
            50
        } else if limit * 4 >= 20 {
            limit * 4
        } else {
            20
        },
{
    if limit == 0 {
        50
    } else if limit * 4 >= 20 {
        limit * 4
    } else {
        20
    }
}

/// A copy of the beliefs.
pub fn copy_beliefs(beliefs: &[Belief]) -> (r: Vec<Belief>)
    ensures
        r@ == beliefs@,
{
    let mut r: Vec<Belief> = Vec::new();
    let n: usize = beliefs.len();
    let mut i: usize = 0;
    while i < n
        invariant
            i <= n,
            n == beliefs@.len(),
            r@ == beliefs@.take(i as int),
        decreases n - i,
    {
        r.push(beliefs[i].duplicate());
        i = i + 1;
        assert(r@ =~= beliefs@.take(i as int));
    }
    assert(beliefs@.take(n as int) =~= beliefs@);
    r
}

/// The beliefs that are not working memory.
pub fn without_working(beliefs: &[Belief]) -> (r: Vec<Belief>)
    ensures
        r@ == retrievable(beliefs@),
{
    let mut r: Vec<Belief> = Vec::new();
    let n: usize = beliefs.len();
    let mut i: usize = 0;
    assert(beliefs@.take(0) =~= Seq::empty());
    while i < n
        invariant
            i <= n,
            n == beliefs@.len(),
            r@ == retrievable(beliefs@.take(i as int)),
        decreases n - i,
    {
        assert(beliefs@.take(i + 1).drop_last() =~= beliefs@.take(i as int));
        if beliefs[i].memory_type != MemoryType::Working {
            r.push(beliefs[i].duplicate());
        }
        i = i + 1;
    }
    assert(beliefs@.take(n as int) =~= beliefs@);
    r
}

/// Whether two sequences of characters are the same.
fn same_chars(a: &[char], b: &[char]) -> (r: bool)
    ensures
        r == (a@ == b@),
{
    if a.len() != b.len() {
        return false;
    }
    let r: bool = crate::text::stands_at(a, 0, b);
    assert(a@.subrange(0, b@.len() as int) =~= a@);
    r
}

/// The distinct words among those given.
fn distinct_words<'a>(ws: &Vec<&'a [char]>, model: Ghost<Seq<Seq<char>>>) -> (r: Vec<&'a [char]>)
    requires
        ws@.len() == model@.len(),
        forall|i: int| 0 <= i < ws@.len() ==> (#[trigger] ws@[i])@ == model@[i],
    ensures
        r@.len() == distinct(model@).len(),
        forall|i: int| 0 <= i < r@.len() ==> (#[trigger] r@[i])@ == distinct(model@)[i],
{
    let mut r: Vec<&'a [char]> = Vec::new();
    let n: usize = ws.len();
    let mut i: usize = 0;
    assert(model@.take(0) =~= Seq::empty());
    while i < n
        invariant
            i <= n,
            n == ws@.len(),
            n == model@.len(),
            forall|k: int| 0 <= k < n ==> (#[trigger] ws@[k])@ == model@[k],
            r@.len() == distinct(model@.take(i as int)).len(),
            forall|k: int|
                0 <= k < r@.len() ==> (#[trigger] r@[k])@ == distinct(model@.take(i as int))[k],
        decreases n - i,
    {
        let ghost before = distinct(model@.take(i as int));
        assert(model@.take(i + 1).drop_last() =~= model@.take(i as int));
        let w = ws[i];
        let mut seen: bool = false;
        let m: usize = r.len();
        let mut k: usize = 0;
        while k < m && !seen
            invariant
                k <= m,
                m == r@.len(),
                m == before.len(),
                forall|j: int| 0 <= j < m ==> (#[trigger] r@[j])@ == before[j],
                seen ==> before.contains(w@),
                !seen ==> forall|j: int| 0 <= j < k ==> before[j] != w@,
            decreases m - k,
        {
            if same_chars(r[k], w) {
                seen = true;
                assert(before[k as int] == w@);
            }
            k = k + 1;
        }
        if !seen {
            r.push(w);
        }
        i = i + 1;
    }
    assert(model@.take(n as int) =~= model@);
    r
}

/// Number of terms that occur in a text.
fn count_hits(terms: &Vec<&[char]>, text: &[char], model: Ghost<Seq<Seq<char>>>) -> (r: usize)
    requires
        terms@.len() == model@.len(),
        forall|i: int| 0 <= i < terms@.len() ==> (#[trigger] terms@[i])@ == model@[i],
    ensures
        r == term_hits(model@, text@),
{
    let n: usize = terms.len();
    let mut r: usize = 0;
    let mut i: usize = 0;
    assert(model@.take(0) =~= Seq::empty());
    while i < n
        invariant
            i <= n,
            n == terms@.len(),
            n == model@.len(),
            forall|k: int| 0 <= k < n ==> (#[trigger] terms@[k])@ == model@[k],
            r == term_hits(model@.take(i as int), text@),
            r <= i,
        decreases n - i,
    {
        assert(model@.take(i + 1).drop_last() =~= model@.take(i as int));
        if contains_part(text, terms[i]) {
            r = r + 1;
        }
        i = i + 1;
    }
    assert(model@.take(n as int) =~= model@);
    r
}

/// Identifiers by falling key, equal keys in their given order.
fn rank_by(ids: &Vec<u128>, keys: &Vec<u128>) -> (r: Vec<u128>)
    requires
        ids@.len() == keys@.len(),
    ensures
        ranks(r@, ids@, keys@),
{
    let order = order_falling(keys);
    let n: usize = order.len();
    let mut r: Vec<u128> = Vec::new();
    let mut i: usize = 0;
    while i < n
        invariant
            i <= n,
            n == order@.len(),
            ids@.len() == keys@.len(),
            falling_order(order@, keys@),
            r@.len() == i,
            forall|k: int| 0 <= k < i ==> r@[k] == ids@[(#[trigger] order@[k]) as int],
        decreases n - i,
    {
        r.push(ids[order[i]]);
        i = i + 1;
    }
    assert(r@ =~= Seq::new(order@.len(), |k: int| ids@[order@[k] as int]));
    r
}

/// The ranking of the beliefs by the query terms that occur in them, regardless
/// of case.
pub fn rank_by_terms(beliefs: &Vec<Belief>, query: &str) -> (r: Vec<u128>)
    ensures
        is_token_ranking(
            r@,
            beliefs@,
            query_terms(lower_case(query@)),
            lowered_contents(beliefs@),
        ),
{
    let lowered = to_lower_case(query);
    let mut texts: Vec<String> = Vec::new();
    let n: usize = beliefs.len();
    let mut i: usize = 0;
    while i < n
        invariant
            i <= n,
            n == beliefs@.len(),
            texts@.len() == i,
            forall|k: int|
                0 <= k < i ==> (#[trigger] texts@[k])@ == lower_case(beliefs@[k].content@),
        decreases n - i,
    {
        texts.push(to_lower_case(beliefs[i].content.as_str()));
        i = i + 1;
    }
    assert(texts_view(texts@) =~= lowered_contents(beliefs@));
    rank_by_lowered_terms(beliefs, lowered.as_str(), &texts)
}

/// The ranking of the beliefs by the query terms that occur in them. The query
/// and the contents are given in lower case.
pub fn rank_by_lowered_terms(beliefs: &Vec<Belief>, lowered: &str, texts: &Vec<String>) -> (r: Vec<
    u128,
>)
    requires
        texts@.len() == beliefs@.len(),
    ensures
        is_token_ranking(r@, beliefs@, query_terms(lowered@), texts_view(texts@)),
{
    let cs = chars_of(lowered);
    let ws = split_words(cs.as_slice());
    let terms = distinct_words(&ws, Ghost(words(lowered@)));
    let ghost model = query_terms(lowered@);
    let ghost contents = texts_view(texts@);
    let mut ids: Vec<u128> = Vec::new();
    let mut keys: Vec<u128> = Vec::new();
    let n: usize = beliefs.len();
    let mut i: usize = 0;
    assert(contents.take(0) =~= Seq::empty());
    while i < n
        invariant
            i <= n,
            n == beliefs@.len(),
            n == texts@.len(),
            contents == texts_view(texts@),
            terms@.len() == model.len(),
            forall|k: int| 0 <= k < terms@.len() ==> (#[trigger] terms@[k])@ == model[k],
            ({
                let hit = hit_positions(model, contents.take(i as int));
                &&& ids@.len() == hit.len()
                &&& keys@.len() == hit.len()
                &&& forall|k: int|
                    0 <= k < hit.len() ==> 0 <= #[trigger] hit[k] < i && ids@[k]
                        == beliefs@[hit[k]].id && keys@[k] == token_key(
                        model,
                        contents[hit[k]],
                        beliefs@[hit[k]],
                    )
            }),
        decreases n - i,
    {
        assert(contents.take(i + 1).drop_last() =~= contents.take(i as int));
        let b = &beliefs[i];
        let text_chars = chars_of(texts[i].as_str());
        let hits: usize = count_hits(&terms, text_chars.as_slice(), Ghost(model));
        if hits > 0 {
            let weight: u64 = b.probability.value().bits;
            let key: u128 = hits as u128 * 0x1_0000_0000_0000_0000 + weight as u128;
            ids.push(b.id);
            keys.push(key);
        }
        i = i + 1;
    }
    proof {
        assert(contents.take(n as int) =~= contents);
        let hit = hit_positions(model, contents);
        assert(ids@ =~= Seq::new(hit.len(), |k: int| beliefs@[hit[k]].id));
        assert(keys@ =~= Seq::new(
            hit.len(),
            |k: int| token_key(model, contents[hit[k]], beliefs@[hit[k]]),
        ));
    }
    rank_by(&ids, &keys)
}

/// The search for relevant beliefs while the graph is asked for more. The
/// beliefs found so far stand first; of those still to be asked about, the ones
/// that were added last by the current search are asked about before the next
/// start.
#[derive(Debug)]
pub struct Expansion {
    found: Vec<Belief>,
    starts: Vec<u128>,
    queue: Vec<u128>,
    deep: bool,
    vector_ranked: Vec<u128>,
    token_ranked: Vec<u128>,
}

impl Expansion {
    #[verifier::type_invariant]
    spec fn is_valid(self) -> bool {
        are_results(self.found@)
    }

    /// The beliefs found so far.
    pub closed spec fn results(self) -> Seq<Belief> {
        self.found@
    }

    /// The beliefs that the search still has to start from.
    pub closed spec fn pending_starts(self) -> Seq<u128> {
        self.starts@
    }

    /// The beliefs added by the current search that are still to be asked about.
    pub closed spec fn pending(self) -> Seq<u128> {
        self.queue@
    }

    /// Whether the search goes on from what it adds.
    pub closed spec fn is_deep(self) -> bool {
        self.deep
    }

    pub closed spec fn vector_ranking(self) -> Seq<u128> {
        self.vector_ranked@
    }

    pub closed spec fn token_ranking(self) -> Seq<u128> {
        self.token_ranked@
    }

    /// The belief that is asked about next.
    pub open spec fn next_id(self) -> Option<u128> {
        if self.pending().len() > 0 {
            Some(self.pending()[0])
        } else if self.pending_starts().len() > 0 {
            Some(self.pending_starts()[0])
        } else {
            None
        }
    }

    /// Starts from the beliefs that either ranking names, as far as they are
    /// among the retrievable ones. `deep` says that each answer holds only the
    /// direct neighbours, so that the search has to go on from them.
    pub fn start(
        beliefs: &Vec<Belief>,
        token_ranked: Vec<u128>,
        vector_ranked: Vec<u128>,
        deep: bool,
    ) -> (r: Expansion)
        ensures
            r.results() == known_beliefs(
                retrievable(beliefs@),
                deduplicated(token_ranked@ + vector_ranked@),
            ),
            r.pending_starts() == belief_ids(r.results()),
            r.pending().len() == 0,
            r.is_deep() == deep,
            r.token_ranking() == token_ranked@,
            r.vector_ranking() == vector_ranked@,
            are_results(r.results()),
    {
        let all = without_working(beliefs.as_slice());
        let seeds = seed_ids(&token_ranked, &vector_ranked);
        let found = look_up(&all, &seeds);
        proof {
            lemma_retrievable(beliefs@);
            lemma_deduplicated(token_ranked@ + vector_ranked@);
            lemma_known_beliefs(all@, seeds@);
        }
        let starts = ids_of(&found);
        Expansion { found, starts, queue: Vec::new(), deep, vector_ranked, token_ranked }
    }

    /// The belief whose neighbours are to be asked for next, or nothing when the
    /// search is over.
    pub fn next(&self) -> (r: Option<u128>)
        ensures
            r == self.next_id(),
    {
        if self.queue.len() > 0 {
            Some(self.queue[0])
        } else if self.starts.len() > 0 {
            Some(self.starts[0])
        } else {
            None
        }
    }

    /// Takes the neighbours of the belief that `next` named.
    pub fn receive(self, neighbours: &[Belief]) -> (r: Expansion)
        requires
            self.next_id() is Some,
        ensures
            is_step(self, neighbours@, r),
            are_results(r.results()),
    {
        proof {
            use_type_invariant(&self);
        }
        let ghost before = self.found@;
        let old_len: usize = self.found.len();
        let grown = admit_all(&self.found, neighbours);
        proof {
            lemma_admitted(before, neighbours@);
        }
        let mut queue = self.queue;
        let mut starts = self.starts;
        if queue.len() > 0 {
            queue.remove(0);
            assert(queue@ =~= self.queue@.drop_first());
        } else {
            starts.remove(0);
            assert(starts@ =~= self.starts@.drop_first());
        }
        let ghost rest = queue@;
        let n: usize = grown.len();
        if self.deep {
            let mut i: usize = old_len;
            let ghost new_ids = belief_ids(grown@).skip(old_len as int);
            assert(rest + new_ids.take(0) =~= rest);
            while i < n
                invariant
                    old_len <= i <= n,
                    n == grown@.len(),
                    new_ids == belief_ids(grown@).skip(old_len as int),
                    queue@ == rest + new_ids.take(i - old_len),
                decreases n - i,
            {
                assert((rest + new_ids.take(i - old_len)).push(grown@[i as int].id) =~= rest
                    + new_ids.take(i + 1 - old_len));
                queue.push(grown[i].id);
                i = i + 1;
            }
            assert(new_ids.take(n - old_len) =~= new_ids);
        } else {
            assert(rest + Seq::<u128>::empty() =~= rest);
        }
        Expansion {
            found: grown,
            starts,
            queue,
            deep: self.deep,
            vector_ranked: self.vector_ranked,
            token_ranked: self.token_ranked,
        }
    }

    /// The beliefs found, ranked by the fusion of their similarity, the terms
    /// they share with the query, their probability and, where one is preferred,
    /// their type; at most `limit` of them, or all where the limit is zero.
    pub fn ranked(&self, limit: usize, prefer_type: Option<MemoryType>) -> (r: Vec<Belief>)
        ensures
            is_answer(
                r@,
                self.results(),
                self.vector_ranking(),
                self.token_ranking(),
                limit,
                prefer_type,
            ),
            are_results(r@),
            r@.len() == if 0 < limit && limit < self.results().len() {
                limit as nat
            } else {
                self.results().len()
            },
    {
        proof {
            use_type_invariant(self);
        }
        let prior = rank_by_probability(&self.found);
        let types = rank_by_type(&self.found, prefer_type);
        let scores = fuse(
            &self.found,
            self.vector_ranked.as_slice(),
            self.token_ranked.as_slice(),
            prior.as_slice(),
            types.as_slice(),
        );
        let order = order_falling(&scores);
        let n: usize = order.len();
        let count: usize = if 0 < limit && limit < n {
            limit
        } else {
            n
        };
        let mut r: Vec<Belief> = Vec::new();
        let mut i: usize = 0;
        let ghost sorted = Seq::new(order@.len(), |k: int| self.found@[order@[k] as int]);
        while i < count
            invariant
                i <= count <= n,
                n == order@.len(),
                falling_order(order@, scores@),
                scores@.len() == self.found@.len(),
                sorted == Seq::new(order@.len(), |k: int| self.found@[order@[k] as int]),
                r@ == sorted.take(i as int),
            decreases count - i,
        {
            r.push(self.found[order[i]].duplicate());
            i = i + 1;
            assert(r@ =~= sorted.take(i as int));
        }
        proof {
            assert(sorted.take(n as int) =~= sorted);
            lemma_sorted_results(self.found@, order@, scores@);
            lemma_results_prefix(sorted, count as int);
            assert(sorted =~= Seq::new(order@.len(), |k: int| self.results()[order@[k] as int]));
            assert(is_prior_ranking(prior@, self.results()) && falling_order(order@, scores@));
        }
        r
    }
}

/// `after` is the search `before` when it has taken the neighbours of the belief
/// that it asked about: those that are new are found, and asked about in turn
/// where the search is deep.
pub open spec fn is_step(before: Expansion, neighbours: Seq<Belief>, after: Expansion) -> bool {
    &&& after.results() == admitted(before.results(), neighbours)
    &&& after.pending() == (if before.pending().len() > 0 {
        before.pending().drop_first()
    } else {
        Seq::empty()
    }) + (if before.is_deep() {
        belief_ids(after.results()).skip(before.results().len() as int)
    } else {
        Seq::empty()
    })
    &&& after.pending_starts() == if before.pending().len() > 0 {
        before.pending_starts()
    } else {
        before.pending_starts().drop_first()
    }
    &&& after.is_deep() == before.is_deep()
    &&& after.token_ranking() == before.token_ranking()
    &&& after.vector_ranking() == before.vector_ranking()
}

/// Questions that a search can still ask where `n` beliefs can be found at most.
pub open spec fn questions_left(search: Expansion, n: nat) -> int {
    search.pending_starts().len() + search.pending().len() + n - search.results().len()
}

/// A search ends: every step leaves fewer questions, whatever the neighbours are,
/// as long as no more than `n` beliefs are found.
pub proof fn law_search_ends(
    before: Expansion,
    neighbours: Seq<Belief>,
    after: Expansion,
    n: nat,
)
    requires
        before.next_id() is Some,
        are_results(before.results()),
        is_step(before, neighbours, after),
        after.results().len() <= n,
    ensures
        0 <= questions_left(after, n) < questions_left(before, n),
{
    lemma_admitted(before.results(), neighbours);
}

/// `scores` orders the beliefs as their fused scores do.
pub open spec fn are_scores(
    scores: Seq<u128>,
    beliefs: Seq<Belief>,
    vector_ranked: Seq<u128>,
    token_ranked: Seq<u128>,
    prior_ranked: Seq<u128>,
    type_ranked: Seq<u128>,
) -> bool {
    &&& scores.len() == beliefs.len()
    &&& forall|i: int|
        0 <= i < scores.len() ==> {
            &&& (#[trigger] scores[i]) <= 0x7F80_0000
            &&& single_units(scores[i] as u32) == relevance(
                beliefs[i].id,
                vector_ranked,
                token_ranked,
                prior_ranked,
                type_ranked,
            )
        }
}

/// `r` holds the beliefs found by falling relevance, equal ones in the order in
/// which they were found, shortened to the limit.
pub open spec fn is_answer(
    r: Seq<Belief>,
    found: Seq<Belief>,
    vector_ranked: Seq<u128>,
    token_ranked: Seq<u128>,
    limit: usize,
    prefer_type: Option<MemoryType>,
) -> bool {
    exists|prior: Seq<u128>, scores: Seq<u128>, order: Seq<usize>|
        #![trigger is_prior_ranking(prior, found), falling_order(order, scores)]
        {
            &&& is_prior_ranking(prior, found)
            &&& are_scores(
                scores,
                found,
                vector_ranked,
                token_ranked,
                prior,
                type_ranking(found, prefer_type),
            )
            &&& falling_order(order, scores)
            &&& r == shortened(Seq::new(order.len(), |i: int| found[order[i] as int]), limit)
        }
}

/// The fused score of a belief over the four rankings.
pub open spec fn relevance(
    id: u128,
    vector_ranked: Seq<u128>,
    token_ranked: Seq<u128>,
    prior_ranked: Seq<u128>,
    type_ranked: Seq<u128>,
) -> nat {
    let by_vector = list_score(vector_ranked, single_units(VECTOR_WEIGHT), id, 0);
    let by_token = list_score(token_ranked, single_units(TOKEN_WEIGHT), id, by_vector);
    let by_prior = list_score(prior_ranked, single_units(PRIOR_WEIGHT), id, by_token);
    list_score(type_ranked, single_units(TYPE_WEIGHT), id, by_prior)
}

/// The identifiers of beliefs.
pub fn ids_of(beliefs: &Vec<Belief>) -> (r: Vec<u128>)
    ensures
        r@ == belief_ids(beliefs@),
{
    let mut r: Vec<u128> = Vec::new();
    let n: usize = beliefs.len();
    let mut i: usize = 0;
    while i < n
        invariant
            i <= n,
            n == beliefs@.len(),
            r@ == belief_ids(beliefs@).take(i as int),
        decreases n - i,
    {
        r.push(beliefs[i].id);
        i = i + 1;
        assert(r@ =~= belief_ids(beliefs@).take(i as int));
    }
    assert(belief_ids(beliefs@).take(n as int) =~= belief_ids(beliefs@));
    r
}

/// The identifiers of both rankings, each once.
fn seed_ids(token_ranked: &Vec<u128>, vector_ranked: &Vec<u128>) -> (r: Vec<u128>)
    ensures
        r@ == deduplicated(token_ranked@ + vector_ranked@),
{
    let mut r: Vec<u128> = Vec::new();
    add_distinct(&mut r, token_ranked, Ghost(Seq::empty()));
    assert(Seq::<u128>::empty() + token_ranked@ =~= token_ranked@);
    add_distinct(&mut r, vector_ranked, Ghost(token_ranked@));
    r
}

/// Adds the identifiers of a list that are not there yet.
fn add_distinct(r: &mut Vec<u128>, ids: &Vec<u128>, before: Ghost<Seq<u128>>)
    requires
        old(r)@ == deduplicated(before@),
    ensures
        final(r)@ == deduplicated(before@ + ids@),
{
    let n: usize = ids.len();
    let mut i: usize = 0;
    assert(before@ + ids@.take(0) =~= before@);
    while i < n
        invariant
            i <= n,
            n == ids@.len(),
            r@ == deduplicated(before@ + ids@.take(i as int)),
        decreases n - i,
    {
        proof {
            let longer = before@ + ids@.take(i + 1);
            assert(longer.drop_last() =~= before@ + ids@.take(i as int));
            assert(longer.last() == ids@[i as int]);
        }
        if !contains_id(r, ids[i]) {
            r.push(ids[i]);
        }
        i = i + 1;
    }
    assert(ids@.take(n as int) =~= ids@);
}

/// Position of the last belief with an identifier.
fn find_belief(beliefs: &Vec<Belief>, id: u128) -> (r: Option<usize>)
    ensures
        match r {
            Some(i) => i == position_of(beliefs@, id) && i < beliefs@.len(),
            None => position_of(beliefs@, id) == -1,
        },
{
    let mut i: usize = beliefs.len();
    assert(beliefs@.take(i as int) =~= beliefs@);
    while i > 0
        invariant
            i <= beliefs@.len(),
            position_of(beliefs@, id) == position_of(beliefs@.take(i as int), id),
        decreases i,
    {
        let ghost head = beliefs@.take(i as int);
        assert(head.drop_last() =~= beliefs@.take(i - 1));
        assert(head.last() == beliefs@[i - 1]);
        if beliefs[i - 1].id == id {
            return Some(i - 1);
        }
        i = i - 1;
    }
    None
}

/// The beliefs with the given identifiers, as far as they are known.
fn look_up(beliefs: &Vec<Belief>, ids: &Vec<u128>) -> (r: Vec<Belief>)
    ensures
        r@ == known_beliefs(beliefs@, ids@),
{
    let mut r: Vec<Belief> = Vec::new();
    let n: usize = ids.len();
    let mut i: usize = 0;
    assert(ids@.take(0) =~= Seq::empty());
    while i < n
        invariant
            i <= n,
            n == ids@.len(),
            r@ == known_beliefs(beliefs@, ids@.take(i as int)),
        decreases n - i,
    {
        assert(ids@.take(i + 1).drop_last() =~= ids@.take(i as int));
        match find_belief(beliefs, ids[i]) {
            Some(at) => {
                r.push(beliefs[at].duplicate());
            },
            None => {},
        }
        i = i + 1;
    }
    assert(ids@.take(n as int) =~= ids@);
    r
}

/// The beliefs found and those offered that are new.
fn admit_all(found: &Vec<Belief>, offered: &[Belief]) -> (r: Vec<Belief>)
    ensures
        r@ == admitted(found@, offered@),
{
    let mut r = copy_beliefs(found.as_slice());
    let mut ids = ids_of(&r);
    let n: usize = offered.len();
    let mut i: usize = 0;
    assert(offered@.take(0) =~= Seq::empty());
    while i < n
        invariant
            i <= n,
            n == offered@.len(),
            r@ == admitted(found@, offered@.take(i as int)),
            ids@ == belief_ids(r@),
        decreases n - i,
    {
        assert(offered@.take(i + 1).drop_last() =~= offered@.take(i as int));
        let b = &offered[i];
        if b.memory_type != MemoryType::Working && !contains_id(&ids, b.id) {
            let ghost shorter = r@;
            r.push(b.duplicate());
            ids.push(b.id);
            assert(ids@ =~= belief_ids(r@));
        }
        i = i + 1;
    }
    assert(offered@.take(n as int) =~= offered@);
    r
}

/// The beliefs by falling probability.
fn rank_by_probability(beliefs: &Vec<Belief>) -> (r: Vec<u128>)
    ensures
        is_prior_ranking(r@, beliefs@),
{
    let ids = ids_of(beliefs);
    let mut keys: Vec<u128> = Vec::new();
    let n: usize = beliefs.len();
    let mut i: usize = 0;
    let ghost model = Seq::new(beliefs@.len(), |k: int| beliefs@[k].probability.key() as u128);
    while i < n
        invariant
            i <= n,
            n == beliefs@.len(),
            model == Seq::new(beliefs@.len(), |k: int| beliefs@[k].probability.key() as u128),
            keys@ == model.take(i as int),
        decreases n - i,
    {
        keys.push(beliefs[i].probability.value().bits as u128);
        i = i + 1;
        assert(keys@ =~= model.take(i as int));
    }
    assert(model.take(n as int) =~= model);
    rank_by(&ids, &keys)
}

/// The beliefs of the preferred type, then the others.
fn rank_by_type(beliefs: &Vec<Belief>, prefer: Option<MemoryType>) -> (r: Vec<u128>)
    ensures
        r@ == type_ranking(beliefs@, prefer),
{
    match prefer {
        None => Vec::new(),
        Some(t) => {
            let mut preferred: Vec<u128> = Vec::new();
            let mut rest: Vec<u128> = Vec::new();
            let n: usize = beliefs.len();
            let mut i: usize = 0;
            assert(beliefs@.take(0) =~= Seq::empty());
            while i < n
                invariant
                    i <= n,
                    n == beliefs@.len(),
                    preferred@ == by_type(beliefs@.take(i as int), t, true),
                    rest@ == by_type(beliefs@.take(i as int), t, false),
                decreases n - i,
            {
                assert(beliefs@.take(i + 1).drop_last() =~= beliefs@.take(i as int));
                if beliefs[i].memory_type == t {
                    preferred.push(beliefs[i].id);
                } else {
                    rest.push(beliefs[i].id);
                }
                i = i + 1;
            }
            assert(beliefs@.take(n as int) =~= beliefs@);
            preferred.append(&mut rest);
            preferred
        },
    }
}

/// The fused scores of the beliefs, as numbers that order them.
fn fuse(
    beliefs: &Vec<Belief>,
    vector_ranked: &[u128],
    token_ranked: &[u128],
    prior_ranked: &[u128],
    type_ranked: &[u128],
) -> (r: Vec<u128>)
    ensures
        are_scores(
            r@,
            beliefs@,
            vector_ranked@,
            token_ranked@,
            prior_ranked@,
            type_ranked@,
        ),
{
    let mut lists: Vec<(&[u128], Binary32)> = Vec::new();
    lists.push((vector_ranked, Binary32 { bits: VECTOR_WEIGHT }));
    lists.push((token_ranked, Binary32 { bits: TOKEN_WEIGHT }));
    lists.push((prior_ranked, Binary32 { bits: PRIOR_WEIGHT }));
    lists.push((type_ranked, Binary32 { bits: TYPE_WEIGHT }));
    let fused = weighted_rrf(lists.as_slice());
    let n: usize = beliefs.len();
    let mut r: Vec<u128> = Vec::new();
    let mut i: usize = 0;
    while i < n
        invariant
            i <= n,
            n == beliefs@.len(),
            r@.len() == i,
            lists@.len() == 4,
            lists@[0] == (vector_ranked, Binary32 { bits: VECTOR_WEIGHT }),
            lists@[1] == (token_ranked, Binary32 { bits: TOKEN_WEIGHT }),
            lists@[2] == (prior_ranked, Binary32 { bits: PRIOR_WEIGHT }),
            lists@[3] == (type_ranked, Binary32 { bits: TYPE_WEIGHT }),
            forall|id: u128| #[trigger] fused@.contains_key(id) <==> is_ranked(lists@, id),
            forall|id: u128| #[trigger]
                fused@.contains_key(id) ==> fused@[id].is_number() && fused@[id].units()
                    == fused_score(lists@, id),
            forall|k: int|
                0 <= k < i ==> (#[trigger] r@[k]) <= 0x7F80_0000 && single_units(r@[k] as u32)
                    == relevance(
                    beliefs@[k].id,
                    vector_ranked@,
                    token_ranked@,
                    prior_ranked@,
                    type_ranked@,
                ),
        decreases n - i,
    {
        let id: u128 = beliefs[i].id;
        let score: u32 = match fused.get(&id) {
            Some(s) => s.bits,
            None => 0,
        };
        proof {
            if !is_ranked(lists@, id) {
                lemma_unranked_scores_zero(lists@, id);
                assert(single_units(0) == 0);
            }
            let l3 = lists@.drop_last();
            let l2 = l3.drop_last();
            let l1 = l2.drop_last();
            let l0 = l1.drop_last();
            assert(l0.len() == 0);
            assert(fused_score(l0, id) == 0);
            assert(fused_score(l1, id) == list_score(
                vector_ranked@,
                single_units(VECTOR_WEIGHT),
                id,
                0,
            ));
            assert(fused_score(l2, id) == list_score(
                token_ranked@,
                single_units(TOKEN_WEIGHT),
                id,
                fused_score(l1, id),
            ));
            assert(fused_score(l3, id) == list_score(
                prior_ranked@,
                single_units(PRIOR_WEIGHT),
                id,
                fused_score(l2, id),
            ));
            assert(fused_score(lists@, id) == list_score(
                type_ranked@,
                single_units(TYPE_WEIGHT),
                id,
                fused_score(l3, id),
            ));
        }
        r.push(score as u128);
        i = i + 1;
    }
    r
}

/// What retrieval may return holds no working memory.
proof fn lemma_retrievable(beliefs: Seq<Belief>)
    ensures
        forall|i: int|
            0 <= i < retrievable(beliefs).len() ==> (#[trigger] retrievable(beliefs)[i]).memory_type
                != MemoryType::Working,
    decreases beliefs.len(),
{
    if beliefs.len() > 0 {
        lemma_retrievable(beliefs.drop_last());
    }
}

proof fn lemma_deduplicated(ids: Seq<u128>)
    ensures
        deduplicated(ids).no_duplicates(),
    decreases ids.len(),
{
    if ids.len() > 0 {
        lemma_deduplicated(ids.drop_last());
    }
}

pub proof fn lemma_position(beliefs: Seq<Belief>, id: u128)
    ensures
        -1 <= position_of(beliefs, id) < beliefs.len(),
        position_of(beliefs, id) >= 0 ==> beliefs[position_of(beliefs, id)].id == id,
    decreases beliefs.len(),
{
    if beliefs.len() > 0 && beliefs.last().id != id {
        lemma_position(beliefs.drop_last(), id);
    }
}

/// What is looked up among retrievable beliefs, by distinct identifiers, are
/// results.
proof fn lemma_known_beliefs(beliefs: Seq<Belief>, ids: Seq<u128>)
    requires
        ids.no_duplicates(),
        forall|i: int|
            0 <= i < beliefs.len() ==> (#[trigger] beliefs[i]).memory_type != MemoryType::Working,
    ensures
        are_results(known_beliefs(beliefs, ids)),
        forall|k: int|
            0 <= k < known_beliefs(beliefs, ids).len() ==> ids.contains(
                (#[trigger] known_beliefs(beliefs, ids)[k]).id,
            ),
    decreases ids.len(),
{
    if ids.len() > 0 {
        let shorter = ids.drop_last();
        let before = known_beliefs(beliefs, shorter);
        let all = known_beliefs(beliefs, ids);
        lemma_known_beliefs(beliefs, shorter);
        lemma_position(beliefs, ids.last());
        assert forall|k: int| 0 <= k < all.len() implies ids.contains((#[trigger] all[k]).id) by {
            if k < before.len() {
                assert(all[k] == before[k]);
                let m = choose|m: int| 0 <= m < shorter.len() && shorter[m] == before[k].id;
                assert(ids[m] == all[k].id);
            } else {
                assert(ids[ids.len() - 1] == all[k].id);
            }
        }
        let new_ids = belief_ids(all);
        assert forall|x: int, y: int|
            0 <= x < new_ids.len() && 0 <= y < new_ids.len() && x != y implies new_ids[x]
            != new_ids[y] by {
            let old_ids = belief_ids(before);
            if x < before.len() && y < before.len() {
                assert(old_ids[x] != old_ids[y]);
            } else if x < before.len() {
                let m = choose|m: int| 0 <= m < shorter.len() && shorter[m] == before[x].id;
                assert(ids[m] != ids[ids.len() - 1]);
            } else if y < before.len() {
                let m = choose|m: int| 0 <= m < shorter.len() && shorter[m] == before[y].id;
                assert(ids[m] != ids[ids.len() - 1]);
            }
        }
    }
}

/// Admitting beliefs keeps those found and leaves results.
pub proof fn lemma_admitted(found: Seq<Belief>, offered: Seq<Belief>)
    requires
        are_results(found),
    ensures
        are_results(admitted(found, offered)),
        admitted(found, offered).len() >= found.len(),
        admitted(found, offered).take(found.len() as int) == found,
    decreases offered.len(),
{
    if offered.len() > 0 {
        lemma_admitted(found, offered.drop_last());
        let before = admitted(found, offered.drop_last());
        let all = admitted(found, offered);
        assert(all.take(found.len() as int) =~= found);
        let ids = belief_ids(all);
        if all.len() > before.len() {
            assert(ids =~= belief_ids(before).push(offered.last().id));
        }
    } else {
        assert(found.take(found.len() as int) =~= found);
    }
}

/// The first of some results are results.
proof fn lemma_results_prefix(beliefs: Seq<Belief>, n: int)
    requires
        are_results(beliefs),
        0 <= n <= beliefs.len(),
    ensures
        are_results(beliefs.take(n)),
{
    let head = beliefs.take(n);
    assert forall|x: int, y: int|
        0 <= x < n && 0 <= y < n && x != y implies belief_ids(head)[x] != belief_ids(head)[y] by {
        assert(belief_ids(beliefs)[x] != belief_ids(beliefs)[y]);
    }
}

/// Results in another order are results.
proof fn lemma_sorted_results(beliefs: Seq<Belief>, order: Seq<usize>, keys: Seq<u128>)
    requires
        are_results(beliefs),
        falling_order(order, keys),
        keys.len() == beliefs.len(),
    ensures
        are_results(Seq::new(order.len(), |i: int| beliefs[order[i] as int])),
{
    let sorted = Seq::new(order.len(), |i: int| beliefs[order[i] as int]);
    assert forall|i: int| 0 <= i < sorted.len() implies (#[trigger] sorted[i]).memory_type
        != MemoryType::Working by {
        assert(order[i] < keys.len());
    }
    assert forall|x: int, y: int|
        0 <= x < sorted.len() && 0 <= y < sorted.len() && x != y implies belief_ids(sorted)[x]
        != belief_ids(sorted)[y] by {
        assert(order[x] < keys.len() && order[y] < keys.len());
        if x < y {
            assert(comes_before(keys, order[x] as int, order[y] as int));
        } else {
            assert(comes_before(keys, order[y] as int, order[x] as int));
        }
        assert(belief_ids(beliefs)[order[x] as int] != belief_ids(beliefs)[order[y] as int]);
    }
}

/// There is only one ranking of identifiers by their keys.
pub proof fn law_ranking_is_unique(
    a: Seq<u128>,
    b: Seq<u128>,
    ids: Seq<u128>,
    keys: Seq<u128>,
)
    requires
        ranks(a, ids, keys),
        ranks(b, ids, keys),
    ensures
        a == b,
{
    let x = choose|order: Seq<usize>| #[trigger]
        falling_order(order, keys) && ids.len() == keys.len() && a == Seq::new(
            order.len(),
            |i: int| ids[order[i] as int],
        );
    let y = choose|order: Seq<usize>| #[trigger]
        falling_order(order, keys) && ids.len() == keys.len() && b == Seq::new(
            order.len(),
            |i: int| ids[order[i] as int],
        );
    lemma_falling_order_unique(x, y, keys);
}

/// The same beliefs, rankings, limit and preference give the same answer.
pub proof fn law_answer_is_unique(
    a: Seq<Belief>,
    b: Seq<Belief>,
    found: Seq<Belief>,
    vector_ranked: Seq<u128>,
    token_ranked: Seq<u128>,
    limit: usize,
    prefer_type: Option<MemoryType>,
)
    requires
        is_answer(a, found, vector_ranked, token_ranked, limit, prefer_type),
        is_answer(b, found, vector_ranked, token_ranked, limit, prefer_type),
    ensures
        a == b,
{
    let types = type_ranking(found, prefer_type);
    let (p1, s1, o1): (Seq<u128>, Seq<u128>, Seq<usize>) = choose|
        prior: Seq<u128>,
        scores: Seq<u128>,
        order: Seq<usize>,
    |
        #![trigger is_prior_ranking(prior, found), falling_order(order, scores)]
        {
            &&& is_prior_ranking(prior, found)
            &&& are_scores(scores, found, vector_ranked, token_ranked, prior, types)
            &&& falling_order(order, scores)
            &&& a == shortened(Seq::new(order.len(), |i: int| found[order[i] as int]), limit)
        };
    let (p2, s2, o2): (Seq<u128>, Seq<u128>, Seq<usize>) = choose|
        prior: Seq<u128>,
        scores: Seq<u128>,
        order: Seq<usize>,
    |
        #![trigger is_prior_ranking(prior, found), falling_order(order, scores)]
        {
            &&& is_prior_ranking(prior, found)
            &&& are_scores(scores, found, vector_ranked, token_ranked, prior, types)
            &&& falling_order(order, scores)
            &&& b == shortened(Seq::new(order.len(), |i: int| found[order[i] as int]), limit)
        };
    law_ranking_is_unique(
        p1,
        p2,
        belief_ids(found),
        Seq::new(found.len(), |i: int| found[i].probability.key() as u128),
    );
    assert forall|i: int| 0 <= i < s1.len() implies s1[i] == s2[i] by {
        let x = s1[i] as u32;
        let y = s2[i] as u32;
        if x < y {
            lemma_single_order(x, y);
        } else if y < x {
            lemma_single_order(y, x);
        }
    }
    assert(s1 =~= s2);
    lemma_falling_order_unique(o1, o2, s1);
}

/// Where no type is preferred, types have no influence on the relevance.
pub proof fn law_no_preference_no_influence(
    id: u128,
    vector_ranked: Seq<u128>,
    token_ranked: Seq<u128>,
    prior_ranked: Seq<u128>,
    found: Seq<Belief>,
)
    ensures
        relevance(id, vector_ranked, token_ranked, prior_ranked, type_ranking(found, None))
            == list_score(
            prior_ranked,
            single_units(PRIOR_WEIGHT),
            id,
            list_score(
                token_ranked,
                single_units(TOKEN_WEIGHT),
                id,
                list_score(vector_ranked, single_units(VECTOR_WEIGHT), id, 0),
            ),
        ),
{
}

/// What holds of all beliefs given holds of those that a search starts from:
/// a search over the beliefs of a project starts within the project.
pub proof fn law_starts_stay_in_scope(
    beliefs: Seq<Belief>,
    ids: Seq<u128>,
    in_scope: spec_fn(Belief) -> bool,
)
    requires
        forall|i: int| 0 <= i < beliefs.len() ==> in_scope(#[trigger] beliefs[i]),
    ensures
        forall|i: int|
            0 <= i < known_beliefs(retrievable(beliefs), ids).len() ==> in_scope(
                #[trigger] known_beliefs(retrievable(beliefs), ids)[i],
            ),
    decreases ids.len(),
{
    lemma_retrievable_scope(beliefs, in_scope);
    if ids.len() > 0 {
        law_starts_stay_in_scope(beliefs, ids.drop_last(), in_scope);
        lemma_position(retrievable(beliefs), ids.last());
        let before = known_beliefs(retrievable(beliefs), ids.drop_last());
        let all = known_beliefs(retrievable(beliefs), ids);
        assert forall|i: int| 0 <= i < all.len() implies in_scope(#[trigger] all[i]) by {
            if i < before.len() {
                assert(all[i] == before[i]);
            }
        }
    }
}

proof fn lemma_retrievable_scope(beliefs: Seq<Belief>, in_scope: spec_fn(Belief) -> bool)
    requires
        forall|i: int| 0 <= i < beliefs.len() ==> in_scope(#[trigger] beliefs[i]),
    ensures
        forall|i: int|
            0 <= i < retrievable(beliefs).len() ==> in_scope(#[trigger] retrievable(beliefs)[i]),
    decreases beliefs.len(),
{
    if beliefs.len() > 0 {
        assert(in_scope(beliefs[beliefs.len() - 1]));
        assert forall|i: int| 0 <= i < beliefs.drop_last().len() implies in_scope(
            #[trigger] beliefs.drop_last()[i],
        ) by {
            assert(in_scope(beliefs[i]));
        }
        lemma_retrievable_scope(beliefs.drop_last(), in_scope);
        let before = retrievable(beliefs.drop_last());
        let all = retrievable(beliefs);
        assert forall|i: int| 0 <= i < all.len() implies in_scope(#[trigger] all[i]) by {
            if i < before.len() {
                assert(all[i] == before[i]);
            }
        }
    }
}

/// What holds of the beliefs found and of all that are offered holds of those
/// found afterwards: a search that is offered only beliefs of a project stays
/// within the project.
pub proof fn law_expansion_stays_in_scope(
    found: Seq<Belief>,
    offered: Seq<Belief>,
    in_scope: spec_fn(Belief) -> bool,
)
    requires
        forall|i: int| 0 <= i < found.len() ==> in_scope(#[trigger] found[i]),
        forall|i: int| 0 <= i < offered.len() ==> in_scope(#[trigger] offered[i]),
    ensures
        forall|i: int|
            0 <= i < admitted(found, offered).len() ==> in_scope(
                #[trigger] admitted(found, offered)[i],
            ),
    decreases offered.len(),
{
    if offered.len() > 0 {
        assert(in_scope(offered[offered.len() - 1]));
        assert forall|i: int| 0 <= i < offered.drop_last().len() implies in_scope(
            #[trigger] offered.drop_last()[i],
        ) by {
            assert(in_scope(offered[i]));
        }
        law_expansion_stays_in_scope(found, offered.drop_last(), in_scope);
        let before = admitted(found, offered.drop_last());
        let all = admitted(found, offered);
        assert forall|i: int| 0 <= i < all.len() implies in_scope(#[trigger] all[i]) by {
            if i < before.len() {
                assert(all[i] == before[i]);
            }
        }
    }
}

/// Every offered belief that is not working memory is found afterwards, by its
/// identifier.
pub proof fn law_expansion_misses_nothing(found: Seq<Belief>, offered: Seq<Belief>, i: int)
    requires
        0 <= i < offered.len(),
        offered[i].memory_type != MemoryType::Working,
    ensures
        belief_ids(admitted(found, offered)).contains(offered[i].id),
    decreases offered.len(),
{
    let before = admitted(found, offered.drop_last());
    let all = admitted(found, offered);
    if i == offered.len() - 1 {
        if !belief_ids(before).contains(offered[i].id) {
            assert(belief_ids(all)[all.len() - 1] == offered[i].id);
        }
    } else {
        law_expansion_misses_nothing(found, offered.drop_last(), i);
        let k = choose|k: int|
            0 <= k < belief_ids(before).len() && belief_ids(before)[k] == offered[i].id;
        assert(belief_ids(all)[k] == offered[i].id);
    }
}

/// The weights of the four rankings are the single-precision numbers nearest to
/// 1, 3/10, 1/10 and 1/2.
pub proof fn law_weights_of_the_rankings()
    ensures
        single_units(VECTOR_WEIGHT) == pow2(149),
        single_units(TOKEN_WEIGHT) == round_to_precision(24, 3 * pow2(149), 10),
        single_units(PRIOR_WEIGHT) == round_to_precision(24, pow2(149), 10),
        2 * single_units(TYPE_WEIGHT) == pow2(149),
{
    lemma2_to64();
    lemma_pow2_adds(23, 126);
    assert(0x3F80_0000nat / 0x0080_0000 == 127 && 0x3F80_0000nat % 0x0080_0000 == 0);
    assert(0x3F00_0000nat / 0x0080_0000 == 126 && 0x3F00_0000nat % 0x0080_0000 == 0);
    lemma_pow2_adds(23, 125);
    lemma_pow2_unfold(149);
    assert(0x3E99_999Anat / 0x0080_0000 == 125);
    let token: nat = 0x0080_0000 + 0x3E99_999Anat % 0x0080_0000;
    assert(token == 10066330);
    lemma_single_nearest(3, 10, 25, token);
    assert(0x3DCC_CCCDnat / 0x0080_0000 == 123);
    let prior: nat = 0x0080_0000 + 0x3DCC_CCCDnat % 0x0080_0000;
    assert(prior == 13421773);
    lemma_single_nearest(1, 10, 27, prior);
}

/// The single-precision number nearest to the fraction `num / den`, in units,
/// where the fraction scaled by `2^j` has 24 bits before the point.
proof fn lemma_single_nearest(num: nat, den: nat, j: nat, m: nat)
    requires
        den > 0,
        j <= 149,
        0x0080_0000 * den <= num * pow2(j) < 0x0100_0000 * den,
        m == nearest_even(num * pow2(j), den),
    ensures
        round_to_precision(24, num * pow2(149), den) == m * pow2((149 - j) as nat),
{
    let f = (149 - j) as nat;
    lemma2_to64();
    lemma_pow2_adds(j, f);
    lemma_pow2_pos(f);
    vstd::arithmetic::mul::lemma_mul_is_associative(num as int, pow2(j) as int, pow2(f) as int);
    let big = num * pow2(j);
    lemma_scaled_length(big, den, 24, f as int);
    assert(den * 1 == den);
    assert(excess_bits(24, num * pow2(149), den) == f);
    lemma_nearest_even_common_factor(big, den, pow2(f));
}

/// An answer holds only beliefs that were found, and without a limit all of them.
pub proof fn law_answers_hold_what_was_found(
    r: Seq<Belief>,
    found: Seq<Belief>,
    vector_ranked: Seq<u128>,
    token_ranked: Seq<u128>,
    limit: usize,
    prefer_type: Option<MemoryType>,
)
    requires
        is_answer(r, found, vector_ranked, token_ranked, limit, prefer_type),
    ensures
        forall|i: int| 0 <= i < r.len() ==> found.contains(#[trigger] r[i]),
        limit == 0 ==> forall|i: int| 0 <= i < found.len() ==> r.contains(#[trigger] found[i]),
{
    let types = type_ranking(found, prefer_type);
    let (prior, scores, order): (Seq<u128>, Seq<u128>, Seq<usize>) = choose|
        prior: Seq<u128>,
        scores: Seq<u128>,
        order: Seq<usize>,
    |
        #![trigger is_prior_ranking(prior, found), falling_order(order, scores)]
        {
            &&& is_prior_ranking(prior, found)
            &&& are_scores(scores, found, vector_ranked, token_ranked, prior, types)
            &&& falling_order(order, scores)
            &&& r == shortened(Seq::new(order.len(), |i: int| found[order[i] as int]), limit)
        };
    let sorted = Seq::new(order.len(), |i: int| found[order[i] as int]);
    assert forall|i: int| 0 <= i < r.len() implies found.contains(#[trigger] r[i]) by {
        assert(order[i] < scores.len());
        assert(r[i] == sorted[i]);
        assert(found[order[i] as int] == r[i]);
    }
    if limit == 0 {
        assert forall|i: int| 0 <= i < found.len() implies r.contains(#[trigger] found[i]) by {
            lemma_order_complete(order, scores, i);
            let k = choose|k: int| 0 <= k < order.len() && #[trigger] order[k] == i;
            assert(r[k] == found[i]);
        }
    }
}

} // verus!
