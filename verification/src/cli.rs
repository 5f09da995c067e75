//! What the command line shows, and how its arguments are read.
use vstd::prelude::*;
use vstd::slice::slice_subrange;
use vstd::string::*;

use crate::documents::texts_view;
use crate::graph::{Belief, MemoryType, Pattern};
use crate::ids::{id_text, write_id};
use crate::inference::contains_id;
use crate::retrieval::shortened;
use crate::service::{EvidenceRef, MimirStats};
use crate::sorting::{falling_order, order_falling};
use crate::text::{
    chars_of, decimal, find_char, first_index, optional_text, text_of, trim, trimmed, write_decimal,
};

verus! {

broadcast use vstd::std_specs::hash::group_hash_axioms;

/// A text without white space at its ends, shortened to `max` characters; the
/// last one of a shortened text is an ellipsis.
pub open spec fn truncated(s: Seq<char>, max: int) -> Seq<char> {
    let t = trimmed(s);
    if t.len() <= max {
        t
    } else {
        t.take(max - 1).push('\u{2026}')
    }
}

/// Shortens a text.
pub fn trunc(s: &str, max: usize) -> (r: String)
    requires
        max > 0 || trimmed(s@).len() == 0,
    ensures
        r@ == truncated(s@, max as int),
        r@.len() <= max,
{
    let cs = chars_of(s);
    let t = trim(cs.as_slice());
    if t.len() <= max {
        text_of(t)
    } else {
        let head = slice_subrange(t, 0, max - 1);
        let mut r = text_of(head);
        assert(head@ =~= t@.take(max - 1));
        r.push('\u{2026}');
        r
    }
}

/// Splits an argument of the form KEY=VALUE at its first equals sign; the key
/// is not empty.
pub fn parse_kv(s: &str) -> (r: Result<(String, String), String>)
    ensures
        ({
            let i = first_index(s@, '=');
            match r {
                Ok(pair) => {
                    &&& 0 < i < s@.len()
                    &&& pair.0@ == s@.take(i)
                    &&& pair.1@ == s@.skip(i + 1)
                    &&& s@ == pair.0@ + seq!['='] + pair.1@
                    &&& !pair.0@.contains('=')
                },
                Err(message) => {
                    &&& i == 0 || i >= s@.len()
                    &&& message@ == "expected KEY=VALUE, got `"@ + s@ + "`"@
                },
            }
        }),
{
    let cs = chars_of(s);
    let n: usize = cs.len();
    let i: usize = find_char(cs.as_slice(), '=');
    if i > 0 && i < n {
        let key = slice_subrange(cs.as_slice(), 0, i);
        let value = slice_subrange(cs.as_slice(), i + 1, n);
        assert(key@ =~= s@.take(i as int));
        assert(value@ =~= s@.skip(i + 1));
        assert(s@ =~= key@ + seq!['='] + value@);
        Ok((text_of(key), text_of(value)))
    } else {
        let mut message: String = "expected KEY=VALUE, got `".to_owned();
        message.append(s);
        message.append("`");
        Err(message)
    }
}

/// How the count of contradicting edges is shown: with the number of pairs, or
/// with a warning where it is odd.
pub open spec fn contradicts_text(n: nat) -> Seq<char> {
    if n % 2 != 0 {
        decimal(n) + " (odd \u{2014} graph may be inconsistent)"@
    } else {
        decimal(n) + " ("@ + decimal(n / 2) + " pairs)"@
    }
}

/// How the count of contradicting edges is shown.
pub fn contradicts_note(stats: &MimirStats) -> (r: String)
    ensures
        r@ == contradicts_text(stats.contradicts as nat),
{
    let mut r = write_decimal(stats.contradicts as u64);
    if stats.contradicts % 2 != 0 {
        r.append(" (odd \u{2014} graph may be inconsistent)");
    } else {
        let pairs = write_decimal((stats.contradicts / 2) as u64);
        r.append(" (");
        r.append(pairs.as_str());
        r.append(" pairs)");
    }
    r
}

/// How a project is shown behind a belief.
pub open spec fn project_note(project: Option<Seq<char>>) -> Seq<char> {
    match project {
        Some(p) => "  ["@ + p + "]"@,
        None => ""@,
    }
}

fn write_project_note(project: &Option<String>) -> (r: String)
    ensures
        r@ == project_note(optional_text(*project)),
{
    match project {
        Some(p) => {
            let mut r: String = "  [".to_owned();
            r.append(p.as_str());
            r.append("]");
            r
        },
        None => "".to_owned(),
    }
}

/// How a memory type is shown behind a belief; facts are not marked.
pub open spec fn type_note(t: MemoryType) -> Seq<char> {
    if t == MemoryType::Fact {
        ""@
    } else {
        "  <"@ + t.name() + ">"@
    }
}

fn write_type_note(t: MemoryType) -> (r: String)
    ensures
        r@ == type_note(t),
{
    if t == MemoryType::Fact {
        "".to_owned()
    } else {
        let mut r: String = "  <".to_owned();
        r.append(t.as_str());
        r.append(">");
        r
    }
}

/// The beginning of the line of a belief: its identifier and its numbers, which
/// are given as texts.
pub open spec fn belief_head(id: u128, probability: Seq<char>, confidence: Seq<char>) -> Seq<char> {
    id_text(id) + "  p="@ + probability + "  c="@ + confidence + "  "@
}

fn write_belief_head(id: u128, probability: &str, confidence: &str) -> (r: String)
    ensures
        r@ == belief_head(id, probability@, confidence@),
{
    let mut r = write_id(id);
    r.append("  p=");
    r.append(probability);
    r.append("  c=");
    r.append(confidence);
    r.append("  ");
    r
}

/// The line of a belief in a listing: with its type.
pub fn listed_belief(belief: &Belief, probability: &str, confidence: &str) -> (r: String)
    ensures
        r@ == belief_head(belief.id, probability@, confidence@) + truncated(belief.content@, 70)
            + type_note(belief.memory_type) + project_note(optional_text(belief.project)),
{
    let mut r = write_belief_head(belief.id, probability, confidence);
    let content = trunc(belief.content.as_str(), 70);
    let kind = write_type_note(belief.memory_type);
    let project = write_project_note(&belief.project);
    r.append(content.as_str());
    r.append(kind.as_str());
    r.append(project.as_str());
    r
}

/// The line of a belief that was found, with its content shortened to `width`.
pub fn found_belief(belief: &Belief, probability: &str, confidence: &str, width: usize) -> (r:
    String)
    requires
        width > 0,
    ensures
        r@ == belief_head(belief.id, probability@, confidence@) + truncated(
            belief.content@,
            width as int,
        ) + project_note(optional_text(belief.project)),
{
    let mut r = write_belief_head(belief.id, probability, confidence);
    let content = trunc(belief.content.as_str(), width);
    let project = write_project_note(&belief.project);
    r.append(content.as_str());
    r.append(project.as_str());
    r
}

/// The line of a belief with its whole content.
pub fn whole_belief(belief: &Belief, probability: &str, confidence: &str) -> (r: String)
    ensures
        r@ == belief_head(belief.id, probability@, confidence@) + belief.content@ + project_note(
            optional_text(belief.project),
        ),
{
    let mut r = write_belief_head(belief.id, probability, confidence);
    let project = write_project_note(&belief.project);
    r.append(belief.content.as_str());
    r.append(project.as_str());
    r
}

/// The line of a pattern.
pub fn listed_pattern(pattern: &Pattern, rate: &str) -> (r: String)
    ensures
        r@ == id_text(pattern.id) + "  rate="@ + rate@ + "  ["@ + truncated(pattern.situation@, 40)
            + "] \u{2192} ["@ + truncated(pattern.approach@, 40) + "]"@,
{
    let mut r = write_id(pattern.id);
    let situation = trunc(pattern.situation.as_str(), 40);
    let approach = trunc(pattern.approach.as_str(), 40);
    r.append("  rate=");
    r.append(rate);
    r.append("  [");
    r.append(situation.as_str());
    r.append("] \u{2192} [");
    r.append(approach.as_str());
    r.append("]");
    r
}

/// Texts with a separator between them.
pub open spec fn joined_with(texts: Seq<Seq<char>>, separator: Seq<char>) -> Seq<char>
    decreases texts.len(),
{
    if texts.len() == 0 {
        Seq::empty()
    } else if texts.len() == 1 {
        texts[0]
    } else {
        joined_with(texts.drop_last(), separator) + separator + texts.last()
    }
}

fn join_texts(texts: &Vec<String>, separator: &str) -> (r: String)
    ensures
        r@ == joined_with(texts_view(texts@), separator@),
{
    let n: usize = texts.len();
    let mut r: String = String::new();
    let mut i: usize = 0;
    let ghost model = texts_view(texts@);
    while i < n
        invariant
            i <= n,
            n == texts@.len(),
            model == texts_view(texts@),
            r@ == joined_with(model.take(i as int), separator@),
        decreases n - i,
    {
        assert(model.take(i + 1).drop_last() =~= model.take(i as int));
        if i == 0 {
            r = texts[0].clone();
        } else {
            r.append(separator);
            r.append(texts[i].as_str());
        }
        i = i + 1;
    }
    assert(model.take(n as int) =~= model);
    r
}

/// How the place of a passage in its document is shown.
pub open spec fn section_note(section_path: Seq<Seq<char>>, lead: Seq<char>) -> Seq<char> {
    if section_path.len() == 0 {
        ""@
    } else {
        lead + joined_with(section_path, " > "@)
    }
}

/// How the place of a passage in its document is shown, after `lead`.
pub fn write_section_note(section_path: &Vec<String>, lead: &str) -> (r: String)
    ensures
        r@ == section_note(texts_view(section_path@), lead@),
{
    if section_path.len() == 0 {
        "".to_owned()
    } else {
        let path = join_texts(section_path, " > ");
        let mut r: String = lead.to_owned();
        r.append(path.as_str());
        r
    }
}

/// The line of a passage below the belief that it grounds.
pub fn grounding_line(e: &EvidenceRef, weight: &str) -> (r: String)
    ensures
        r@ == "    \u{21b3} w="@ + weight@ + "  "@ + e.document_path@ + section_note(
            texts_view(e.section_path@),
            " \u{a7} "@,
        ),
{
    let section = write_section_note(&e.section_path, " \u{a7} ");
    let mut r: String = "    \u{21b3} w=".to_owned();
    r.append(weight);
    r.append("  ");
    r.append(e.document_path.as_str());
    r.append(section.as_str());
    r
}

/// The line of a passage in a listing of evidence.
pub fn evidence_line(e: &EvidenceRef, weight: &str) -> (r: String)
    ensures
        r@ == id_text(e.chunk_id) + "  w="@ + weight@ + "  "@ + e.document_path@ + section_note(
            texts_view(e.section_path@),
            " \u{a7} "@,
        ),
{
    let section = write_section_note(&e.section_path, " \u{a7} ");
    let mut r = write_id(e.chunk_id);
    r.append("  w=");
    r.append(weight);
    r.append("  ");
    r.append(e.document_path.as_str());
    r.append(section.as_str());
    r
}

/// The keys by which beliefs are ordered by probability.
pub open spec fn probability_keys(beliefs: Seq<Belief>) -> Seq<u128> {
    Seq::new(beliefs.len(), |i: int| beliefs[i].probability.key() as u128)
}

/// The keys by which patterns are ordered by success rate.
pub open spec fn rate_keys(patterns: Seq<Pattern>) -> Seq<u128> {
    Seq::new(patterns.len(), |i: int| patterns[i].success_rate.key() as u128)
}

/// `r` holds the beliefs by falling probability, equal ones in their given
/// order, shortened to the limit.
pub open spec fn are_most_probable(r: Seq<Belief>, beliefs: Seq<Belief>, limit: usize) -> bool {
    exists|order: Seq<usize>| #[trigger]
        falling_order(order, probability_keys(beliefs)) && r == shortened(Seq::new(order.len(), |i: int| beliefs[order[i] as int]), limit)
}

/// The most probable beliefs; all of them where the limit is zero.
pub fn most_probable(beliefs: &Vec<Belief>, limit: usize) -> (r: Vec<Belief>)
    ensures
        are_most_probable(r@, beliefs@, limit),
{
    let n: usize = beliefs.len();
    let mut keys: Vec<u128> = Vec::new();
    let mut i: usize = 0;
    let ghost model = probability_keys(beliefs@);
    while i < n
        invariant
            i <= n,
            n == beliefs@.len(),
            model == probability_keys(beliefs@),
            keys@ == model.take(i as int),
        decreases n - i,
    {
        keys.push(beliefs[i].probability.value().bits as u128);
        i = i + 1;
        assert(keys@ =~= model.take(i as int));
    }
    assert(model.take(n as int) =~= model);
    let order = order_falling(&keys);
    let count: usize = if 0 < limit && limit < n {
        limit
    } else {
        n
    };
    let ghost sorted = Seq::new(order@.len(), |k: int| beliefs@[order@[k] as int]);
    let mut r: Vec<Belief> = Vec::new();
    let mut j: usize = 0;
    while j < count
        invariant
            j <= count <= n,
            n == beliefs@.len(),
            n == order@.len(),
            falling_order(order@, keys@),
            keys@.len() == n,
            sorted == Seq::new(order@.len(), |k: int| beliefs@[order@[k] as int]),
            r@ == sorted.take(j as int),
        decreases count - j,
    {
        r.push(beliefs[order[j]].duplicate());
        j = j + 1;
        assert(r@ =~= sorted.take(j as int));
    }
    assert(sorted.take(n as int) =~= sorted);
    r
}

/// `r` holds the positions of the patterns by falling success rate, equal ones
/// in their given order, shortened to the limit.
pub open spec fn are_most_successful(
    r: Seq<usize>,
    patterns: Seq<Pattern>,
    limit: usize,
) -> bool {
    exists|order: Seq<usize>| #[trigger]
        falling_order(order, rate_keys(patterns)) && r == if 0 < limit && limit < order.len() {
            order.take(limit as int)
        } else {
            order
        }
}

/// The positions of the most successful patterns; all where the limit is zero.
pub fn most_successful(patterns: &Vec<Pattern>, limit: usize) -> (r: Vec<usize>)
    ensures
        are_most_successful(r@, patterns@, limit),
{
    let n: usize = patterns.len();
    let mut keys: Vec<u128> = Vec::new();
    let mut i: usize = 0;
    let ghost model = rate_keys(patterns@);
    while i < n
        invariant
            i <= n,
            n == patterns@.len(),
            model == rate_keys(patterns@),
            keys@ == model.take(i as int),
        decreases n - i,
    {
        keys.push(patterns[i].success_rate.value().bits as u128);
        i = i + 1;
        assert(keys@ =~= model.take(i as int));
    }
    assert(model.take(n as int) =~= model);
    let mut order = order_falling(&keys);
    let ghost full = order@;
    if 0 < limit && limit < n {
        order.truncate(limit);
        assert(order@ =~= full.take(limit as int));
    }
    assert(falling_order(full, model));
    order
}

/// A pair with its smaller identifier first. The texts of identifiers are
/// ordered as the identifiers are.
pub open spec fn ordered_pair(p: (u128, u128)) -> (u128, u128) {
    if p.0 < p.1 {
        p
    } else {
        (p.1, p.0)
    }
}

/// The pairs regardless of their direction, each once, in the order of their
/// first occurrence.
pub open spec fn undirected(pairs: Seq<(u128, u128)>) -> Seq<(u128, u128)>
    decreases pairs.len(),
{
    if pairs.len() == 0 {
        Seq::empty()
    } else {
        let before = undirected(pairs.drop_last());
        let p = ordered_pair(pairs.last());
        if before.contains(p) {
            before
        } else {
            before.push(p)
        }
    }
}

/// The pairs regardless of their direction, each once.
pub fn distinct_pairs(pairs: &[(u128, u128)]) -> (r: Vec<(u128, u128)>)
    ensures
        r@ == undirected(pairs@),
{
    let mut r: Vec<(u128, u128)> = Vec::new();
    let n: usize = pairs.len();
    let mut i: usize = 0;
    assert(pairs@.take(0) =~= Seq::empty());
    while i < n
        invariant
            i <= n,
            n == pairs@.len(),
            r@ == undirected(pairs@.take(i as int)),
        decreases n - i,
    {
        assert(pairs@.take(i + 1).drop_last() =~= pairs@.take(i as int));
        let (a, b) = pairs[i];
        let p: (u128, u128) = if a < b {
            (a, b)
        } else {
            (b, a)
        };
        let m: usize = r.len();
        let mut seen: bool = false;
        let mut k: usize = 0;
        while k < m && !seen
            invariant
                k <= m,
                m == r@.len(),
                seen ==> r@.contains(p),
                !seen ==> forall|j: int| 0 <= j < k ==> r@[j] != p,
            decreases m - k,
        {
            if r[k].0 == p.0 && r[k].1 == p.1 {
                seen = true;
                assert(r@[k as int] == p);
            }
            k = k + 1;
        }
        if !seen {
            r.push(p);
        }
        i = i + 1;
    }
    assert(pairs@.take(n as int) =~= pairs@);
    r
}

/// A pair and its reverse are shown once.
pub proof fn law_direction_is_irrelevant(a: u128, b: u128)
    ensures
        ordered_pair((a, b)) == ordered_pair((b, a)),
{
}

/// The beliefs that have no embedding yet.
pub open spec fn without_embedding(beliefs: Seq<Belief>, embedded: Seq<u128>) -> Seq<Belief>
    decreases beliefs.len(),
{
    if beliefs.len() == 0 {
        Seq::empty()
    } else {
        let before = without_embedding(beliefs.drop_last(), embedded);
        if embedded.contains(beliefs.last().id) {
            before
        } else {
            before.push(beliefs.last())
        }
    }
}

/// The beliefs that are still to be embedded.
pub fn pending_embeddings(beliefs: &Vec<Belief>, embedded: &Vec<u128>) -> (r: Vec<Belief>)
    ensures
        r@ == without_embedding(beliefs@, embedded@),
{
    let mut r: Vec<Belief> = Vec::new();
    let n: usize = beliefs.len();
    let mut i: usize = 0;
    assert(beliefs@.take(0) =~= Seq::empty());
    while i < n
        invariant
            i <= n,
            n == beliefs@.len(),
            r@ == without_embedding(beliefs@.take(i as int), embedded@),
        decreases n - i,
    {
        assert(beliefs@.take(i + 1).drop_last() =~= beliefs@.take(i as int));
        if !contains_id(embedded, beliefs[i].id) {
            r.push(beliefs[i].duplicate());
        }
        i = i + 1;
    }
    assert(beliefs@.take(n as int) =~= beliefs@);
    r
}

/// Once every belief is embedded, nothing is left to be embedded: embedding
/// again does nothing.
pub proof fn law_embedding_again_does_nothing(beliefs: Seq<Belief>, embedded: Seq<u128>)
    requires
        forall|i: int| 0 <= i < beliefs.len() ==> embedded.contains((#[trigger] beliefs[i]).id),
    ensures
        without_embedding(beliefs, embedded).len() == 0,
    decreases beliefs.len(),
{
    if beliefs.len() > 0 {
        assert(embedded.contains(beliefs[beliefs.len() - 1].id));
        assert forall|i: int| 0 <= i < beliefs.drop_last().len() implies embedded.contains(
            (#[trigger] beliefs.drop_last()[i]).id,
        ) by {
            assert(embedded.contains(beliefs[i].id));
        }
        law_embedding_again_does_nothing(beliefs.drop_last(), embedded);
    }
}

/// What is said after embedding.
pub fn embedding_summary(embedded: usize, skipped: usize) -> (r: String)
    ensures
        r@ == "\nembedded "@ + decimal(embedded as nat) + " belief"@ + (if embedded == 1 {
            ""@
        } else {
            "s"@
        }) + "; skipped "@ + decimal(skipped as nat) + " that already had vectors."@,
{
    let first = write_decimal(embedded as u64);
    let second = write_decimal(skipped as u64);
    let mut r: String = "\nembedded ".to_owned();
    r.append(first.as_str());
    r.append(" belief");
    r.append(
        if embedded == 1 {
            ""
        } else {
            "s"
        },
    );
    r.append("; skipped ");
    r.append(second.as_str());
    r.append(" that already had vectors.");
    r
}

} // verus!
