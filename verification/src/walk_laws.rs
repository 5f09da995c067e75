//! What a walk along the edges of the graph finds.
use vstd::prelude::*;

use crate::downstream::{
    edge_links, is_closure, is_walk_step, joined, leads_to, propagates, reached_by, told_links,
    was_told, Downstream,
};
use crate::graph::{Belief, Edge, EdgeType};
use crate::retrieval::belief_ids;
use crate::sequences::{lemma_list_one_more, lists_each_once};

verus! {

/// Support, causes and defeats are followed; contradictions are not.
pub proof fn law_all_but_contradictions_are_followed(t: EdgeType)
    ensures
        propagates(t) <==> t != EdgeType::Contradicts,
{
}

/// Two beliefs are linked exactly when an edge other than a contradiction leads from the
/// one to the other, whatever its weight.
pub proof fn law_edges_link_their_ends(edges: Seq<Edge>, from: u128, to: u128)
    ensures
        edge_links(edges)(from, to) <==> edges.filter(
            |e: Edge| e.edge_type != EdgeType::Contradicts && e.from_id == from && e.to_id == to,
        ).len() > 0,
{
    let p = |e: Edge|
        e.edge_type != EdgeType::Contradicts && e.from_id == from && e.to_id == to;
    let kept = edges.filter(p);
    if edge_links(edges)(from, to) {
        let i = choose|i: int|
            0 <= i < edges.len() && (#[trigger] edges[i]).from_id == from && edges[i].to_id == to
                && propagates(edges[i].edge_type);
        crate::sequences::lemma_filter_members(edges, p, edges[i]);
        assert(edges.contains(edges[i]));
        assert(kept.contains(edges[i]));
    }
    if kept.len() > 0 {
        crate::sequences::lemma_filter_members(edges, p, kept[0]);
        assert(kept.contains(kept[0]));
        let i = choose|i: int| 0 <= i < edges.len() && edges[i] == kept[0];
        assert(propagates(edges[i].edge_type));
    }
}

/// A path along links from one belief to another.
pub open spec fn is_path(
    links: spec_fn(u128, u128) -> bool,
    path: Seq<u128>,
    start: u128,
    id: u128,
) -> bool {
    &&& path.len() >= 2
    &&& path[0] == start
    &&& path.last() == id
    &&& forall|i: int| 0 <= i < path.len() - 1 ==> links(#[trigger] path[i], path[i + 1])
}

proof fn lemma_path(links: spec_fn(u128, u128) -> bool, start: u128, id: u128, n: nat)
    ensures
        reached_by(links, start, id, n) <==> exists|path: Seq<u128>|
            path.len() == n + 2 && #[trigger] is_path(links, path, start, id),
    decreases n,
{
    if reached_by(links, start, id, n) {
        if n == 0 {
            let path = seq![start, id];
            assert(is_path(links, path, start, id));
        } else {
            let mid = choose|mid: u128|
                reached_by(links, start, mid, (n - 1) as nat) && #[trigger] links(mid, id);
            lemma_path(links, start, mid, (n - 1) as nat);
            let before = choose|path: Seq<u128>|
                path.len() == n + 1 && #[trigger] is_path(links, path, start, mid);
            let path = before.push(id);
            assert forall|i: int| 0 <= i < path.len() - 1 implies links(
                #[trigger] path[i],
                path[i + 1],
            ) by {
                assert(path[i] == before[i]);
                if i < before.len() - 1 {
                    assert(path[i + 1] == before[i + 1]);
                }
            }
            assert(is_path(links, path, start, id));
        }
    }
    if exists|path: Seq<u128>| path.len() == n + 2 && #[trigger] is_path(links, path, start, id) {
        let path = choose|path: Seq<u128>|
            path.len() == n + 2 && #[trigger] is_path(links, path, start, id);
        if n == 0 {
            let k: int = 0;
            assert(links(path[k], path[k + 1]));
        } else {
            let before = path.drop_last();
            let mid = before.last();
            assert forall|i: int| 0 <= i < before.len() - 1 implies links(
                #[trigger] before[i],
                before[i + 1],
            ) by {
                assert(links(path[i], path[i + 1]));
            }
            assert(is_path(links, before, start, mid));
            lemma_path(links, start, mid, (n - 1) as nat);
            let k = path.len() - 2;
            assert(links(path[k], path[k + 1]));
            assert(path[k] == mid && path[k + 1] == id);
        }
    }
}

/// A belief leads to another exactly when there is a path of one link or more between them.
pub proof fn law_paths_lead_to_their_ends(
    links: spec_fn(u128, u128) -> bool,
    start: u128,
    id: u128,
)
    ensures
        leads_to(links, start, id) <==> exists|path: Seq<u128>| #[trigger]
            is_path(links, path, start, id),
{
    if leads_to(links, start, id) {
        let n = choose|n: nat| reached_by(links, start, id, n);
        lemma_path(links, start, id, n);
    }
    if exists|path: Seq<u128>| #[trigger] is_path(links, path, start, id) {
        let path = choose|path: Seq<u128>| #[trigger] is_path(links, path, start, id);
        let n = (path.len() - 2) as nat;
        lemma_path(links, start, id, n);
        assert(reached_by(links, start, id, n));
    }
}

/// Answers tell of a link exactly when the belief was asked about and the other is among
/// its neighbours.
pub proof fn law_answers_tell_of_links(answers: Map<u128, Seq<Belief>>, from: u128, to: u128)
    ensures
        told_links(answers)(from, to) <==> answers.contains_key(from) && exists|i: int|
            0 <= i < answers[from].len() && (#[trigger] answers[from][i]).id == to,
{
    if answers.contains_key(from) {
        let ids = belief_ids(answers[from]);
        if ids.contains(to) {
            let i = choose|i: int| 0 <= i < ids.len() && ids[i] == to;
            assert(answers[from][i].id == to);
        }
        if exists|i: int| 0 <= i < answers[from].len() && (#[trigger] answers[from][i]).id == to {
            let i = choose|i: int|
                0 <= i < answers[from].len() && (#[trigger] answers[from][i]).id == to;
            assert(ids[i] == to);
        }
    }
}

/// A belief was told of exactly when some answer held it.
pub proof fn law_answers_hold_what_was_told(
    answers: Map<u128, Seq<Belief>>,
    from: u128,
    i: int,
    b: Belief,
)
    ensures
        answers.contains_key(from) && 0 <= i < answers[from].len() ==> was_told(
            answers,
            answers[from][i],
        ),
        was_told(answers, b) ==> exists|x: u128, k: int|
            #![trigger answers[x][k]]
            answers.contains_key(x) && 0 <= k < answers[x].len() && answers[x][k] == b,
{
    if answers.contains_key(from) && 0 <= i < answers[from].len() {
        assert(answers[from].contains(answers[from][i]));
    }
    if was_told(answers, b) {
        let x = choose|x: u128| #[trigger] answers.contains_key(x) && answers[x].contains(b);
        let k = choose|k: int| 0 <= k < answers[x].len() && answers[x][k] == b;
        assert(answers[x][k] == b);
    }
}

/// A closure holds a belief exactly when a path leads to it and it is not the start, and
/// holds it once.
pub proof fn law_a_closure_holds_what_paths_lead_to(
    beliefs: Seq<Belief>,
    links: spec_fn(u128, u128) -> bool,
    start: u128,
    id: u128,
)
    requires
        is_closure(beliefs, links, start),
    ensures
        (exists|i: int| 0 <= i < beliefs.len() && (#[trigger] beliefs[i]).id == id) <==> id != start
            && exists|path: Seq<u128>| #[trigger] is_path(links, path, start, id),
        forall|i: int, j: int|
            0 <= i < j < beliefs.len() ==> (#[trigger] beliefs[i]).id != (#[trigger] beliefs[j]).id,
{
    law_paths_lead_to_their_ends(links, start, id);
    let ids = belief_ids(beliefs);
    assert(ids.contains(id) <==> id != start && leads_to(links, start, id));
    if ids.contains(id) {
        let i = choose|i: int| 0 <= i < ids.len() && ids[i] == id;
        assert(beliefs[i].id == id);
    }
    if exists|i: int| 0 <= i < beliefs.len() && (#[trigger] beliefs[i]).id == id {
        let i = choose|i: int| 0 <= i < beliefs.len() && (#[trigger] beliefs[i]).id == id;
        assert(ids[i] == id);
    }
    assert forall|i: int, j: int| 0 <= i < j < beliefs.len() implies (#[trigger] beliefs[i]).id != (
    #[trigger] beliefs[j]).id by {
        assert(ids[i] != ids[j]);
    }
}

/// What is offered to a walk is added behind what it has found: each belief once that is
/// neither the start nor found already, whatever its type and project, in the order in
/// which they are offered.
pub proof fn law_a_walk_adds_what_is_new(start: u128, found: Seq<Belief>, offered: Seq<Belief>)
    ensures
        ({
            let all = joined(start, found, offered);
            let n = found.len() as int;
            &&& all.len() >= found.len()
            &&& all.take(n) == found
            &&& lists_each_once(
                belief_ids(all.skip(n)),
                belief_ids(
                    offered.filter(
                        |b: Belief| b.id != start && !belief_ids(found).contains(b.id),
                    ),
                ),
            )
            &&& forall|i: int| n <= i < all.len() ==> offered.contains(#[trigger] all[i])
        }),
    decreases offered.len(),
{
    reveal(Seq::filter);
    let all = joined(start, found, offered);
    let n = found.len() as int;
    let p = |b: Belief| b.id != start && !belief_ids(found).contains(b.id);
    if offered.len() > 0 {
        let shorter = offered.drop_last();
        let before = joined(start, found, shorter);
        let b = offered.last();
        law_a_walk_adds_what_is_new(start, found, shorter);
        assert(all.take(n) =~= found);
        let old_ids = belief_ids(before.skip(n));
        assert(belief_ids(before).contains(b.id) <==> belief_ids(found).contains(b.id)
            || old_ids.contains(b.id)) by {
            if belief_ids(before).contains(b.id) {
                let k = choose|k: int| 0 <= k < before.len() && belief_ids(before)[k] == b.id;
                if k < n {
                    assert(before.take(n)[k] == found[k]);
                    assert(belief_ids(found)[k] == b.id);
                } else {
                    assert(old_ids[k - n] == b.id);
                }
            }
            if belief_ids(found).contains(b.id) {
                let k = choose|k: int| 0 <= k < n && belief_ids(found)[k] == b.id;
                assert(before.take(n)[k] == found[k]);
                assert(belief_ids(before)[k] == b.id);
            }
            if old_ids.contains(b.id) {
                let k = choose|k: int| 0 <= k < old_ids.len() && old_ids[k] == b.id;
                assert(belief_ids(before)[n + k] == b.id);
            }
        }
        let kept = shorter.filter(p);
        if p(b) {
            lemma_list_one_more(old_ids, belief_ids(kept), b.id);
            assert(belief_ids(kept.push(b)) =~= belief_ids(kept).push(b.id));
            if !old_ids.contains(b.id) {
                assert(belief_ids(all.skip(n)) =~= old_ids.push(b.id));
            }
        }
        assert forall|i: int| n <= i < all.len() implies offered.contains(#[trigger] all[i]) by {
            if i < before.len() {
                assert(all[i] == before[i]);
                assert(shorter.contains(before[i]));
                let k = choose|k: int| 0 <= k < shorter.len() && shorter[k] == before[i];
                assert(offered[k] == all[i]);
            } else {
                assert(offered[offered.len() - 1] == all[i]);
            }
        }
    } else {
        assert(all.take(n) =~= found);
        assert(belief_ids(all.skip(n)) =~= Seq::empty());
        assert(belief_ids(offered.filter(p)) =~= Seq::empty());
    }
}

/// A walk remembers every answer and asks about every belief that it adds, after those that
/// it still has to ask about.
pub proof fn law_a_walk_forgets_no_question(
    before: Downstream,
    neighbours: Seq<Belief>,
    after: Downstream,
)
    requires
        before.next_id() is Some,
        is_walk_step(before, neighbours, after),
    ensures
        after.record().contains_key(before.next_id()->0),
        after.record()[before.next_id()->0] == neighbours,
        forall|id: u128| #[trigger]
            before.record().contains_key(id) && id != before.next_id()->0
                ==> after.record().contains_key(id) && after.record()[id] == before.record()[id],
        forall|i: int|
            1 <= i < before.pending().len() ==> #[trigger] after.pending()[i - 1]
                == before.pending()[i],
        forall|i: int|
            before.results().len() <= i < after.results().len() ==> after.pending().contains(
                (#[trigger] after.results()[i]).id,
            ),
        after.origin() == before.origin(),
{
    law_a_walk_adds_what_is_new(before.origin(), before.results(), neighbours);
    let n = before.results().len() as int;
    let rest = before.pending().drop_first();
    let added = belief_ids(after.results()).skip(n);
    assert(after.pending() == rest + added);
    assert forall|i: int| 1 <= i < before.pending().len() implies #[trigger] after.pending()[i - 1]
        == before.pending()[i] by {
        assert(after.pending()[i - 1] == rest[i - 1]);
    }
    assert forall|i: int| n <= i < after.results().len() implies after.pending().contains(
        (#[trigger] after.results()[i]).id,
    ) by {
        assert(added[i - n] == after.results()[i].id);
        assert(after.pending()[rest.len() + (i - n)] == after.results()[i].id);
    }
}

} // verus!
