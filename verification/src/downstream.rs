//! The beliefs downstream of a belief: all that propagating edges lead to, along
//! paths of any length, found by asking for direct neighbours one belief at a time.
use vstd::prelude::*;

use crate::graph::{Belief, Edge, EdgeType};
use crate::inference::contains_id;
use crate::retrieval::{belief_ids, ids_of};

verus! {

/// `id` is reached from `start` along a path of `n + 1` links.
pub open spec fn reached_by(links: spec_fn(u128, u128) -> bool, start: u128, id: u128, n: nat) -> bool
    decreases n,
{
    if n == 0 {
        links(start, id)
    } else {
        exists|mid: u128|
            reached_by(links, start, mid, (n - 1) as nat) && #[trigger] links(mid, id)
    }
}

/// `id` is reached from `start` along a path of one link or more.
pub open spec fn leads_to(links: spec_fn(u128, u128) -> bool, start: u128, id: u128) -> bool {
    exists|n: nat| reached_by(links, start, id, n)
}

/// The links that answers to questions for neighbours tell of.
pub open spec fn told_links(answers: Map<u128, Seq<Belief>>) -> spec_fn(u128, u128) -> bool {
    |from: u128, to: u128| answers.contains_key(from) && belief_ids(answers[from]).contains(to)
}

/// Whether what is known of the source of such an edge bears on its target.
pub open spec fn propagates(t: EdgeType) -> bool {
    t == EdgeType::Supports || t == EdgeType::Causes || t == EdgeType::Defeats
}

/// The links of a graph: its propagating edges, of any of the three types.
pub open spec fn edge_links(edges: Seq<Edge>) -> spec_fn(u128, u128) -> bool {
    |from: u128, to: u128|
        exists|i: int|
            0 <= i < edges.len() && (#[trigger] edges[i]).from_id == from && edges[i].to_id == to
                && propagates(edges[i].edge_type)
}

/// The beliefs found, and those offered that are new and not the start.
pub open spec fn joined(start: u128, found: Seq<Belief>, offered: Seq<Belief>) -> Seq<Belief>
    decreases offered.len(),
{
    if offered.len() == 0 {
        found
    } else {
        let before = joined(start, found, offered.drop_last());
        let b = offered.last();
        if b.id != start && !belief_ids(before).contains(b.id) {
            before.push(b)
        } else {
            before
        }
    }
}

/// No two beliefs share an identifier and none is the start.
pub open spec fn distinct_from(start: u128, beliefs: Seq<Belief>) -> bool {
    belief_ids(beliefs).no_duplicates() && !belief_ids(beliefs).contains(start)
}

/// `beliefs` holds every belief other than the start that the links lead to, each
/// once, and nothing else.
pub open spec fn is_closure(
    beliefs: Seq<Belief>,
    links: spec_fn(u128, u128) -> bool,
    start: u128,
) -> bool {
    &&& distinct_from(start, beliefs)
    &&& forall|id: u128| #[trigger]
        belief_ids(beliefs).contains(id) <==> id != start && leads_to(links, start, id)
}

/// A belief is one of those that some answer held.
pub open spec fn was_told(answers: Map<u128, Seq<Belief>>, b: Belief) -> bool {
    exists|from: u128| #[trigger] answers.contains_key(from) && answers[from].contains(b)
}

/// A walk from a belief to everything downstream of it. The start is asked about
/// first, then each belief found, in the order in which they were found.
pub struct Downstream {
    start: u128,
    found: Vec<Belief>,
    begun: bool,
    asked: usize,
    answers: Ghost<Map<u128, Seq<Belief>>>,
}

impl Downstream {
    #[verifier::type_invariant]
    spec fn is_valid(self) -> bool {
        &&& distinct_from(self.start, self.found@)
        &&& self.asked <= self.found@.len()
        &&& !self.begun ==> self.found@.len() == 0 && self.answers@ == Map::<
            u128,
            Seq<Belief>,
        >::empty()
        &&& forall|id: u128| #[trigger]
            self.answers@.contains_key(id) <==> self.begun && (id == self.start || belief_ids(
                self.found@,
            ).take(self.asked as int).contains(id))
        &&& forall|from: u128, to: u128| #[trigger]
            told_links(self.answers@)(from, to) ==> to == self.start || belief_ids(
                self.found@,
            ).contains(to)
        &&& forall|i: int|
            0 <= i < self.found@.len() ==> leads_to(
                told_links(self.answers@),
                self.start,
                (#[trigger] self.found@[i]).id,
            )
        &&& forall|i: int|
            0 <= i < self.found@.len() ==> was_told(self.answers@, #[trigger] self.found@[i])
    }

    /// The belief that the walk starts from.
    pub closed spec fn origin(self) -> u128 {
        self.start
    }

    /// The beliefs found so far.
    pub closed spec fn results(self) -> Seq<Belief> {
        self.found@
    }

    /// The answers received so far, by the belief that was asked about.
    pub closed spec fn record(self) -> Map<u128, Seq<Belief>> {
        self.answers@
    }

    /// The beliefs that are still to be asked about, the next one first.
    pub closed spec fn pending(self) -> Seq<u128> {
        if self.begun {
            belief_ids(self.found@).skip(self.asked as int)
        } else {
            seq![self.start]
        }
    }

    /// The belief that is asked about next.
    pub open spec fn next_id(self) -> Option<u128> {
        if self.pending().len() > 0 {
            Some(self.pending()[0])
        } else {
            None
        }
    }

    /// A walk from the given belief.
    pub fn from_belief(start: u128) -> (r: Downstream)
        ensures
            r.origin() == start,
            r.results() == Seq::<Belief>::empty(),
            r.record() == Map::<u128, Seq<Belief>>::empty(),
            r.pending() == seq![start],
    {
        Downstream { start, found: Vec::new(), begun: false, asked: 0, answers: Ghost(Map::empty()) }
    }

    /// The belief whose direct neighbours are to be asked for next, or nothing when
    /// all that can be reached has been found. No belief is asked about twice.
    pub fn next(&self) -> (r: Option<u128>)
        ensures
            r == self.next_id(),
            r is Some ==> !self.record().contains_key(r->0),
            r is None ==> is_closure(self.results(), told_links(self.record()), self.origin()),
            r is None ==> forall|id: u128| #[trigger]
                self.record().contains_key(id) <==> id == self.origin() || belief_ids(
                    self.results(),
                ).contains(id),
    {
        proof {
            use_type_invariant(self);
        }
        let ghost ids = belief_ids(self.found@);
        if !self.begun {
            Some(self.start)
        } else if self.asked < self.found.len() {
            proof {
                assert(self.pending()[0] == ids[self.asked as int]);
                if ids.take(self.asked as int).contains(ids[self.asked as int]) {
                    let k = choose|k: int|
                        0 <= k < self.asked && ids.take(self.asked as int)[k]
                            == ids[self.asked as int];
                    assert(ids[k] == ids[self.asked as int]);
                }
            }
            Some(self.found[self.asked].id)
        } else {
            proof {
                assert(ids.take(self.asked as int) =~= ids);
                let links = told_links(self.answers@);
                assert forall|id: u128| #[trigger]
                    ids.contains(id) <==> id != self.start && leads_to(links, self.start, id) by {
                    if ids.contains(id) {
                        let k = choose|k: int| 0 <= k < ids.len() && ids[k] == id;
                        assert(self.found@[k].id == id);
                    }
                    if leads_to(links, self.start, id) {
                        let n = choose|n: nat| reached_by(links, self.start, id, n);
                        lemma_last_link(links, self.start, id, n);
                    }
                }
            }
            None
        }
    }

    /// Takes the direct neighbours of the belief that `next` named.
    pub fn receive(self, neighbours: &[Belief]) -> (r: Downstream)
        requires
            self.next_id() is Some,
        ensures
            is_walk_step(self, neighbours@, r),
    {
        proof {
            use_type_invariant(&self);
        }
        let ghost id = self.next_id()->0;
        let ghost before = self.answers@;
        let ghost after = before.insert(id, neighbours@);
        let grown = join_all(self.start, &self.found, neighbours);
        let asked: usize = if self.asked < self.found.len() {
            self.asked + 1
        } else {
            0
        };
        proof {
            lemma_joined(self.start, self.found@, neighbours@);
            let old_ids = belief_ids(self.found@);
            let ids = belief_ids(grown@);
            let n = self.asked as int;
            assert(ids.take(old_ids.len() as int) =~= old_ids);
            assert(id == if self.begun { old_ids[n] } else { self.start });
            assert(self.begun ==> ids.take(n + 1) =~= old_ids.take(n).push(old_ids[n]));
            assert(ids.take(0).len() == 0);
            assert(!before.contains_key(id)) by {
                if self.begun && old_ids.take(n).contains(id) {
                    let k = choose|k: int| 0 <= k < n && old_ids.take(n)[k] == id;
                    assert(old_ids[k] == old_ids[n]);
                }
                if self.begun {
                    assert(old_ids.contains(id));
                }
            }
            assert forall|x: u128| #[trigger]
                after.contains_key(x) <==> (x == self.start || ids.take(asked as int).contains(
                    x,
                )) by {
                if self.begun {
                    let t = old_ids.take(n);
                    let longer = ids.take(n + 1);
                    if t.contains(x) {
                        let k = choose|k: int| 0 <= k < t.len() && t[k] == x;
                        assert(longer[k] == x);
                    }
                    assert(longer[n] == id);
                    if longer.contains(x) {
                        let k = choose|k: int| 0 <= k < longer.len() && longer[k] == x;
                        if k < n {
                            assert(t[k] == x);
                        }
                    }
                }
                assert(before.contains_key(x) || !before.contains_key(x));
            }
            assert(before.submap_of(after));
            let old_links = told_links(before);
            let links = told_links(after);
            assert forall|from: u128, to: u128| #[trigger] links(from, to) implies to == self.start
                || ids.contains(to) by {
                if from == id {
                    let k = choose|k: int|
                        0 <= k < neighbours@.len() && belief_ids(neighbours@)[k] == to;
                    assert(neighbours@[k].id == to);
                } else {
                    assert(old_links(from, to));
                    if old_ids.contains(to) {
                        let k = choose|k: int| 0 <= k < old_ids.len() && old_ids[k] == to;
                        assert(ids[k] == to);
                    }
                }
            }
            lemma_more_links(old_links, links, self.start);
            assert forall|i: int| 0 <= i < grown@.len() implies leads_to(
                links,
                self.start,
                (#[trigger] grown@[i]).id,
            ) && was_told(after, grown@[i]) by {
                if i < self.found@.len() {
                    assert(grown@.take(self.found@.len() as int)[i] == self.found@[i]);
                    let from = choose|from: u128| #[trigger]
                        before.contains_key(from) && before[from].contains(self.found@[i]);
                    assert(after.contains_key(from) && after[from] == before[from]);
                    assert(leads_to(old_links, self.start, self.found@[i].id));
                } else {
                    assert(neighbours@.contains(grown@[i]));
                    let k = choose|k: int| 0 <= k < neighbours@.len() && neighbours@[k] == grown@[i];
                    assert(belief_ids(neighbours@)[k] == grown@[i].id);
                    assert(links(id, grown@[i].id));
                    assert(after.contains_key(id));
                    if id == self.start {
                        assert(reached_by(links, self.start, grown@[i].id, 0));
                    } else {
                        assert(self.found@[n].id == id);
                        assert(leads_to(links, self.start, id));
                        let m = choose|m: nat| reached_by(links, self.start, id, m);
                        assert(reached_by(links, self.start, grown@[i].id, m + 1));
                    }
                }
            }
            if self.begun {
                assert(ids.skip(n + 1) =~= old_ids.skip(n).drop_first() + ids.skip(
                    old_ids.len() as int,
                ));
            } else {
                assert(ids.skip(0) =~= seq![self.start].drop_first() + ids.skip(0));
            }
        }
        Downstream { start: self.start, found: grown, begun: true, asked, answers: Ghost(after) }
    }

    /// The beliefs found.
    pub fn beliefs(self) -> (r: Vec<Belief>)
        ensures
            r@ == self.results(),
            distinct_from(self.origin(), r@),
            forall|i: int| 0 <= i < r@.len() ==> was_told(self.record(), #[trigger] r@[i]),
    {
        proof {
            use_type_invariant(&self);
        }
        self.found
    }
}

/// `after` is the walk `before` when it has taken the neighbours of the belief
/// that it asked about: those that are new are found, and asked about in turn.
pub open spec fn is_walk_step(before: Downstream, neighbours: Seq<Belief>, after: Downstream) -> bool {
    &&& after.origin() == before.origin()
    &&& after.record() == before.record().insert(before.pending()[0], neighbours)
    &&& after.results() == joined(before.origin(), before.results(), neighbours)
    &&& after.pending() == before.pending().drop_first() + belief_ids(after.results()).skip(
        before.results().len() as int,
    )
}

/// The beliefs found and those offered that are new and not the start.
fn join_all(start: u128, found: &Vec<Belief>, offered: &[Belief]) -> (r: Vec<Belief>)
    ensures
        r@ == joined(start, found@, offered@),
{
    let mut r = crate::retrieval::copy_beliefs(found.as_slice());
    let mut ids = ids_of(&r);
    let n: usize = offered.len();
    let mut i: usize = 0;
    assert(offered@.take(0) =~= Seq::empty());
    while i < n
        invariant
            i <= n,
            n == offered@.len(),
            r@ == joined(start, found@, offered@.take(i as int)),
            ids@ == belief_ids(r@),
        decreases n - i,
    {
        assert(offered@.take(i + 1).drop_last() =~= offered@.take(i as int));
        let b = &offered[i];
        if b.id != start && !contains_id(&ids, b.id) {
            r.push(b.duplicate());
            ids.push(b.id);
            assert(ids@ =~= belief_ids(r@));
        }
        i = i + 1;
    }
    assert(offered@.take(n as int) =~= offered@);
    r
}

/// Joining beliefs keeps those found, and adds only offered ones.
proof fn lemma_joined(start: u128, found: Seq<Belief>, offered: Seq<Belief>)
    requires
        distinct_from(start, found),
    ensures
        distinct_from(start, joined(start, found, offered)),
        joined(start, found, offered).len() >= found.len(),
        joined(start, found, offered).take(found.len() as int) == found,
        forall|i: int|
            found.len() <= i < joined(start, found, offered).len() ==> offered.contains(
                #[trigger] joined(start, found, offered)[i],
            ),
        forall|i: int|
            0 <= i < offered.len() && (#[trigger] offered[i]).id != start ==> belief_ids(
                joined(start, found, offered),
            ).contains(offered[i].id),
    decreases offered.len(),
{
    let all = joined(start, found, offered);
    if offered.len() > 0 {
        let shorter = offered.drop_last();
        lemma_joined(start, found, shorter);
        let before = joined(start, found, shorter);
        assert(all.take(found.len() as int) =~= found);
        if all.len() > before.len() {
            assert(belief_ids(all) =~= belief_ids(before).push(offered.last().id));
        }
        assert forall|i: int| found.len() <= i < all.len() implies offered.contains(
            #[trigger] all[i],
        ) by {
            if i < before.len() {
                assert(before[i] == all[i]);
                let k = choose|k: int| 0 <= k < shorter.len() && shorter[k] == before[i];
                assert(offered[k] == all[i]);
            } else {
                assert(offered[offered.len() - 1] == all[i]);
            }
        }
        assert forall|i: int|
            0 <= i < offered.len() && (#[trigger] offered[i]).id != start implies belief_ids(
            all,
        ).contains(offered[i].id) by {
            if i < shorter.len() {
                assert(shorter[i] == offered[i]);
                let k = choose|k: int|
                    0 <= k < before.len() && belief_ids(before)[k] == offered[i].id;
                assert(belief_ids(all)[k] == offered[i].id);
            } else if all.len() > before.len() {
                assert(belief_ids(all)[before.len() as int] == offered[i].id);
            }
        }
    } else {
        assert(found.take(found.len() as int) =~= found);
    }
}

/// A path ends in a link.
proof fn lemma_last_link(links: spec_fn(u128, u128) -> bool, start: u128, id: u128, n: nat)
    requires
        reached_by(links, start, id, n),
    ensures
        exists|from: u128| #[trigger] links(from, id),
{
    if n > 0 {
        let mid = choose|mid: u128|
            reached_by(links, start, mid, (n - 1) as nat) && #[trigger] links(mid, id);
        assert(links(mid, id));
    } else {
        assert(links(start, id));
    }
}

/// With more links no less is reached.
proof fn lemma_more_links(
    few: spec_fn(u128, u128) -> bool,
    many: spec_fn(u128, u128) -> bool,
    start: u128,
)
    requires
        forall|a: u128, b: u128| #[trigger] few(a, b) ==> many(a, b),
    ensures
        forall|id: u128| #[trigger] leads_to(few, start, id) ==> leads_to(many, start, id),
{
    assert forall|id: u128| #[trigger] leads_to(few, start, id) implies leads_to(
        many,
        start,
        id,
    ) by {
        let n = choose|n: nat| reached_by(few, start, id, n);
        lemma_more_links_by(few, many, start, id, n);
    }
}

proof fn lemma_more_links_by(
    few: spec_fn(u128, u128) -> bool,
    many: spec_fn(u128, u128) -> bool,
    start: u128,
    id: u128,
    n: nat,
)
    requires
        forall|a: u128, b: u128| #[trigger] few(a, b) ==> many(a, b),
        reached_by(few, start, id, n),
    ensures
        reached_by(many, start, id, n),
    decreases n,
{
    if n > 0 {
        let mid = choose|mid: u128|
            reached_by(few, start, mid, (n - 1) as nat) && #[trigger] few(mid, id);
        lemma_more_links_by(few, many, start, mid, (n - 1) as nat);
        assert(reached_by(many, start, mid, (n - 1) as nat) && many(mid, id));
    } else {
        assert(few(start, id));
    }
}

/// Questions that a walk can still ask where `n` beliefs can be found at most.
pub open spec fn walk_questions_left(walk: Downstream, n: nat) -> int {
    walk.pending().len() + n - walk.results().len()
}

/// A walk ends: every step leaves fewer questions, whatever the neighbours are, as
/// long as no more than `n` beliefs are found.
pub proof fn law_walk_ends(before: Downstream, neighbours: Seq<Belief>, after: Downstream, n: nat)
    requires
        before.next_id() is Some,
        distinct_from(before.origin(), before.results()),
        is_walk_step(before, neighbours, after),
        after.results().len() <= n,
    ensures
        0 <= walk_questions_left(after, n) < walk_questions_left(before, n),
{
    lemma_joined(before.origin(), before.results(), neighbours);
}

/// A walk that has ended has found the beliefs downstream of its start: where every
/// answer held the beliefs that the propagating edges of the one asked about lead
/// to, the beliefs found are those that paths of propagating edges lead to, of any
/// length and of any mixture of the three types, each once, without the start.
/// Contradictions are not followed.
pub proof fn law_walk_finds_the_closure(walk: Downstream, edges: Seq<Edge>)
    requires
        is_closure(walk.results(), told_links(walk.record()), walk.origin()),
        forall|id: u128| #[trigger]
            walk.record().contains_key(id) <==> id == walk.origin() || belief_ids(
                walk.results(),
            ).contains(id),
        forall|from: u128, to: u128|
            walk.record().contains_key(from) ==> (#[trigger] told_links(walk.record())(from, to)
                <==> edge_links(edges)(from, to)),
    ensures
        is_closure(walk.results(), edge_links(edges), walk.origin()),
{
    let told = told_links(walk.record());
    let links = edge_links(edges);
    let start = walk.origin();
    assert forall|a: u128, b: u128| #[trigger] told(a, b) implies links(a, b) by {
        assert(walk.record().contains_key(a));
    }
    lemma_more_links(told, links, start);
    assert forall|id: u128| #[trigger] belief_ids(walk.results()).contains(id) <==> id != start
        && leads_to(links, start, id) by {
        if leads_to(links, start, id) {
            let n = choose|n: nat| reached_by(links, start, id, n);
            lemma_told_path(walk, edges, id, n);
            assert(leads_to(told, start, id));
        }
        assert(leads_to(told, start, id) ==> leads_to(links, start, id));
    }
}

/// A path of the graph from the start is a path of what was told.
proof fn lemma_told_path(walk: Downstream, edges: Seq<Edge>, id: u128, n: nat)
    requires
        is_closure(walk.results(), told_links(walk.record()), walk.origin()),
        forall|id: u128| #[trigger]
            walk.record().contains_key(id) <==> id == walk.origin() || belief_ids(
                walk.results(),
            ).contains(id),
        forall|from: u128, to: u128|
            walk.record().contains_key(from) ==> (#[trigger] told_links(walk.record())(from, to)
                <==> edge_links(edges)(from, to)),
        reached_by(edge_links(edges), walk.origin(), id, n),
    ensures
        reached_by(told_links(walk.record()), walk.origin(), id, n),
    decreases n,
{
    let told = told_links(walk.record());
    let links = edge_links(edges);
    let start = walk.origin();
    if n > 0 {
        let mid = choose|mid: u128|
            reached_by(links, start, mid, (n - 1) as nat) && #[trigger] links(mid, id);
        lemma_told_path(walk, edges, mid, (n - 1) as nat);
        assert(leads_to(told, start, mid));
        assert(mid == start || belief_ids(walk.results()).contains(mid));
        assert(walk.record().contains_key(mid));
        assert(told(mid, id));
    } else {
        assert(links(start, id));
        assert(walk.record().contains_key(start));
        assert(told(start, id));
    }
}

} // verus!
