//! Facts on parts of sequences.
use vstd::prelude::*;

verus! {

/// A filtered sequence holds what the sequence holds and the filter admits.
pub proof fn lemma_filter_members<A>(s: Seq<A>, p: spec_fn(A) -> bool, x: A)
    ensures
        s.filter(p).contains(x) <==> s.contains(x) && p(x),
    decreases s.len(),
{
    reveal(Seq::filter);
    if s.len() > 0 {
        let shorter = s.drop_last();
        lemma_filter_members(shorter, p, x);
        let kept = shorter.filter(p);
        if s.contains(x) && p(x) {
            let i = choose|i: int| 0 <= i < s.len() && s[i] == x;
            if i < shorter.len() {
                assert(shorter[i] == x);
                let k = choose|k: int| 0 <= k < kept.len() && kept[k] == x;
                assert(s.filter(p)[k] == x);
            } else {
                assert(s.filter(p)[kept.len() as int] == x);
            }
        }
        if s.filter(p).contains(x) {
            let k = choose|k: int| 0 <= k < s.filter(p).len() && s.filter(p)[k] == x;
            if k < kept.len() {
                assert(kept[k] == x);
                let i = choose|i: int| 0 <= i < shorter.len() && shorter[i] == x;
                assert(s[i] == x);
            } else {
                assert(s[s.len() - 1] == x);
            }
        }
    }
}

/// Filtering twice is filtering by both conditions.
pub proof fn lemma_filter_twice<A>(s: Seq<A>, p: spec_fn(A) -> bool, q: spec_fn(A) -> bool)
    ensures
        s.filter(p).filter(q) == s.filter(|x: A| p(x) && q(x)),
    decreases s.len(),
{
    reveal(Seq::filter);
    let both = |x: A| p(x) && q(x);
    if s.len() > 0 {
        let shorter = s.drop_last();
        lemma_filter_twice(shorter, p, q);
        if p(s.last()) {
            let kept = shorter.filter(p);
            assert(kept.push(s.last()).drop_last() =~= kept);
        }
        assert(s.filter(p).filter(q) =~= s.filter(both));
    } else {
        assert(s.filter(p) =~= s);
        assert(s.filter(p).filter(q) =~= s.filter(both));
    }
}

/// Filters that admit the same items keep the same items.
pub proof fn lemma_filter_same<A>(s: Seq<A>, p: spec_fn(A) -> bool, q: spec_fn(A) -> bool)
    requires
        forall|i: int| 0 <= i < s.len() ==> p(#[trigger] s[i]) == q(s[i]),
    ensures
        s.filter(p) == s.filter(q),
    decreases s.len(),
{
    reveal(Seq::filter);
    if s.len() > 0 {
        let shorter = s.drop_last();
        assert forall|i: int| 0 <= i < shorter.len() implies p(#[trigger] shorter[i]) == q(
            shorter[i],
        ) by {
            assert(shorter[i] == s[i]);
        }
        lemma_filter_same(shorter, p, q);
        assert(s[s.len() - 1] == s.last());
    }
}

/// `x` stands in `s` before `y` does for the first time.
pub open spec fn stands_before<A>(s: Seq<A>, x: A, y: A) -> bool {
    exists|a: int|
        0 <= a < s.len() && #[trigger] s[a] == x && forall|b: int| 0 <= b <= a ==> s[b] != y
}

/// `r` lists the items of `s`, each once, in the order of their first occurrence.
pub open spec fn lists_each_once<A>(r: Seq<A>, s: Seq<A>) -> bool {
    &&& r.no_duplicates()
    &&& forall|x: A| #[trigger] r.contains(x) <==> s.contains(x)
    &&& forall|i: int, j: int|
        #![trigger r[i], r[j]]
        0 <= i < j < r.len() ==> stands_before(s, r[i], r[j])
}

/// One more item is listed at the end, unless it is listed already.
pub proof fn lemma_list_one_more<A>(r: Seq<A>, s: Seq<A>, x: A)
    requires
        lists_each_once(r, s),
    ensures
        r.contains(x) ==> lists_each_once(r, s.push(x)),
        !r.contains(x) ==> lists_each_once(r.push(x), s.push(x)),
{
    let t = s.push(x);
    assert forall|y: A| #[trigger] t.contains(y) <==> s.contains(y) || y == x by {
        if s.contains(y) {
            let i = choose|i: int| 0 <= i < s.len() && s[i] == y;
            assert(t[i] == y);
        }
        assert(t[s.len() as int] == x);
    }
    assert forall|i: int, j: int| 0 <= i < j < r.len() implies stands_before(
        t,
        #[trigger] r[i],
        #[trigger] r[j],
    ) by {
        assert(stands_before(s, r[i], r[j]));
        let a = choose|a: int|
            0 <= a < s.len() && #[trigger] s[a] == r[i] && forall|b: int|
                0 <= b <= a ==> s[b] != r[j];
        assert(t[a] == r[i]);
        assert forall|b: int| 0 <= b <= a implies t[b] != r[j] by {
            assert(s[b] != r[j]);
        }
    }
    if !r.contains(x) {
        let q = r.push(x);
        assert forall|y: A| #[trigger] q.contains(y) <==> t.contains(y) by {
            if r.contains(y) {
                let i = choose|i: int| 0 <= i < r.len() && r[i] == y;
                assert(q[i] == y);
                assert(s.contains(y));
            }
            assert(q[r.len() as int] == x);
            if t.contains(y) && y != x {
                assert(s.contains(y));
                assert(r.contains(y));
            }
        }
        assert(q.no_duplicates());
        assert forall|i: int, j: int| 0 <= i < j < q.len() implies stands_before(
            t,
            #[trigger] q[i],
            #[trigger] q[j],
        ) by {
            if j < r.len() {
                assert(stands_before(t, r[i], r[j]));
            } else {
                assert(r.contains(r[i]));
                assert(s.contains(r[i]));
                let a = choose|a: int| 0 <= a < s.len() && s[a] == r[i];
                assert(t[a] == q[i]);
                assert forall|b: int| 0 <= b <= a implies t[b] != x by {
                    if t[b] == x {
                        assert(s[b] == x);
                        assert(s.contains(x));
                    }
                }
            }
        }
    }
}

/// The positions below `n`, in order.
pub open spec fn positions(n: nat) -> Seq<int> {
    Seq::new(n, |i: int| i)
}

/// One more position is kept at the end, or not at all.
pub proof fn lemma_one_more_position(n: nat, p: spec_fn(int) -> bool)
    ensures
        positions(n + 1).filter(p) == if p(n as int) {
            positions(n).filter(p).push(n as int)
        } else {
            positions(n).filter(p)
        },
{
    reveal(Seq::filter);
    assert(positions(n + 1).drop_last() =~= positions(n));
}

/// What is kept of the positions are those below `n` that the filter admits.
pub proof fn lemma_kept_positions(n: nat, p: spec_fn(int) -> bool, x: int)
    ensures
        positions(n).filter(p).contains(x) <==> 0 <= x < n && p(x),
{
    lemma_filter_members(positions(n), p, x);
    if 0 <= x < n {
        assert(positions(n)[x] == x);
    }
}

} // verus!
