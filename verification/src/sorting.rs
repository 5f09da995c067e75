//! Sorting: identifiers in ascending order, and stable orders by falling keys.
use vstd::prelude::*;
use vstd::relations::*;
use vstd::seq_lib::*;

verus! {

/// The identifiers in ascending order.
pub open spec fn ascending(ids: Seq<u128>) -> Seq<u128> {
    ids.sort_by(|a: u128, b: u128| a <= b)
}

proof fn lemma_insert_multiset<A>(s: Seq<A>, i: int, a: A)
    requires
        0 <= i <= s.len(),
    ensures
        s.insert(i, a).to_multiset() =~= s.to_multiset().insert(a),
{
    broadcast use group_to_multiset_ensures;

    let t = s.insert(i, a);
    assert(t.remove(i) =~= s);
    assert(t[i] == a);
    assert(t.contains(a));
    assert(t.remove(i).to_multiset() =~= t.to_multiset().remove(a));
    assert(t.to_multiset().count(a) > 0);
}

/// Sorts identifiers.
pub fn sort_ids(ids: &Vec<u128>) -> (r: Vec<u128>)
    ensures
        r@ == ascending(ids@),
        r@.to_multiset() == ids@.to_multiset(),
        forall|i: int, j: int| 0 <= i < j < r@.len() ==> r@[i] <= r@[j],
{
    let mut r: Vec<u128> = Vec::new();
    let n: usize = ids.len();
    let mut i: usize = 0;
    assert(r@.to_multiset() =~= ids@.take(0).to_multiset()) by {
        assert(r@ =~= ids@.take(0));
    }
    while i < n
        invariant
            i <= n,
            n == ids@.len(),
            r@.len() == i,
            forall|a: int, b: int| 0 <= a < b < r@.len() ==> r@[a] <= r@[b],
            r@.to_multiset() =~= ids@.take(i as int).to_multiset(),
        decreases n - i,
    {
        let id: u128 = ids[i];
        let mut at: usize = r.len();
        while at > 0 && r[at - 1] > id
            invariant
                at <= r@.len(),
                forall|b: int| at <= b < r@.len() ==> r@[b] > id,
            decreases at,
        {
            at = at - 1;
        }
        let ghost before = r@;
        r.insert(at, id);
        proof {
            lemma_insert_multiset(before, at as int, id);
            assert(ids@.take(i + 1) =~= ids@.take(i as int).push(id));
            broadcast use group_to_multiset_ensures;

            assert forall|a: int, b: int| 0 <= a < b < r@.len() implies r@[a] <= r@[b] by {
                if a == at {
                    assert(r@[b] == before[b - 1]);
                } else if b == at {
                    assert(r@[a] == before[a]);
                    if a < at - 1 {
                        assert(before[a] <= before[at - 1]);
                    }
                } else {
                    let x = if a < at {
                        a
                    } else {
                        a - 1
                    };
                    let y = if b < at {
                        b
                    } else {
                        b - 1
                    };
                    assert(r@[a] == before[x] && r@[b] == before[y]);
                }
            }
        }
        i = i + 1;
    }
    proof {
        let leq = |a: u128, b: u128| a <= b;
        assert(ids@.take(n as int) =~= ids@);
        ids@.lemma_sort_by_ensures(leq);
        lemma_sorted_unique(r@, ids@.sort_by(leq), leq);
    }
    r
}

/// `order` lists the positions of `keys` by falling key; of equal keys the one
/// that stands first comes first.
pub open spec fn falling_order(order: Seq<usize>, keys: Seq<u128>) -> bool {
    &&& order.len() == keys.len()
    &&& forall|i: int| 0 <= i < order.len() ==> (#[trigger] order[i]) < keys.len()
    &&& forall|i: int, j: int|
        #![trigger order[i], order[j]]
        0 <= i < j < order.len() ==> comes_before(keys, order[i] as int, order[j] as int)
}

/// Position `a` precedes position `b` in the stable order by falling key.
pub open spec fn comes_before(keys: Seq<u128>, a: int, b: int) -> bool {
    keys[a] > keys[b] || (keys[a] == keys[b] && a < b)
}

/// Every position occurs in a falling order.
pub proof fn lemma_order_complete(order: Seq<usize>, keys: Seq<u128>, p: int)
    requires
        falling_order(order, keys),
        0 <= p < keys.len(),
    ensures
        exists|i: int| 0 <= i < order.len() && #[trigger] order[i] == p,
{
    let ints = Seq::new(order.len(), |i: int| order[i] as int);
    assert(ints.no_duplicates()) by {
        assert forall|i: int, j: int|
            0 <= i < ints.len() && 0 <= j < ints.len() && i != j implies ints[i] != ints[j] by {
            if i < j {
                assert(comes_before(keys, order[i] as int, order[j] as int));
            } else {
                assert(comes_before(keys, order[j] as int, order[i] as int));
            }
        }
    }
    let all = vstd::set_lib::set_int_range(0, keys.len() as int);
    vstd::set_lib::lemma_int_range(0, keys.len() as int);
    ints.unique_seq_to_set();
    assert(ints.to_set().subset_of(all));
    vstd::set_lib::lemma_subset_equality(ints.to_set(), all);
    assert(ints.to_set().contains(p));
    let i = choose|i: int| 0 <= i < ints.len() && ints[i] == p;
    assert(order[i] == p);
}

/// There is only one falling order.
pub proof fn lemma_falling_order_unique(a: Seq<usize>, b: Seq<usize>, keys: Seq<u128>)
    requires
        falling_order(a, keys),
        falling_order(b, keys),
    ensures
        a == b,
{
    assert forall|i: int| 0 <= i < a.len() implies a[i] == b[i] by {
        lemma_orders_agree(a, b, keys, i);
    }
    assert(a =~= b);
}

proof fn lemma_orders_agree(a: Seq<usize>, b: Seq<usize>, keys: Seq<u128>, i: int)
    requires
        falling_order(a, keys),
        falling_order(b, keys),
        0 <= i < a.len(),
    ensures
        a[i] == b[i],
    decreases i,
{
    assert forall|k: int| 0 <= k < i implies a[k] == b[k] by {
        lemma_orders_agree(a, b, keys, k);
    }
    if a[i] != b[i] {
        lemma_order_complete(a, keys, b[i] as int);
        lemma_order_complete(b, keys, a[i] as int);
        let x = choose|x: int| 0 <= x < a.len() && #[trigger] a[x] == b[i];
        let y = choose|y: int| 0 <= y < b.len() && #[trigger] b[y] == a[i];
        if x < i {
            assert(b[x] == b[i]);
            assert(comes_before(keys, b[x] as int, b[i] as int));
        }
        if y < i {
            assert(a[y] == a[i]);
            assert(comes_before(keys, a[y] as int, a[i] as int));
        }
        assert(comes_before(keys, a[i] as int, a[x] as int));
        assert(comes_before(keys, b[i] as int, b[y] as int));
    }
}

/// The positions of `keys` by falling key, equal keys in their given order.
pub fn order_falling(keys: &Vec<u128>) -> (r: Vec<usize>)
    ensures
        falling_order(r@, keys@),
{
    let mut r: Vec<usize> = Vec::new();
    let n: usize = keys.len();
    let mut i: usize = 0;
    while i < n
        invariant
            i <= n,
            n == keys@.len(),
            r@.len() == i,
            forall|k: int| 0 <= k < r@.len() ==> (#[trigger] r@[k]) < i,
            forall|a: int, b: int|
                #![trigger r@[a], r@[b]]
                0 <= a < b < r@.len() ==> comes_before(keys@, r@[a] as int, r@[b] as int),
        decreases n - i,
    {
        let key: u128 = keys[i];
        let mut at: usize = r.len();
        while at > 0 && keys[r[at - 1]] < key
            invariant
                at <= r@.len(),
                i < n,
                n == keys@.len(),
                key == keys@[i as int],
                forall|k: int| 0 <= k < r@.len() ==> (#[trigger] r@[k]) < i,
                forall|b: int| at <= b < r@.len() ==> keys@[(#[trigger] r@[b]) as int] < key,
            decreases at,
        {
            at = at - 1;
        }
        let ghost before = r@;
        r.insert(at, i);
        proof {
            assert forall|a: int, b: int|
                #![trigger r@[a], r@[b]]
                0 <= a < b < r@.len() implies comes_before(keys@, r@[a] as int, r@[b] as int) by {
                if a == at {
                    assert(r@[b] == before[b - 1]);
                } else if b == at {
                    assert(r@[a] == before[a]);
                    if a < at - 1 {
                        assert(comes_before(keys@, before[a] as int, before[at - 1] as int));
                    }
                } else {
                    let x = if a < at {
                        a
                    } else {
                        a - 1
                    };
                    let y = if b < at {
                        b
                    } else {
                        b - 1
                    };
                    assert(r@[a] == before[x] && r@[b] == before[y]);
                }
            }
            assert forall|k: int| 0 <= k < r@.len() implies (#[trigger] r@[k]) < i + 1 by {
                if k < at {
                    assert(r@[k] == before[k]);
                } else if k > at {
                    assert(r@[k] == before[k - 1]);
                }
            }
        }
        i = i + 1;
    }
    r
}

} // verus!
