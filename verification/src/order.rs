//! Ranking by a key, highest first; ties keep their original order.
use vstd::prelude::*;

verus! {

broadcast use vstd::seq_lib::group_seq_properties;

/// Position `a` ranks before position `b`: a higher key, or the same key and
/// an earlier position.
pub open spec fn ranks_before(keys: Seq<i128>, a: int, b: int) -> bool {
    keys[a] > keys[b] || (keys[a] == keys[b] && a < b)
}

/// `order` lists the positions of `keys`, highest key first, equal keys in
/// their original order (a stable sort in descending order).
pub open spec fn is_rank_order(keys: Seq<i128>, order: Seq<usize>) -> bool {
    &&& order.len() == keys.len()
    &&& forall|i: int| 0 <= i < order.len() ==> #[trigger] order[i] < keys.len()
    &&& forall|i: int, j: int|
        0 <= i < j < order.len() ==> ranks_before(keys, #[trigger] order[i] as int, #[trigger] order[j] as int)
}

/// A list without repeats drawn from a finite set is no longer than the set.
pub proof fn lemma_no_dup_subset_len<A>(p: Seq<A>, us: Set<A>)
    requires
        p.no_duplicates(),
        us.finite(),
        forall|x: A| p.contains(x) ==> us.contains(x),
    ensures
        p.len() <= us.len(),
{
    p.unique_seq_to_set();
    vstd::set_lib::lemma_len_subset(p.to_set(), us);
}

/// A rank order lists every position exactly once.
pub proof fn lemma_rank_order_complete(keys: Seq<i128>, order: Seq<usize>)
    requires
        is_rank_order(keys, order),
    ensures
        order.no_duplicates(),
        forall|x: usize| x < keys.len() ==> #[trigger] order.contains(x),
{
    assert(order.no_duplicates()) by {
        assert forall|i: int, j: int| 0 <= i < order.len() && 0 <= j < order.len() && i != j implies order[i]
            != order[j] by {
            if i < j {
                assert(ranks_before(keys, order[i] as int, order[j] as int));
            } else {
                assert(ranks_before(keys, order[j] as int, order[i] as int));
            }
        }
    }
    assert forall|x: usize| x < keys.len() implies #[trigger] order.contains(x) by {
        if !order.contains(x) {
            let o = order.map_values(|y: usize| y as int);
            let r = Set::<int>::range(0, keys.len() as int).remove(x as int);
            vstd::set_lib::range_set_properties::<int>(0, keys.len() as int);
            assert(o.no_duplicates()) by {
                assert forall|i: int, j: int| 0 <= i < o.len() && 0 <= j < o.len() && i != j implies o[i] != o[j] by {
                    assert(order[i] != order[j]);
                }
            }
            assert forall|y: int| o.contains(y) implies r.contains(y) by {
                let i = choose|i: int| 0 <= i < o.len() && o[i] == y;
                assert(order[i] < keys.len());
                if y == x as int {
                    assert(order[i] == x);
                    assert(order.contains(x));
                }
            }
            lemma_no_dup_subset_len(o, r);
        }
    }
}

/// Two sequences of the same elements, each strictly ordered by
/// `ranks_before`, are equal.
proof fn lemma_sorted_same_elements_equal(keys: Seq<i128>, a: Seq<usize>, b: Seq<usize>)
    requires
        a.len() == b.len(),
        forall|x: usize| a.contains(x) <==> b.contains(x),
        forall|i: int, j: int| 0 <= i < j < a.len() ==> ranks_before(keys, #[trigger] a[i] as int, #[trigger] a[j] as int),
        forall|i: int, j: int| 0 <= i < j < b.len() ==> ranks_before(keys, #[trigger] b[i] as int, #[trigger] b[j] as int),
    ensures
        a == b,
    decreases a.len(),
{
    if a.len() > 0 {
        assert(b.contains(a[0]));
        assert(a.contains(b[0]));
        let i = choose|i: int| 0 <= i < a.len() && a[i] == b[0];
        let j = choose|j: int| 0 <= j < b.len() && b[j] == a[0];
        if a[0] != b[0] {
            assert(i > 0 && j > 0);
            assert(ranks_before(keys, a[0] as int, a[i] as int));
            assert(ranks_before(keys, b[0] as int, b[j] as int));
            assert(false);
        }
        let a1 = a.drop_first();
        let b1 = b.drop_first();
        assert forall|x: usize| a1.contains(x) <==> b1.contains(x) by {
            if a1.contains(x) {
                let k = choose|k: int| 0 <= k < a1.len() && a1[k] == x;
                assert(ranks_before(keys, a[0] as int, a[k + 1] as int));
                assert(b.contains(x));
                let l = choose|l: int| 0 <= l < b.len() && b[l] == x;
                assert(l != 0);
                assert(b1[l - 1] == x);
            }
            if b1.contains(x) {
                let k = choose|k: int| 0 <= k < b1.len() && b1[k] == x;
                assert(ranks_before(keys, b[0] as int, b[k + 1] as int));
                assert(a.contains(x));
                let l = choose|l: int| 0 <= l < a.len() && a[l] == x;
                assert(l != 0);
                assert(a1[l - 1] == x);
            }
        }
        assert forall|i: int, j: int| 0 <= i < j < a1.len() implies ranks_before(keys, #[trigger] a1[i] as int, #[trigger] a1[j] as int) by {
            assert(ranks_before(keys, a[i + 1] as int, a[j + 1] as int));
        }
        assert forall|i: int, j: int| 0 <= i < j < b1.len() implies ranks_before(keys, #[trigger] b1[i] as int, #[trigger] b1[j] as int) by {
            assert(ranks_before(keys, b[i + 1] as int, b[j + 1] as int));
        }
        lemma_sorted_same_elements_equal(keys, a1, b1);
        assert(a =~= b);
    }
}

/// There is only one rank order for given keys.
pub proof fn lemma_rank_order_unique(keys: Seq<i128>, a: Seq<usize>, b: Seq<usize>)
    requires
        is_rank_order(keys, a),
        is_rank_order(keys, b),
    ensures
        a == b,
{
    lemma_rank_order_complete(keys, a);
    lemma_rank_order_complete(keys, b);
    assert forall|x: usize| a.contains(x) <==> b.contains(x) by {
        if a.contains(x) {
            let i = choose|i: int| 0 <= i < a.len() && a[i] == x;
            assert(a[i] < keys.len());
        }
        if b.contains(x) {
            let i = choose|i: int| 0 <= i < b.len() && b[i] == x;
            assert(b[i] < keys.len());
        }
    }
    lemma_sorted_same_elements_equal(keys, a, b);
}

/// The positions of `keys`, highest key first, equal keys in their original
/// order.
pub fn rank_order(keys: &Vec<i128>) -> (order: Vec<usize>)
    ensures
        is_rank_order(keys@, order@),
{
    let mut order: Vec<usize> = Vec::new();
    let mut i: usize = 0;
    while i < keys.len()
        invariant
            i <= keys@.len(),
            order@.len() == i,
            forall|k: int| 0 <= k < order@.len() ==> #[trigger] order@[k] < i,
            forall|a: int, b: int|
                0 <= a < b < order@.len() ==> ranks_before(keys@, #[trigger] order@[a] as int, #[trigger] order@[b] as int),
        decreases keys@.len() - i,
    {
        let mut p: usize = 0;
        while p < order.len() && !(keys[i] > keys[order[p]])
            invariant
                p <= order@.len(),
                i < keys@.len(),
                forall|k: int| 0 <= k < order@.len() ==> #[trigger] order@[k] < i,
                forall|k: int| 0 <= k < p ==> keys@[#[trigger] order@[k] as int] >= keys@[i as int],
            decreases order@.len() - p,
        {
            p = p + 1;
        }
        let ghost before = order@;
        order.insert(p, i);
        proof {
            let o = order@;
            assert(o =~= before.take(p as int).push(i).add(before.skip(p as int)));
            assert forall|k: int| 0 <= k < o.len() implies #[trigger] o[k] < i + 1 by {
                if k < p {
                    assert(o[k] == before[k]);
                } else if k > p {
                    assert(o[k] == before[k - 1]);
                }
            }
            assert forall|a: int, b: int| 0 <= a < b < o.len() implies ranks_before(keys@, #[trigger] o[a] as int, #[trigger] o[b] as int) by {
                if b < p {
                    assert(o[a] == before[a] && o[b] == before[b]);
                } else if b == p {
                    assert(o[a] == before[a]);
                    assert(before[a] < i);
                } else if a == p {
                    assert(o[b] == before[b - 1]);
                    assert(keys@[i as int] > keys@[before[p as int] as int]);
                    if b - 1 > p {
                        assert(ranks_before(keys@, before[p as int] as int, before[b - 1] as int));
                    }
                } else if a < p {
                    assert(o[a] == before[a] && o[b] == before[b - 1]);
                } else {
                    assert(o[a] == before[a - 1] && o[b] == before[b - 1]);
                }
            }
        }
        i = i + 1;
    }
    order
}

} // verus!
