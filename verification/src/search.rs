//! Path search in the memory graph.
use vstd::prelude::*;

use crate::fixed::{fixed_mul, lemma_fixed_mul_bounds, lemma_fixed_mul_monotone, mul_fixed, UNIT};
use crate::order::lemma_no_dup_subset_len;
use crate::graph::{contains_string, edge_views, EdgeView, MemoryGraph};
use crate::tile::string_views;

verus! {

broadcast use vstd::seq_lib::group_seq_properties;

/// Some edge joins `a` and `b`, in either direction.
pub open spec fn linked(ev: Seq<EdgeView>, a: Seq<char>, b: Seq<char>) -> bool {
    exists|i: int|
        0 <= i < ev.len() && ((ev[i].0 == a && ev[i].1 == b) || (ev[i].0 == b && ev[i].1 == a))
}

/// The `i`-th and the next tile of `p` are joined by an edge.
pub open spec fn step_linked(ev: Seq<EdgeView>, p: Seq<Seq<char>>, i: int) -> bool {
    linked(ev, p[i], p[i + 1])
}

/// `p` is a path without repeated tiles from `from` to `to`, each tile
/// joined to the next by an edge (in either direction).
pub open spec fn is_simple_path(ev: Seq<EdgeView>, p: Seq<Seq<char>>, from: Seq<char>, to: Seq<char>) -> bool {
    &&& p.len() > 0
    &&& p[0] == from
    &&& p.last() == to
    &&& p.no_duplicates()
    &&& forall|i: int| 0 <= i < p.len() - 1 ==> #[trigger] step_linked(ev, p, i)
}

/// Some simple path leads from `from` to `to`.
pub open spec fn connected(ev: Seq<EdgeView>, from: Seq<char>, to: Seq<char>) -> bool {
    exists|p: Seq<Seq<char>>| is_simple_path(ev, p, from, to)
}

/// The endpoints of all edges, in order, followed by `from`.
pub open spec fn universe(ev: Seq<EdgeView>, from: Seq<char>) -> Seq<Seq<char>> {
    Seq::new((2 * ev.len()) as nat, |k: int| if k % 2 == 0 { ev[k / 2].0 } else { ev[k / 2].1 }).push(
        from,
    )
}

/// The tile reached through the `m`-th neighbour slot of `cur`: slot `2j`
/// follows edge `j` forward, slot `2j + 1` backward.
pub open spec fn slot_child(ev: Seq<EdgeView>, cur: Seq<char>, m: int) -> Option<Seq<char>> {
    let e = ev[m / 2];
    if m % 2 == 0 {
        if e.0 == cur {
            Some(e.1)
        } else {
            None
        }
    } else {
        if e.1 == cur {
            Some(e.0)
        } else {
            None
        }
    }
}

/// An upper bound on the number of search entries that the path `p` can
/// give rise to when at most `k` more tiles fit on a simple path.
pub open spec fn weight(ev: Seq<EdgeView>, p: Seq<Seq<char>>, k: nat) -> nat
    decreases k, 0nat,
{
    if k == 0 {
        1
    } else {
        1 + slot_sum(ev, p, (k - 1) as nat, (2 * ev.len()) as nat)
    }
}

/// The weights of the children of `p` through its first `m` neighbour slots.
pub open spec fn slot_sum(ev: Seq<EdgeView>, p: Seq<Seq<char>>, k: nat, m: nat) -> nat
    decreases k, m + 1,
{
    if m == 0 {
        0
    } else {
        slot_sum(ev, p, k, (m - 1) as nat) + match slot_child(ev, p.last(), m - 1) {
            Some(c) => if p.contains(c) {
                0
            } else {
                weight(ev, p.push(c), k)
            },
            None => 0,
        }
    }
}

/// The total weight of a list of paths, each with room for `n` tiles.
pub open spec fn weight_sum(ev: Seq<EdgeView>, n: nat, ps: Seq<Seq<Seq<char>>>) -> nat
    decreases ps.len(),
{
    if ps.len() == 0 {
        0
    } else {
        weight_sum(ev, n, ps.drop_last()) + weight(ev, ps.last(), (n - ps.last().len()) as nat)
    }
}

proof fn lemma_weight_sum_front(ev: Seq<EdgeView>, n: nat, ps: Seq<Seq<Seq<char>>>)
    requires
        ps.len() > 0,
    ensures
        weight_sum(ev, n, ps) == weight(ev, ps[0], (n - ps[0].len()) as nat) + weight_sum(
            ev,
            n,
            ps.drop_first(),
        ),
    decreases ps.len(),
{
    if ps.len() > 1 {
        lemma_weight_sum_front(ev, n, ps.drop_last());
        assert(ps.drop_last().drop_first() =~= ps.drop_first().drop_last());
    } else {
        assert(ps.drop_last().len() == 0);
        assert(ps.drop_first().len() == 0);
    }
}

/// A tile appears in the universe when an edge ends there.
proof fn lemma_universe(ev: Seq<EdgeView>, from: Seq<char>, i: int)
    requires
        0 <= i < ev.len(),
    ensures
        universe(ev, from).contains(ev[i].0),
        universe(ev, from).contains(ev[i].1),
        universe(ev, from).contains(from),
{
    let u = universe(ev, from);
    assert(u[2 * i] == ev[i].0);
    assert(u[2 * i + 1] == ev[i].1);
    assert(u[2 * ev.len() as int] == from);
}

/// `p` is a simple path from `from` whose tiles all lie in `us`.
pub open spec fn path_ok(ev: Seq<EdgeView>, from: Seq<char>, us: Set<Seq<char>>, p: Seq<Seq<char>>) -> bool {
    &&& is_simple_path(ev, p, from, p.last())
    &&& forall|x: Seq<char>| p.contains(x) ==> us.contains(x)
}

/// The paths of the search queue.
pub open spec fn queue_paths(q: Seq<(Vec<String>, i64)>) -> Seq<Seq<Seq<char>>> {
    q.map_values(|e: (Vec<String>, i64)| string_views(e.0@))
}

/// The tiles for which a best path is known.
pub open spec fn best_keys(b: Seq<(String, i64, Vec<String>)>) -> Seq<Seq<char>> {
    b.map_values(|e: (String, i64, Vec<String>)| e.0@)
}

/// The best path recorded for a tile is a simple path from `from` to it.
pub open spec fn best_ok(ev: Seq<EdgeView>, from: Seq<char>, b: (String, i64, Vec<String>)) -> bool {
    is_simple_path(ev, string_views(b.2@), from, b.0@)
}

/// What holds of the search state between steps.
pub open spec fn search_inv(
    ev: Seq<EdgeView>,
    from: Seq<char>,
    us: Set<Seq<char>>,
    qp: Seq<Seq<Seq<char>>>,
    best: Seq<(String, i64, Vec<String>)>,
) -> bool {
    &&& us.finite()
    &&& us.contains(from)
    &&& forall|q: int| 0 <= q < qp.len() ==> #[trigger] path_ok(ev, from, us, qp[q])
    &&& forall|a: int, b: int| 0 <= a < b < best.len() ==> (#[trigger] best[a]).0@ != (#[trigger] best[b]).0@
    &&& forall|b: int| 0 <= b < best.len() ==> #[trigger] best_ok(ev, from, best[b])
    &&& forall|q: int, x: Seq<char>| 0 <= q < qp.len() && #[trigger] qp[q].contains(x) ==> best_keys(best).contains(x)
    &&& forall|b: int| 0 <= b < best.len() ==> exists|q: int| 0 <= q < qp.len() && #[trigger] qp[q].last() == (#[trigger] best[b]).0@
    &&& best_keys(best).contains(from)
}

/// Every neighbour of the last tile of the first `head` queued paths has a
/// recorded best path.
pub open spec fn closed_upto(ev: Seq<EdgeView>, qp: Seq<Seq<Seq<char>>>, head: int, keys: Seq<Seq<char>>) -> bool {
    forall|q: int, y: Seq<char>| 0 <= q < head && #[trigger] linked(ev, qp[q].last(), y) ==> #[trigger] keys.contains(y)
}

proof fn lemma_weight_sum_append(ev: Seq<EdgeView>, n: nat, a: Seq<Seq<Seq<char>>>, b: Seq<Seq<Seq<char>>>)
    ensures
        weight_sum(ev, n, a + b) == weight_sum(ev, n, a) + weight_sum(ev, n, b),
    decreases b.len(),
{
    if b.len() == 0 {
        assert(a + b =~= a);
    } else {
        lemma_weight_sum_append(ev, n, a, b.drop_last());
        assert((a + b).drop_last() =~= a + b.drop_last());
    }
}

/// From a set of tiles closed under neighbours, every path that starts inside
/// it stays inside it.
proof fn lemma_closed_reaches(ev: Seq<EdgeView>, keys: Seq<Seq<char>>, p: Seq<Seq<char>>)
    requires
        p.len() > 0,
        keys.contains(p[0]),
        forall|i: int| 0 <= i < p.len() - 1 ==> #[trigger] step_linked(ev, p, i),
        forall|k: Seq<char>, y: Seq<char>| keys.contains(k) && #[trigger] linked(ev, k, y) ==> #[trigger] keys.contains(y),
    ensures
        keys.contains(p.last()),
    decreases p.len(),
{
    if p.len() > 1 {
        let q = p.drop_last();
        assert forall|i: int| 0 <= i < q.len() - 1 implies #[trigger] step_linked(ev, q, i) by {
            assert(step_linked(ev, p, i));
        }
        lemma_closed_reaches(ev, keys, q);
        assert(step_linked(ev, p, p.len() - 2));
    }
}

/// Edge `j` joins `a` and `b`, in either direction.
pub open spec fn joins(ev: Seq<EdgeView>, j: int, a: Seq<char>, b: Seq<char>) -> bool {
    &&& 0 <= j < ev.len()
    &&& (ev[j].0 == a && ev[j].1 == b) || (ev[j].0 == b && ev[j].1 == a)
}

/// `es` names, for each step of the walk `p`, an edge joining its two tiles.
pub open spec fn is_edge_walk(ev: Seq<EdgeView>, p: Seq<Seq<char>>, es: Seq<int>) -> bool {
    &&& p.len() > 0
    &&& es.len() + 1 == p.len()
    &&& forall|i: int| 0 <= i < es.len() ==> #[trigger] joins(ev, es[i], p[i], p[i + 1])
}

/// The strength of a walk over the edges `es`: the fixed-point product of
/// their strengths, starting from `UNIT`.
pub open spec fn walk_strength(ev: Seq<EdgeView>, es: Seq<int>) -> int
    decreases es.len(),
{
    if es.len() == 0 {
        UNIT as int
    } else {
        fixed_mul(walk_strength(ev, es.drop_last()) as i64, ev[es.last()].2)
    }
}

/// Every edge has a strength in `[0, UNIT]`.
pub open spec fn unit_strengths(ev: Seq<EdgeView>) -> bool {
    forall|i: int| 0 <= i < ev.len() ==> 0 <= (#[trigger] ev[i]).2 <= UNIT
}

/// `p` is a walk from `from` to `to` over edges of which no walk between the
/// two tiles is stronger.
pub open spec fn strongest_walk(ev: Seq<EdgeView>, p: Seq<Seq<char>>, from: Seq<char>, to: Seq<char>) -> bool {
    exists|es: Seq<int>|
        #[trigger] is_edge_walk(ev, p, es) && forall|q: Seq<Seq<char>>, qs: Seq<int>|
            #[trigger] is_edge_walk(ev, q, qs) && q[0] == from && q.last() == to ==> walk_strength(ev, qs)
                <= walk_strength(ev, es)
}

/// The best strength recorded for `v` is at least `x`.
pub open spec fn label_at_least(best: Seq<(String, i64, Vec<String>)>, v: Seq<char>, x: int) -> bool {
    exists|k: int| 0 <= k < best.len() && (#[trigger] best[k]).0@ == v && best[k].1 >= x
}

/// `b1` keeps every tile of `b0` at its place, with a strength no lower.
pub open spec fn best_grows(b0: Seq<(String, i64, Vec<String>)>, b1: Seq<(String, i64, Vec<String>)>) -> bool {
    &&& b0.len() <= b1.len()
    &&& forall|k: int| #![trigger b1[k]] 0 <= k < b0.len() ==> b1[k].0@ == b0[k].0@ && b1[k].1 >= b0[k].1
}

/// Following edge `i` away from `v`, with strength `s` at `v`, reaches a
/// tile whose recorded strength is at least the product.
pub open spec fn relaxed(ev: Seq<EdgeView>, best: Seq<(String, i64, Vec<String>)>, v: Seq<char>, s: i64, i: int) -> bool {
    &&& ev[i].0 == v ==> label_at_least(best, ev[i].1, fixed_mul(s, ev[i].2))
    &&& ev[i].1 == v ==> label_at_least(best, ev[i].0, fixed_mul(s, ev[i].2))
}

proof fn lemma_label_grows(b0: Seq<(String, i64, Vec<String>)>, b1: Seq<(String, i64, Vec<String>)>, v: Seq<char>, x: int)
    requires
        best_grows(b0, b1),
        label_at_least(b0, v, x),
    ensures
        label_at_least(b1, v, x),
{
    let k = choose|k: int| 0 <= k < b0.len() && (#[trigger] b0[k]).0@ == v && b0[k].1 >= x;
    assert(b1[k].0@ == v);
}

/// Over edges of strength in `[0, UNIT]`, a walk's strength lies in `[0, UNIT]`.
proof fn lemma_walk_strength_bounds(ev: Seq<EdgeView>, es: Seq<int>)
    requires
        unit_strengths(ev),
        forall|i: int| 0 <= i < es.len() ==> 0 <= #[trigger] es[i] < ev.len(),
    ensures
        0 <= walk_strength(ev, es) <= UNIT,
    decreases es.len(),
{
    if es.len() > 0 {
        let w = es.drop_last();
        lemma_walk_strength_bounds(ev, w);
        let s = walk_strength(ev, w);
        assert(0 <= es[es.len() - 1] < ev.len());
        assert(0 <= ev[es.last()].2 <= UNIT);
        lemma_fixed_mul_bounds(s as i64, ev[es.last()].2);
    }
}

/// When every recorded tile has been relaxed along every edge, the recorded
/// strength of the end of a walk from `from` bounds the walk's strength.
proof fn lemma_walk_bound(
    ev: Seq<EdgeView>,
    best: Seq<(String, i64, Vec<String>)>,
    from: Seq<char>,
    p: Seq<Seq<char>>,
    es: Seq<int>,
)
    requires
        unit_strengths(ev),
        forall|k: int| 0 <= k < best.len() ==> (#[trigger] best[k]).1 >= 0,
        forall|k: int, i: int| 0 <= k < best.len() && 0 <= i < ev.len() ==> #[trigger] relaxed(ev, best, best[k].0@, best[k].1, i),
        label_at_least(best, from, UNIT as int),
        is_edge_walk(ev, p, es),
        p[0] == from,
    ensures
        label_at_least(best, p.last(), walk_strength(ev, es)),
    decreases es.len(),
{
    if es.len() > 0 {
        let n = p.len();
        let p1 = p.drop_last();
        let e1 = es.drop_last();
        assert forall|i: int| 0 <= i < e1.len() implies #[trigger] joins(ev, e1[i], p1[i], p1[i + 1]) by {
            assert(joins(ev, es[i], p[i], p[i + 1]));
        }
        lemma_walk_bound(ev, best, from, p1, e1);
        let w1 = walk_strength(ev, e1);
        assert forall|i: int| 0 <= i < e1.len() implies 0 <= #[trigger] e1[i] < ev.len() by {
            assert(joins(ev, es[i], p[i], p[i + 1]));
        }
        lemma_walk_strength_bounds(ev, e1);
        let k = choose|k: int| 0 <= k < best.len() && (#[trigger] best[k]).0@ == p1.last() && best[k].1 >= w1;
        let j = es.last();
        assert(joins(ev, es[n - 2], p[n - 2], p[n - 1]));
        assert(relaxed(ev, best, best[k].0@, best[k].1, j));
        assert(0 <= ev[j].2);
        lemma_fixed_mul_monotone(w1 as i64, best[k].1, ev[j].2);
    }
}

/// The queued entry `e` follows the edges `es`, and its strength is theirs.
pub open spec fn entry_walk(ev: Seq<EdgeView>, e: (Vec<String>, i64), es: Seq<int>) -> bool {
    is_edge_walk(ev, string_views(e.0@), es) && e.1 == walk_strength(ev, es)
}

/// The recorded best entry `b` was queued as `e`.
pub open spec fn source_of(e: (Vec<String>, i64), b: (String, i64, Vec<String>)) -> bool {
    string_views(e.0@) == string_views(b.2@) && e.1 == b.1
}

/// The recorded best entry `b` was queued as one of the entries of `q`.
pub open spec fn queued(q: Seq<(Vec<String>, i64)>, b: (String, i64, Vec<String>)) -> bool {
    exists|i: int| 0 <= i < q.len() && #[trigger] source_of(q[i], b)
}

/// What holds of the strengths in the search state: `qe` gives the edges of
/// each queued path, every recorded entry was queued, `from` keeps its
/// strength of `UNIT`, and over edges of strength in `[0, UNIT]` each tile of
/// a queued path is recorded at least as strong as the path.
pub open spec fn strength_inv(
    ev: Seq<EdgeView>,
    from: Seq<char>,
    q: Seq<(Vec<String>, i64)>,
    qe: Seq<Seq<int>>,
    best: Seq<(String, i64, Vec<String>)>,
) -> bool {
    &&& qe.len() == q.len()
    &&& forall|i: int| 0 <= i < q.len() ==> #[trigger] entry_walk(ev, q[i], qe[i])
    &&& forall|b: int| 0 <= b < best.len() ==> #[trigger] queued(q, best[b])
    &&& best.len() > 0
    &&& best[0].0@ == from
    &&& best[0].1 >= UNIT
    &&& unit_strengths(ev) ==> forall|i: int| 0 <= i < q.len() ==> 0 <= (#[trigger] q[i]).1 <= UNIT
    &&& unit_strengths(ev) ==> forall|i: int, x: Seq<char>|
        0 <= i < q.len() && #[trigger] string_views(q[i].0@).contains(x) ==> label_at_least(best, x, q[i].1 as int)
}

/// A recorded strength of at least `x` is one of at least any `y <= x`.
proof fn lemma_label_weaken(best: Seq<(String, i64, Vec<String>)>, v: Seq<char>, x: int, y: int)
    requires
        label_at_least(best, v, x),
        y <= x,
    ensures
        label_at_least(best, v, y),
{
    let k = choose|k: int| 0 <= k < best.len() && (#[trigger] best[k]).0@ == v && best[k].1 >= x;
    assert(best[k].0@ == v);
}

/// The strength facts after `visit` records and queues the path `p` extended
/// by `nb` over edge `j`.
proof fn lemma_strength_after_push(
    ev: Seq<EdgeView>,
    from: Seq<char>,
    q0: Seq<(Vec<String>, i64)>,
    qe0: Seq<Seq<int>>,
    b0: Seq<(String, i64, Vec<String>)>,
    q1: Seq<(Vec<String>, i64)>,
    b1: Seq<(String, i64, Vec<String>)>,
    nk: int,
    p: Seq<Seq<char>>,
    pe: Seq<int>,
    j: int,
    nb: Seq<char>,
    cum: i64,
    ns: i64,
)
    requires
        strength_inv(ev, from, q0, qe0, b0),
        is_edge_walk(ev, p, pe),
        cum == walk_strength(ev, pe),
        joins(ev, j, p.last(), nb),
        ns == fixed_mul(cum, ev[j].2),
        unit_strengths(ev) ==> 0 <= cum <= UNIT,
        unit_strengths(ev) ==> forall|x: Seq<char>| p.contains(x) ==> label_at_least(b0, x, cum as int),
        q1.len() == q0.len() + 1,
        forall|i: int| 0 <= i < q0.len() ==> q1[i] == q0[i],
        string_views(q1[q0.len() as int].0@) == p.push(nb),
        q1[q0.len() as int].1 == ns,
        0 <= nk <= b0.len(),
        b1.len() == if nk == b0.len() { b0.len() + 1 } else { b0.len() },
        forall|k: int| 0 <= k < b1.len() && k != nk ==> b1[k] == b0[k],
        b1[nk].0@ == nb,
        b1[nk].1 == ns,
        string_views(b1[nk].2@) == p.push(nb),
        nk < b0.len() ==> b0[nk].0@ == nb && b0[nk].1 < ns,
    ensures
        strength_inv(ev, from, q1, qe0.push(pe.push(j)), b1),
        best_grows(b0, b1),
        unit_strengths(ev) ==> label_at_least(b1, nb, ns as int),
{
    let qe1 = qe0.push(pe.push(j));
    let nq = q0.len() as int;
    let npe = pe.push(j);
    let np = p.push(nb);
    assert(npe.drop_last() =~= pe);
    assert forall|i: int| 0 <= i < npe.len() implies #[trigger] joins(ev, npe[i], np[i], np[i + 1]) by {
        if i < pe.len() {
            assert(joins(ev, pe[i], p[i], p[i + 1]));
        }
    }
    assert(entry_walk(ev, q1[nq], qe1[nq]));
    assert forall|i: int| 0 <= i < q1.len() implies #[trigger] entry_walk(ev, q1[i], qe1[i]) by {
        if i < nq {
            assert(entry_walk(ev, q0[i], qe0[i]));
        }
    }
    assert forall|k: int| #![trigger b1[k]] 0 <= k < b0.len() implies b1[k].0@ == b0[k].0@ && b1[k].1 >= b0[k].1 by {
    }
    assert(best_grows(b0, b1));
    assert(source_of(q1[nq], b1[nk]));
    assert forall|b: int| 0 <= b < b1.len() implies #[trigger] queued(q1, b1[b]) by {
        if b != nk {
            assert(b1[b] == b0[b]);
            assert(queued(q0, b0[b]));
            let i = choose|i: int| 0 <= i < q0.len() && #[trigger] source_of(q0[i], b0[b]);
            assert(q1[i] == q0[i]);
            assert(source_of(q1[i], b1[b]));
        } else {
            assert(source_of(q1[nq], b1[b]));
        }
    }
    if unit_strengths(ev) {
        assert(0 <= ev[j].2 <= UNIT);
        lemma_fixed_mul_bounds(cum, ev[j].2);
        assert(label_at_least(b1, nb, ns as int)) by {
            assert(b1[nk].0@ == nb);
        }
        assert forall|i: int| 0 <= i < q1.len() implies 0 <= (#[trigger] q1[i]).1 <= UNIT by {
            if i < nq {
                assert(q1[i] == q0[i]);
            }
        }
        assert forall|i: int, x: Seq<char>|
            0 <= i < q1.len() && #[trigger] string_views(q1[i].0@).contains(x) implies label_at_least(b1, x, q1[i].1 as int) by {
            if i < nq {
                assert(q1[i] == q0[i]);
                lemma_label_grows(b0, b1, x, q0[i].1 as int);
            } else if x != nb {
                let k = choose|k: int| 0 <= k < np.len() && np[k] == x;
                assert(p[k] == x);
                lemma_label_grows(b0, b1, x, cum as int);
                lemma_label_weaken(b1, x, cum as int, ns as int);
            }
        }
    }
}

/// Every queued entry before `head` has been relaxed along every edge (when
/// the edges have strengths in `[0, UNIT]`).
pub open spec fn closed_strength(
    ev: Seq<EdgeView>,
    q: Seq<(Vec<String>, i64)>,
    head: int,
    best: Seq<(String, i64, Vec<String>)>,
) -> bool {
    unit_strengths(ev) ==> forall|qi: int, i: int|
        0 <= qi < head && 0 <= i < ev.len() ==> #[trigger] relaxed(ev, best, string_views(q[qi].0@).last(), q[qi].1, i)
}

proof fn lemma_grows_refl(b: Seq<(String, i64, Vec<String>)>)
    ensures
        best_grows(b, b),
{
    assert forall|k: int| #![trigger b[k]] 0 <= k < b.len() implies b[k].0@ == b[k].0@ && b[k].1 >= b[k].1 by {
    }
}

proof fn lemma_grows_trans(
    b0: Seq<(String, i64, Vec<String>)>,
    b1: Seq<(String, i64, Vec<String>)>,
    b2: Seq<(String, i64, Vec<String>)>,
)
    requires
        best_grows(b0, b1),
        best_grows(b1, b2),
    ensures
        best_grows(b0, b2),
{
    assert forall|k: int| #![trigger b2[k]] 0 <= k < b0.len() implies b2[k].0@ == b0[k].0@ && b2[k].1 >= b0[k].1 by {
        assert(b1[k].0@ == b0[k].0@);
    }
}

proof fn lemma_relaxed_grows(
    ev: Seq<EdgeView>,
    b0: Seq<(String, i64, Vec<String>)>,
    b1: Seq<(String, i64, Vec<String>)>,
    v: Seq<char>,
    s: i64,
    i: int,
)
    requires
        best_grows(b0, b1),
        relaxed(ev, b0, v, s, i),
    ensures
        relaxed(ev, b1, v, s, i),
{
    if ev[i].0 == v {
        lemma_label_grows(b0, b1, ev[i].1, fixed_mul(s, ev[i].2));
    }
    if ev[i].1 == v {
        lemma_label_grows(b0, b1, ev[i].0, fixed_mul(s, ev[i].2));
    }
}

/// Growth of the records keeps the closure of the first `head` entries.
proof fn lemma_closed_grows(
    ev: Seq<EdgeView>,
    q0: Seq<(Vec<String>, i64)>,
    q1: Seq<(Vec<String>, i64)>,
    head: int,
    b0: Seq<(String, i64, Vec<String>)>,
    b1: Seq<(String, i64, Vec<String>)>,
)
    requires
        closed_strength(ev, q0, head, b0),
        best_grows(b0, b1),
        head <= q0.len() <= q1.len(),
        forall|i: int| 0 <= i < q0.len() ==> q1[i] == q0[i],
    ensures
        closed_strength(ev, q1, head, b1),
{
    if unit_strengths(ev) {
        assert forall|qi: int, i: int| 0 <= qi < head && 0 <= i < ev.len() implies #[trigger] relaxed(
            ev,
            b1,
            string_views(q1[qi].0@).last(),
            q1[qi].1,
            i,
        ) by {
            assert(q1[qi] == q0[qi]);
            assert(relaxed(ev, b0, string_views(q0[qi].0@).last(), q0[qi].1, i));
            lemma_relaxed_grows(ev, b0, b1, string_views(q0[qi].0@).last(), q0[qi].1, i);
        }
    }
}

/// Growth of the records keeps every tile of `p` recorded as strong as `c`.
proof fn lemma_path_labels_grow(
    b0: Seq<(String, i64, Vec<String>)>,
    b1: Seq<(String, i64, Vec<String>)>,
    p: Seq<Seq<char>>,
    c: int,
)
    requires
        best_grows(b0, b1),
        forall|x: Seq<char>| p.contains(x) ==> label_at_least(b0, x, c),
    ensures
        forall|x: Seq<char>| p.contains(x) ==> label_at_least(b1, x, c),
{
    assert forall|x: Seq<char>| p.contains(x) implies label_at_least(b1, x, c) by {
        lemma_label_grows(b0, b1, x, c);
    }
}

/// The single-tile walk is a strongest walk from a tile to itself.
proof fn lemma_strongest_trivial(ev: Seq<EdgeView>, from: Seq<char>)
    requires
        unit_strengths(ev),
    ensures
        strongest_walk(ev, seq![from], from, from),
{
    let es: Seq<int> = Seq::empty();
    assert(is_edge_walk(ev, seq![from], es));
    assert forall|q: Seq<Seq<char>>, qs: Seq<int>|
        #[trigger] is_edge_walk(ev, q, qs) && q[0] == from && q.last() == from implies walk_strength(ev, qs)
            <= walk_strength(ev, es) by {
        assert forall|i: int| 0 <= i < qs.len() implies 0 <= #[trigger] qs[i] < ev.len() by {
            assert(joins(ev, qs[i], q[i], q[i + 1]));
        }
        lemma_walk_strength_bounds(ev, qs);
    }
}

/// When the search has relaxed every queued entry, the path recorded for
/// `to` is a strongest walk to it.
proof fn lemma_strongest_recorded(
    ev: Seq<EdgeView>,
    from: Seq<char>,
    to: Seq<char>,
    q: Seq<(Vec<String>, i64)>,
    qe: Seq<Seq<int>>,
    best: Seq<(String, i64, Vec<String>)>,
    t: int,
)
    requires
        unit_strengths(ev),
        strength_inv(ev, from, q, qe, best),
        closed_strength(ev, q, q.len() as int, best),
        forall|a: int, b: int| 0 <= a < b < best.len() ==> (#[trigger] best[a]).0@ != (#[trigger] best[b]).0@,
        forall|b: int| 0 <= b < best.len() ==> #[trigger] best_ok(ev, from, best[b]),
        0 <= t < best.len(),
        best[t].0@ == to,
    ensures
        strongest_walk(ev, string_views(best[t].2@), from, to),
{
    assert forall|k: int| 0 <= k < best.len() implies (#[trigger] best[k]).1 >= 0 by {
        assert(queued(q, best[k]));
        let qi = choose|qi: int| 0 <= qi < q.len() && #[trigger] source_of(q[qi], best[k]);
        assert(0 <= q[qi].1);
    }
    assert forall|k: int, i: int| 0 <= k < best.len() && 0 <= i < ev.len() implies #[trigger] relaxed(
        ev,
        best,
        best[k].0@,
        best[k].1,
        i,
    ) by {
        assert(queued(q, best[k]));
        let qi = choose|qi: int| 0 <= qi < q.len() && #[trigger] source_of(q[qi], best[k]);
        assert(best_ok(ev, from, best[k]));
        assert(relaxed(ev, best, string_views(q[qi].0@).last(), q[qi].1, i));
    }
    assert(label_at_least(best, from, UNIT as int)) by {
        assert(best[0].0@ == from);
    }
    assert(queued(q, best[t]));
    let qt = choose|qi: int| 0 <= qi < q.len() && #[trigger] source_of(q[qi], best[t]);
    let es = qe[qt];
    assert(entry_walk(ev, q[qt], qe[qt]));
    assert(is_edge_walk(ev, string_views(best[t].2@), es));
    assert forall|p: Seq<Seq<char>>, ps: Seq<int>|
        #[trigger] is_edge_walk(ev, p, ps) && p[0] == from && p.last() == to implies walk_strength(ev, ps)
            <= walk_strength(ev, es) by {
        lemma_walk_bound(ev, best, from, p, ps);
        let k = choose|k: int| 0 <= k < best.len() && (#[trigger] best[k]).0@ == to && best[k].1 >= walk_strength(ev, ps);
        if k < t {
            assert(best[k].0@ != best[t].0@);
        } else if k > t {
            assert(best[t].0@ != best[k].0@);
        }
    }
}

/// The state of the path search: the queued paths with their strengths, the
/// best path recorded for each tile reached (tile, strength, path), and how
/// many queued paths have been expanded.
pub ghost struct SearchState {
    pub queue: Seq<(Seq<Seq<char>>, i64)>,
    pub best: Seq<(Seq<char>, i64, Seq<Seq<char>>)>,
    pub head: nat,
}

/// The index of the record for tile `v`, or -1 when there is none.
pub open spec fn best_index(best: Seq<(Seq<char>, i64, Seq<Seq<char>>)>, v: Seq<char>) -> int
    decreases best.len(),
{
    if best.len() == 0 {
        -1
    } else if best.last().0 == v {
        best.len() - 1
    } else {
        best_index(best.drop_last(), v)
    }
}

/// Following an edge of strength `es` from the end of the expanded path `p`,
/// of strength `cum`, to `nb`: when the longer path does not revisit a tile
/// and is strictly stronger than the path recorded for `nb` (or none is
/// recorded), it becomes `nb`'s record, in place, and is queued.
pub open spec fn relax(st: SearchState, p: Seq<Seq<char>>, cum: i64, nb: Seq<char>, es: i64) -> SearchState {
    let ns = fixed_mul(cum, es) as i64;
    let i = best_index(st.best, nb);
    if (i < 0 || ns > st.best[i].1) && !p.contains(nb) {
        let np = p.push(nb);
        SearchState {
            queue: st.queue.push((np, ns)),
            best: if i < 0 {
                st.best.push((nb, ns, np))
            } else {
                st.best.update(i, (nb, ns, np))
            },
            head: st.head,
        }
    } else {
        st
    }
}

/// Following edge `j` from the end of `p`: first to its far end when it
/// leaves there, then to its near end when it arrives there.
pub open spec fn relax_edge(ev: Seq<EdgeView>, st: SearchState, p: Seq<Seq<char>>, cum: i64, j: int) -> SearchState {
    let st1 = if ev[j].0 == p.last() {
        relax(st, p, cum, ev[j].1, ev[j].2)
    } else {
        st
    };
    if ev[j].1 == p.last() {
        relax(st1, p, cum, ev[j].0, ev[j].2)
    } else {
        st1
    }
}

/// Following the first `j` edges, in order, from the end of `p`.
pub open spec fn relax_edges(ev: Seq<EdgeView>, st: SearchState, p: Seq<Seq<char>>, cum: i64, j: nat) -> SearchState
    decreases j,
{
    if j == 0 {
        st
    } else {
        relax_edge(ev, relax_edges(ev, st, p, cum, (j - 1) as nat), p, cum, j - 1)
    }
}

/// Expanding the next queued path (first in, first out), when one is left.
pub open spec fn search_step(ev: Seq<EdgeView>, st: SearchState) -> SearchState {
    if st.head < st.queue.len() {
        let e = st.queue[st.head as int];
        relax_edges(ev, SearchState { head: st.head + 1, ..st }, e.0, e.1, ev.len())
    } else {
        st
    }
}

/// The search state after `n` steps.
pub open spec fn search_steps(ev: Seq<EdgeView>, st: SearchState, n: nat) -> SearchState
    decreases n,
{
    if n == 0 {
        st
    } else {
        search_step(ev, search_steps(ev, st, (n - 1) as nat))
    }
}

/// The search starts from the one-tile path `[from]`, of strength `UNIT`.
pub open spec fn search_start(from: Seq<char>) -> SearchState {
    SearchState { queue: seq![(seq![from], UNIT)], best: seq![(from, UNIT, seq![from])], head: 0 }
}

/// Every queued path has been expanded.
pub open spec fn search_done(st: SearchState) -> bool {
    st.head >= st.queue.len()
}

/// The path recorded for `to`, if any.
pub open spec fn search_result(st: SearchState, to: Seq<char>) -> Option<Seq<Seq<char>>> {
    let i = best_index(st.best, to);
    if i >= 0 {
        Some(st.best[i].2)
    } else {
        None
    }
}

/// Once every queued path is expanded, further steps change nothing: the
/// search's outcome does not depend on how many steps are counted after it
/// ends.
pub proof fn lemma_search_settles(ev: Seq<EdgeView>, st: SearchState, n: nat, m: nat)
    requires
        search_done(search_steps(ev, st, n)),
    ensures
        search_steps(ev, st, n + m) == search_steps(ev, st, n),
    decreases m,
{
    if m > 0 {
        lemma_search_settles(ev, st, n, (m - 1) as nat);
        assert(search_steps(ev, st, n + m) == search_step(ev, search_steps(ev, st, (n + m - 1) as nat)));
    }
}

/// The queue seen through the views of its paths.
pub open spec fn queue_view(q: Seq<(Vec<String>, i64)>) -> Seq<(Seq<Seq<char>>, i64)> {
    q.map_values(|e: (Vec<String>, i64)| (string_views(e.0@), e.1))
}

/// The records seen through the views of their tiles and paths.
pub open spec fn best_view(b: Seq<(String, i64, Vec<String>)>) -> Seq<(Seq<char>, i64, Seq<Seq<char>>)> {
    b.map_values(|e: (String, i64, Vec<String>)| (e.0@, e.1, string_views(e.2@)))
}

/// The search state held by a queue, records and head.
pub open spec fn search_view(q: Seq<(Vec<String>, i64)>, b: Seq<(String, i64, Vec<String>)>, head: nat) -> SearchState {
    SearchState { queue: queue_view(q), best: best_view(b), head }
}

/// A path result seen through the views of its tiles.
pub open spec fn opt_path_view(r: Option<Vec<String>>) -> Option<Seq<Seq<char>>> {
    match r {
        Some(v) => Some(string_views(v@)),
        None => None,
    }
}

/// With distinct tiles, `best_index` finds the one record of a tile.
proof fn lemma_best_index(b: Seq<(String, i64, Vec<String>)>, v: Seq<char>)
    requires
        forall|a: int, c: int| 0 <= a < c < b.len() ==> (#[trigger] b[a]).0@ != (#[trigger] b[c]).0@,
    ensures
        -1 <= best_index(best_view(b), v) < b.len(),
        forall|k: int| 0 <= k < b.len() && b[k].0@ == v ==> best_index(best_view(b), v) == k,
        best_index(best_view(b), v) == -1 <==> !best_keys(b).contains(v),
    decreases b.len(),
{
    if b.len() > 0 {
        let d = b.drop_last();
        assert(best_view(d) =~= best_view(b).drop_last());
        lemma_best_index(d, v);
        if best_keys(b).contains(v) && b.last().0@ != v {
            let k = choose|k: int| 0 <= k < b.len() && best_keys(b)[k] == v;
            assert(best_keys(d)[k] == v);
        }
        if best_keys(d).contains(v) {
            let k = choose|k: int| 0 <= k < d.len() && best_keys(d)[k] == v;
            assert(best_keys(b)[k] == v);
        }
        if b.last().0@ == v {
            assert(best_keys(b)[b.len() - 1] == v);
        }
        assert forall|k: int| 0 <= k < b.len() && b[k].0@ == v implies best_index(best_view(b), v) == k by {
            if k < b.len() - 1 {
                assert(b[k] == d[k]);
                assert(b[k].0@ != b[b.len() - 1].0@);
            }
        }
    } else {
        assert(best_keys(b).len() == 0);
    }
}

/// A copy of a list of strings.
pub fn clone_strings(v: &Vec<String>) -> (r: Vec<String>)
    ensures
        r@ == v@,
        string_views(r@) == string_views(v@),
{
    let mut r: Vec<String> = Vec::new();
    let mut i: usize = 0;
    while i < v.len()
        invariant
            i <= v@.len(),
            r@ == v@.take(i as int),
        decreases v@.len() - i,
    {
        r.push(v[i].clone());
        proof {
            assert(r@ =~= v@.take(i + 1));
        }
        i = i + 1;
    }
    proof {
        assert(v@.take(i as int) =~= v@);
    }
    r
}

fn find_best(best: &Vec<(String, i64, Vec<String>)>, name: &String) -> (r: Option<usize>)
    ensures
        match r {
            Some(i) => i < best@.len() && best@[i as int].0@ == name@,
            None => !best_keys(best@).contains(name@),
        },
{
    let mut i: usize = 0;
    while i < best.len()
        invariant
            i <= best@.len(),
            forall|j: int| 0 <= j < i ==> best@[j].0@ != name@,
        decreases best@.len() - i,
    {
        if best[i].0 == *name {
            return Some(i);
        }
        i = i + 1;
    }
    proof {
        if best_keys(best@).contains(name@) {
            let j = choose|j: int| 0 <= j < best@.len() && best_keys(best@)[j] == name@;
            assert(best@[j].0@ == name@);
        }
    }
    None
}

/// Relax the neighbour `nb`, reached from the end of `path` over an edge of
/// strength `es`: record and queue the longer path when it is stronger than
/// the best one known for `nb` and does not revisit a tile.
fn visit(
    Ghost(ev): Ghost<Seq<EdgeView>>,
    Ghost(from): Ghost<Seq<char>>,
    Ghost(us): Ghost<Set<Seq<char>>>,
    Ghost(qe): Ghost<Seq<Seq<int>>>,
    Ghost(pe): Ghost<Seq<int>>,
    Ghost(j): Ghost<int>,
    Ghost(h): Ghost<nat>,
    path: &Vec<String>,
    cum: i64,
    nb: &String,
    es: i64,
    best: &mut Vec<(String, i64, Vec<String>)>,
    queue: &mut Vec<(Vec<String>, i64)>,
) -> (pushed: bool)
    requires
        search_inv(ev, from, us, queue_paths(old(queue)@), old(best)@),
        path_ok(ev, from, us, string_views(path@)),
        forall|x: Seq<char>| string_views(path@).contains(x) ==> best_keys(old(best)@).contains(x),
        linked(ev, string_views(path@).last(), nb@),
        us.contains(nb@),
        strength_inv(ev, from, old(queue)@, qe, old(best)@),
        is_edge_walk(ev, string_views(path@), pe),
        cum == walk_strength(ev, pe),
        joins(ev, j, string_views(path@).last(), nb@),
        es == ev[j].2,
        unit_strengths(ev) ==> 0 <= cum <= UNIT,
        unit_strengths(ev) ==> forall|x: Seq<char>|
            string_views(path@).contains(x) ==> label_at_least(old(best)@, x, cum as int),
    ensures
        strength_inv(ev, from, final(queue)@, if pushed { qe.push(pe.push(j)) } else { qe }, final(best)@),
        best_grows(old(best)@, final(best)@),
        unit_strengths(ev) ==> label_at_least(final(best)@, nb@, fixed_mul(cum, es)),
        old(queue)@.len() <= final(queue)@.len(),
        forall|i: int| 0 <= i < old(queue)@.len() ==> final(queue)@[i] == old(queue)@[i],
        search_view(final(queue)@, final(best)@, h) == relax(
            search_view(old(queue)@, old(best)@, h),
            string_views(path@),
            cum,
            nb@,
            es,
        ),
        search_inv(ev, from, us, queue_paths(final(queue)@), final(best)@),
        forall|x: Seq<char>| best_keys(old(best)@).contains(x) ==> best_keys(final(best)@).contains(x),
        best_keys(final(best)@).contains(nb@),
        pushed ==> !string_views(path@).contains(nb@) && queue_paths(final(queue)@) == queue_paths(
            old(queue)@,
        ).push(string_views(path@).push(nb@)),
        !pushed ==> final(queue)@ == old(queue)@,
{
    let ghost p = string_views(path@);
    let ghost qp0 = queue_paths(queue@);
    let ghost qv0 = queue@;
    let ghost b0 = best@;
    let ns = mul_fixed(cum, es);
    let idx = find_best(best, nb);
    let ghost st0 = search_view(queue@, best@, h);
    proof {
        lemma_best_index(best@, nb@);
        assert(fixed_mul(cum, es) as i64 == ns);
        match idx {
            Some(i) => {
                assert(best_index(st0.best, nb@) == i);
                assert(st0.best[i as int].1 == best@[i as int].1);
            },
            None => {
                assert(best_index(st0.best, nb@) == -1);
            },
        }
    }
    let should_visit = match idx {
        Some(i) => ns > best[i].1,
        None => true,
    };
    if should_visit && !contains_string(path.as_slice(), nb) {
        let mut np = clone_strings(path);
        np.push(nb.clone());
        let ghost npv = p.push(nb@);
        proof {
            assert(string_views(np@) =~= npv);
            assert(npv.no_duplicates());
            assert forall|i: int| 0 <= i < npv.len() - 1 implies #[trigger] step_linked(ev, npv, i) by {
                if i < p.len() - 1 {
                    assert(step_linked(ev, p, i));
                }
            }
            assert forall|x: Seq<char>| npv.contains(x) implies us.contains(x) by {
                if x != nb@ {
                    let k = choose|k: int| 0 <= k < npv.len() && npv[k] == x;
                    assert(p.contains(x) && p[k] == x);
                }
            }
            assert(path_ok(ev, from, us, npv));
        }
        let queued = clone_strings(&np);
        match idx {
            Some(i) => {
                best.set(i, (nb.clone(), ns, np));
            },
            None => {
                best.push((nb.clone(), ns, np));
            },
        }
        queue.push((queued, ns));
        proof {
            let qp = queue_paths(queue@);
            let b = best@;
            assert(qp =~= qp0.push(npv));
            assert forall|x: Seq<char>| best_keys(b0).contains(x) implies best_keys(b).contains(x) by {
                let k = choose|k: int| 0 <= k < b0.len() && best_keys(b0)[k] == x;
                assert(b[k].0@ == x);
                assert(best_keys(b)[k] == x);
            }
            let nk: int = match idx {
                Some(i) => i as int,
                None => b0.len() as int,
            };
            assert(b[nk].0@ == nb@);
            assert(best_keys(b)[nk] == nb@);
            assert forall|a: int, c: int| 0 <= a < c < b.len() implies (#[trigger] b[a]).0@ != (#[trigger] b[c]).0@ by {
                if a != nk && c != nk {
                    assert(b[a] == b0[a] && b[c] == b0[c]);
                } else if a == nk {
                    assert(b[c] == b0[c]);
                    if idx is None {
                        assert(false);
                    }
                    assert(best_keys(b0)[c] == b0[c].0@);
                } else {
                    assert(b[a] == b0[a]);
                    if idx is None {
                        assert(best_keys(b0)[a] == b0[a].0@);
                    }
                }
            }
            assert forall|k: int| 0 <= k < b.len() implies #[trigger] best_ok(ev, from, b[k]) by {
                if k != nk {
                    assert(b[k] == b0[k]);
                } else {
                    assert(string_views(b[k].2@) =~= npv);
                }
            }
            assert forall|q: int, x: Seq<char>| 0 <= q < qp.len() && #[trigger] qp[q].contains(x) implies best_keys(b).contains(x) by {
                if q < qp0.len() {
                    assert(qp[q] == qp0[q]);
                    assert(best_keys(b0).contains(x));
                } else {
                    if x != nb@ {
                        let k = choose|k: int| 0 <= k < npv.len() && npv[k] == x;
                        assert(p[k] == x);
                        assert(best_keys(b0).contains(x));
                    }
                }
            }
            assert forall|k: int| 0 <= k < b.len() implies exists|q: int| 0 <= q < qp.len() && #[trigger] qp[q].last() == (#[trigger] b[k]).0@ by {
                if k == nk {
                    assert(qp[qp0.len() as int].last() == b[k].0@);
                } else {
                    assert(b[k] == b0[k]);
                    let q = choose|q: int| 0 <= q < qp0.len() && #[trigger] qp0[q].last() == b0[k].0@;
                    assert(qp[q] == qp0[q]);
                }
            }
            assert forall|q: int| 0 <= q < qp.len() implies #[trigger] path_ok(ev, from, us, qp[q]) by {
                if q < qp0.len() {
                    assert(qp[q] == qp0[q]);
                }
            }
            assert(best_keys(b0).contains(from));
            assert(string_views(queue@[qv0.len() as int].0@) == npv);
            lemma_strength_after_push(ev, from, qv0, qe, b0, queue@, b, nk, p, pe, j, nb@, cum, ns);
            let st1 = relax(st0, p, cum, nb@, es);
            assert(queue_view(queue@) =~= st1.queue) by {
                assert(queue_view(queue@) =~= queue_view(qv0).push((npv, ns)));
            }
            assert(best_view(best@) =~= st1.best) by {
                match idx {
                    Some(i) => {
                        assert(best_view(best@) =~= best_view(b0).update(i as int, (nb@, ns, npv)));
                    },
                    None => {
                        assert(best_view(best@) =~= best_view(b0).push((nb@, ns, npv)));
                    },
                }
            }
        }
        true
    } else {
        proof {
            if idx is None {
                assert(p.contains(nb@));
                assert(best_keys(b0).contains(nb@));
            } else {
                let i = idx->0;
                assert(best_keys(b0)[i as int] == nb@);
            }
            assert forall|k: int| #![trigger b0[k]] 0 <= k < b0.len() implies b0[k].0@ == b0[k].0@ && b0[k].1 >= b0[k].1 by {
            }
            if unit_strengths(ev) {
                assert(0 <= ev[j].2 <= UNIT);
                lemma_fixed_mul_bounds(cum, es);
                if should_visit {
                    lemma_label_weaken(b0, nb@, cum as int, ns as int);
                } else {
                    let i = idx->0;
                    assert(b0[i as int].0@ == nb@);
                }
            }
        }
        false
    }
}

impl MemoryGraph {
    /// Find a path between two tiles, following edges in either direction.
    ///
    /// The search keeps, for each tile reached, the strongest path found so
    /// far (a path's strength being the fixed-point product of its edges'
    /// strengths, starting from `UNIT`), and explores every path that
    /// improves on it without revisiting a tile. The result is the path kept
    /// for `to`, or `[from]` when `to` is `from`; it is `None` exactly when
    /// no path joins the two tiles. When every edge's strength lies in
    /// `[0, UNIT]`, no walk between the two tiles is stronger than the result.
    /// Which path comes back among equally strong ones is fixed by the order
    /// of the search (`search_steps`): queued paths are expanded first in,
    /// first out; the edges at a path's end in the graph's order, each
    /// followed forward before backward; and a recorded path is replaced only
    /// by a strictly stronger one, so the first strongest path found is kept.
    #[verifier::rlimit(50)]
    pub fn strongest_path(&self, from: &str, to: &str) -> (r: Option<Vec<String>>)
        ensures
            from@ == to@ ==> r is Some && string_views(r->0@) == seq![from@],
            r is Some ==> is_simple_path(self.edges_view(), string_views(r->0@), from@, to@),
            r is None <==> !connected(self.edges_view(), from@, to@),
            unit_strengths(self.edges_view()) && r is Some ==> strongest_walk(
                self.edges_view(),
                string_views(r->0@),
                from@,
                to@,
            ),
            from@ != to@ ==> exists|steps: nat|
                search_done(#[trigger] search_steps(self.edges_view(), search_start(from@), steps))
                    && opt_path_view(r) == search_result(search_steps(self.edges_view(), search_start(from@), steps), to@),
    {
        let f = from.to_string();
        let t = to.to_string();
        if f == t {
            let v = vec![f];
            proof {
                assert(string_views(v@) =~= seq![from@]);
                assert(is_simple_path(self.edges_view(), string_views(v@), from@, to@));
                if unit_strengths(self.edges_view()) {
                    lemma_strongest_trivial(self.edges_view(), from@);
                }
            }
            return Some(v);
        }
        let ghost ev = self.edges_view();
        let ghost us = universe(ev, from@).to_set();
        let ghost n = us.len();
        let mut best: Vec<(String, i64, Vec<String>)> = Vec::new();
        best.push((f.clone(), UNIT, vec![f.clone()]));
        let mut queue: Vec<(Vec<String>, i64)> = Vec::new();
        queue.push((vec![f.clone()], UNIT));
        let ghost mut qe: Seq<Seq<int>> = seq![Seq::empty()];
        proof {
            let u = universe(ev, from@);
            assert(u[u.len() - 1] == from@);
            assert(us.contains(from@));
            let p0 = seq![from@];
            assert(string_views(best@[0].2@) =~= p0);
            assert(queue_paths(queue@) =~= seq![p0]);
            assert(best_keys(best@) =~= seq![from@]);
            assert(is_simple_path(ev, p0, from@, from@));
            assert forall|x: Seq<char>| p0.contains(x) implies us.contains(x) by {
                assert(p0[0] == x);
            }
            assert(path_ok(ev, from@, us, p0));
            assert(queue_paths(queue@)[0].last() == best@[0].0@);
            assert(string_views(queue@[0].0@) == p0);
            assert(entry_walk(ev, queue@[0], qe[0]));
            assert(source_of(queue@[0], best@[0]));
            assert(queued(queue@, best@[0]));
            assert(label_at_least(best@, from@, UNIT as int)) by {
                assert(best@[0].0@ == from@);
            }
            assert forall|i: int, x: Seq<char>|
                0 <= i < queue@.len() && #[trigger] string_views(queue@[i].0@).contains(x) implies label_at_least(
                best@,
                x,
                queue@[i].1 as int,
            ) by {
                assert(p0[0] == x);
            }
            assert(strength_inv(ev, from@, queue@, qe, best@));
            let s0 = search_view(queue@, best@, 0);
            assert(s0.queue =~= search_start(from@).queue);
            assert(s0.best =~= search_start(from@).best);
            assert(s0 == search_steps(ev, search_start(from@), 0));
        }
        let mut head: usize = 0;
        while head < queue.len()
            invariant
                head <= queue@.len(),
                ev == self.edges_view(),
                us == universe(ev, from@).to_set(),
                n == us.len(),
                search_inv(ev, from@, us, queue_paths(queue@), best@),
                closed_upto(ev, queue_paths(queue@), head as int, best_keys(best@)),
                strength_inv(ev, from@, queue@, qe, best@),
                closed_strength(ev, queue@, head as int, best@),
                search_view(queue@, best@, head as nat) == search_steps(ev, search_start(from@), head as nat),
            decreases weight_sum(ev, n, queue_paths(queue@).skip(head as int)),
        {
            let ghost q0 = queue_paths(queue@);
            let ghost h0 = head as int;
            let path = clone_strings(&queue[head].0);
            let cum = queue[head].1;
            head = head + 1;
            let ghost p = string_views(path@);
            let ghost pe = qe[h0];
            let ghost s1 = search_view(queue@, best@, head as nat);
            proof {
                let sh = search_steps(ev, search_start(from@), h0 as nat);
                assert(sh.queue[h0] == (p, cum));
                assert(s1 == SearchState { head: (h0 + 1) as nat, ..sh });
                assert(search_step(ev, sh) == relax_edges(ev, s1, p, cum, ev.len()));
                assert(search_steps(ev, search_start(from@), head as nat) == search_step(ev, sh));
                assert(entry_walk(ev, queue@[h0], qe[h0]));
                assert(string_views(queue@[h0].0@) == p);
                if unit_strengths(ev) {
                    assert(0 <= queue@[h0].1 <= UNIT);
                    assert forall|x: Seq<char>| p.contains(x) implies label_at_least(best@, x, cum as int) by {
                        assert(string_views(queue@[h0].0@).contains(x));
                    }
                }
                assert(p == q0[h0]);
                assert(path_ok(ev, from@, us, p));
                lemma_no_dup_subset_len(p, us);
                assert forall|x: Seq<char>| p.contains(x) implies best_keys(best@).contains(x) by {
                    assert(q0[h0].contains(x));
                }
            }
            let cur = path[path.len() - 1].clone();
            let ghost k: nat = (n - p.len()) as nat;
            let ghost mut added: Seq<Seq<Seq<char>>> = Seq::empty();
            let mut j: usize = 0;
            while j < self.edges.len()
                invariant
                    j <= self.edges@.len(),
                    ev == self.edges_view(),
                    us == universe(ev, from@).to_set(),
                    n == us.len(),
                    h0 + 1 == head,
                    0 <= h0 < q0.len(),
                    p == q0[h0],
                    p.len() <= n,
                    k == n - p.len(),
                    cur@ == p.last(),
                    path_ok(ev, from@, us, p),
                    string_views(path@) == p,
                    forall|x: Seq<char>| p.contains(x) ==> best_keys(best@).contains(x),
                    search_inv(ev, from@, us, queue_paths(queue@), best@),
                    queue_paths(queue@) == q0 + added,
                    closed_upto(ev, queue_paths(queue@), h0, best_keys(best@)),
                    forall|i: int| 0 <= i < j ==> (ev[i].0 == cur@ ==> best_keys(best@).contains(ev[i].1)) && (ev[i].1 == cur@ ==> best_keys(best@).contains(ev[i].0)),
                    k == 0 ==> added.len() == 0,
                    k > 0 ==> weight_sum(ev, n, added) <= slot_sum(ev, p, (k - 1) as nat, (2 * j) as nat),
                    strength_inv(ev, from@, queue@, qe, best@),
                    is_edge_walk(ev, p, pe),
                    cum == walk_strength(ev, pe),
                    h0 < queue@.len(),
                    queue@[h0].1 == cum,
                    unit_strengths(ev) ==> 0 <= cum <= UNIT,
                    unit_strengths(ev) ==> forall|x: Seq<char>| p.contains(x) ==> label_at_least(best@, x, cum as int),
                    closed_strength(ev, queue@, h0, best@),
                    unit_strengths(ev) ==> forall|i: int| 0 <= i < j ==> #[trigger] relaxed(ev, best@, cur@, cum, i),
                    search_view(queue@, best@, head as nat) == relax_edges(ev, s1, p, cum, j as nat),
                    search_steps(ev, search_start(from@), head as nat) == relax_edges(ev, s1, p, cum, ev.len()),
                decreases self.edges@.len() - j,
            {
                let ghost keys0 = best_keys(best@);
                let ghost qa = queue_paths(queue@);
                let ghost added0 = added;
                let ghost b_s = best@;
                let ghost q_s = queue@;
                let ghost sv_s = search_view(queue@, best@, head as nat);
                let e = &self.edges[j];
                proof {
                    assert(ev[j as int] == (e.0@, e.1@, e.2));
                    lemma_universe(ev, from@, j as int);
                }
                if e.0 == cur {
                    proof {
                        assert(linked(ev, p.last(), e.1@));
                    }
                    let pushed = visit(
                        Ghost(ev),
                        Ghost(from@),
                        Ghost(us),
                        Ghost(qe),
                        Ghost(pe),
                        Ghost(j as int),
                        Ghost(head as nat),
                        &path,
                        cum,
                        &e.1,
                        e.2,
                        &mut best,
                        &mut queue,
                    );
                    proof {
                        if pushed {
                            qe = qe.push(pe.push(j as int));
                            added = added.push(p.push(e.1@));
                            assert(queue_paths(queue@) =~= q0 + added);
                            let c = p.push(e.1@);
                            assert(c.no_duplicates());
                            assert forall|x: Seq<char>| c.contains(x) implies us.contains(x) by {
                                if x != e.1@ {
                                    let i = choose|i: int| 0 <= i < c.len() && c[i] == x;
                                    assert(p[i] == x);
                                }
                            }
                            lemma_no_dup_subset_len(c, us);
                            assert(added.drop_last() == added0);
                        }
                    }
                } else {
                    proof {
                        lemma_grows_refl(best@);
                    }
                }
                let ghost keys1 = best_keys(best@);
                let ghost added1 = added;
                let ghost b_1 = best@;
                let ghost q_1 = queue@;
                let ghost sv_1 = search_view(queue@, best@, head as nat);
                proof {
                    assert(sv_1 == if ev[j as int].0 == p.last() {
                        relax(sv_s, p, cum, ev[j as int].1, ev[j as int].2)
                    } else {
                        sv_s
                    });
                }
                if e.1 == cur {
                    proof {
                        assert(linked(ev, p.last(), e.0@));
                        if unit_strengths(ev) {
                            lemma_path_labels_grow(b_s, b_1, p, cum as int);
                        }
                    }
                    let pushed = visit(
                        Ghost(ev),
                        Ghost(from@),
                        Ghost(us),
                        Ghost(qe),
                        Ghost(pe),
                        Ghost(j as int),
                        Ghost(head as nat),
                        &path,
                        cum,
                        &e.0,
                        e.2,
                        &mut best,
                        &mut queue,
                    );
                    proof {
                        if pushed {
                            qe = qe.push(pe.push(j as int));
                            added = added.push(p.push(e.0@));
                            assert(queue_paths(queue@) =~= q0 + added);
                            let c = p.push(e.0@);
                            assert(c.no_duplicates());
                            assert forall|x: Seq<char>| c.contains(x) implies us.contains(x) by {
                                if x != e.0@ {
                                    let i = choose|i: int| 0 <= i < c.len() && c[i] == x;
                                    assert(p[i] == x);
                                }
                            }
                            lemma_no_dup_subset_len(c, us);
                            assert(added.drop_last() == added1);
                        }
                    }
                } else {
                    proof {
                        lemma_grows_refl(best@);
                    }
                }
                proof {
                    assert(search_view(queue@, best@, head as nat) == if ev[j as int].1 == p.last() {
                        relax(sv_1, p, cum, ev[j as int].0, ev[j as int].2)
                    } else {
                        sv_1
                    });
                    assert(search_view(queue@, best@, head as nat) == relax_edge(ev, sv_s, p, cum, j as int));
                    lemma_grows_trans(b_s, b_1, best@);
                    assert forall|i: int| 0 <= i < q_s.len() implies queue@[i] == q_s[i] by {
                        assert(q_1[i] == q_s[i]);
                    }
                    lemma_closed_grows(ev, q_s, queue@, h0, b_s, best@);
                    if unit_strengths(ev) {
                        lemma_path_labels_grow(b_s, best@, p, cum as int);
                        assert forall|i: int| 0 <= i < j + 1 implies #[trigger] relaxed(ev, best@, cur@, cum, i) by {
                            if i < j {
                                assert(relaxed(ev, b_s, cur@, cum, i));
                                lemma_relaxed_grows(ev, b_s, best@, cur@, cum, i);
                            } else {
                                if ev[i].0 == cur@ {
                                    assert(label_at_least(b_1, ev[i].1, fixed_mul(cum, ev[i].2)));
                                    lemma_label_grows(b_1, best@, ev[i].1, fixed_mul(cum, ev[i].2));
                                }
                            }
                        }
                    }
                }
                proof {
                    let keys = best_keys(best@);
                    // keys only grow
                    assert forall|x: Seq<char>| keys0.contains(x) implies keys.contains(x) by {
                        assert(keys1.contains(x));
                    }
                    assert forall|q: int, y: Seq<char>| 0 <= q < h0 && #[trigger] linked(ev, queue_paths(queue@)[q].last(), y) implies #[trigger] keys.contains(y) by {
                        assert(queue_paths(queue@)[q] == qa[q]);
                        assert(keys0.contains(y));
                    }
                    assert forall|i: int| 0 <= i < j + 1 implies (ev[i].0 == cur@ ==> keys.contains(ev[i].1)) && (ev[i].1 == cur@ ==> keys.contains(ev[i].0)) by {
                        if i < j {
                            if ev[i].0 == cur@ {
                                assert(keys0.contains(ev[i].1));
                            }
                            if ev[i].1 == cur@ {
                                assert(keys0.contains(ev[i].0));
                            }
                        } else {
                            if ev[i].0 == cur@ {
                                assert(keys1.contains(ev[i].1));
                            }
                        }
                    }
                    if k > 0 {
                        let kk = (k - 1) as nat;
                        let m = (2 * j) as nat;
                        assert(slot_sum(ev, p, kk, m + 2) == slot_sum(ev, p, kk, m + 1) + match slot_child(ev, p.last(), (m + 1) as int) {
                            Some(c) => if p.contains(c) { 0 } else { weight(ev, p.push(c), kk) },
                            None => 0,
                        });
                        assert(slot_sum(ev, p, kk, m + 1) == slot_sum(ev, p, kk, m) + match slot_child(ev, p.last(), m as int) {
                            Some(c) => if p.contains(c) { 0 } else { weight(ev, p.push(c), kk) },
                            None => 0,
                        });
                        assert((m as int) / 2 == j && (m as int) % 2 == 0);
                        assert((m + 1) / 2 == j && (m + 1) % 2 == 1);
                        let w1 = weight_sum(ev, n, added1) - weight_sum(ev, n, added0);
                        let w2 = weight_sum(ev, n, added) - weight_sum(ev, n, added1);
                        assert(w1 <= match slot_child(ev, p.last(), m as int) {
                            Some(c) => if p.contains(c) { 0 } else { weight(ev, p.push(c), kk) },
                            None => 0,
                        }) by {
                            if added1 != added0 {
                                assert(added1 == added0.push(p.push(e.1@)));
                                assert(added1.drop_last() == added0);
                                assert(p.push(e.1@).len() == p.len() + 1);
                            }
                        }
                        assert(w2 <= match slot_child(ev, p.last(), (m + 1) as int) {
                            Some(c) => if p.contains(c) { 0 } else { weight(ev, p.push(c), kk) },
                            None => 0,
                        }) by {
                            if added != added1 {
                                assert(added == added1.push(p.push(e.0@)));
                                assert(added.drop_last() == added1);
                                assert(p.push(e.0@).len() == p.len() + 1);
                            }
                        }
                    }
                }
                j = j + 1;
            }
            proof {
                let qp = queue_paths(queue@);
                let keys = best_keys(best@);
                assert forall|q: int, y: Seq<char>| 0 <= q < head && #[trigger] linked(ev, qp[q].last(), y) implies #[trigger] keys.contains(y) by {
                    if q == h0 {
                        assert(qp[q] == p);
                        let i = choose|i: int| 0 <= i < ev.len() && ((ev[i].0 == p.last() && ev[i].1 == y) || (ev[i].0 == y && ev[i].1 == p.last()));
                    }
                }
                if unit_strengths(ev) {
                    assert forall|qi: int, i: int| 0 <= qi < head && 0 <= i < ev.len() implies #[trigger] relaxed(
                        ev,
                        best@,
                        string_views(queue@[qi].0@).last(),
                        queue@[qi].1,
                        i,
                    ) by {
                        if qi == h0 {
                            assert(qp[h0] == p);
                            assert(relaxed(ev, best@, cur@, cum, i));
                        }
                    }
                }
                assert(qp.skip(head as int) =~= q0.skip(head as int) + added);
                lemma_weight_sum_append(ev, n, q0.skip(head as int), added);
                lemma_weight_sum_front(ev, n, q0.skip(h0));
                assert(q0.skip(h0).drop_first() =~= q0.skip(head as int));
                assert(q0.skip(h0)[0] == p);
            }
        }
        let idx = find_best(&best, &t);
        match idx {
            Some(i) => {
                let r = clone_strings(&best[i].2);
                proof {
                    lemma_best_index(best@, to@);
                    let sf = search_steps(ev, search_start(from@), head as nat);
                    assert(search_done(sf));
                    assert(best_index(sf.best, to@) == i);
                    assert(opt_path_view(Some(r)) == search_result(sf, to@));
                    assert(best_ok(ev, from@, best@[i as int]));
                    if unit_strengths(ev) {
                        lemma_strongest_recorded(ev, from@, to@, queue@, qe, best@, i as int);
                    }
                }
                Some(r)
            },
            None => {
                proof {
                    lemma_best_index(best@, to@);
                    let sf = search_steps(ev, search_start(from@), head as nat);
                    assert(search_done(sf));
                    assert(opt_path_view(None) == search_result(sf, to@));
                    let keys = best_keys(best@);
                    let qp = queue_paths(queue@);
                    assert forall|kx: Seq<char>, y: Seq<char>| keys.contains(kx) && #[trigger] linked(ev, kx, y) implies #[trigger] keys.contains(y) by {
                        let b = choose|b: int| 0 <= b < best@.len() && keys[b] == kx;
                        assert(best@[b].0@ == kx);
                        let q = choose|q: int| 0 <= q < qp.len() && #[trigger] qp[q].last() == best@[b].0@;
                        assert(linked(ev, qp[q].last(), y));
                    }
                    if connected(ev, from@, to@) {
                        let pth = choose|pth: Seq<Seq<char>>| is_simple_path(ev, pth, from@, to@);
                        lemma_closed_reaches(ev, keys, pth);
                    }
                }
                None
            },
        }
    }
}

} // verus!
