//! Properties that hold across the operations of the library.
use vstd::prelude::*;

use crate::fixed::{clamp, UNIT};
use crate::graph::{edge_views, is_edge, keeps_edge, without_edges, EdgeView};
use crate::order::{is_rank_order, lemma_rank_order_complete};
use crate::search::{connected, is_simple_path, linked, step_linked};
use crate::store::{
    after_store, first_in_order, ids_distinct, importance_keys, lemma_lowest_index, lemma_position_of,
    lowest_index, position_of, pressure_of, touched,
};
use crate::consolidator::{
    apply_members, cluster_of, connect_all, consolidation_run, dream_view, importance_total, is_present, joins_cluster,
    present_contents, similar, tile_of, view_ids, Consolidation,
};
use crate::fixed::trunc_div;
use crate::graph::{cluster_strength, edges_within, strength_sum};
use crate::text::{decimal, occurs_in};
use crate::tile_type::display_of;
use crate::store::{passes, query_pred, view_position};
use crate::query::{query_accepts, result_size, selected, MemoryQuery};
use crate::tile::{connected_view, decayed_view, string_views, TileView};
use crate::tile::{decayed, reinforced, MemoryTile};
use crate::tile_type::{tile_type_eq, TileType};

verus! {

broadcast use vstd::seq_lib::group_seq_properties;

/// Decaying by a non-negative rate and reinforcing by a non-negative amount
/// keep an importance score within `[0, UNIT]`.
pub proof fn law_importance_stays_in_range(importance: i64, amount: i64)
    requires
        0 <= importance <= UNIT,
        amount >= 0,
    ensures
        0 <= decayed(importance, amount) <= UNIT,
        0 <= reinforced(importance, amount) <= UNIT,
{
}

/// Decaying never drops importance below zero, and reinforcing never raises
/// it above `UNIT`.
pub proof fn law_decay_floor_and_reinforce_cap(importance: i64, amount: i64)
    ensures
        decayed(importance, amount) >= 0,
        reinforced(importance, amount) <= UNIT,
{
}

/// Importance after `n` decays by `rate`.
pub open spec fn decayed_times(importance: i64, rate: i64, n: nat) -> i64
    decreases n,
{
    if n == 0 {
        importance
    } else {
        decayed(decayed_times(importance, rate, (n - 1) as nat), rate)
    }
}

/// Linear decay with a floor: after `n` decays by a non-negative rate, the
/// importance is `max(0, importance - n * rate)`.
pub proof fn law_repeated_decay(importance: i64, rate: i64, n: nat)
    requires
        importance >= 0,
        rate >= 0,
    ensures
        decayed_times(importance, rate, n) == (if importance - n * rate < 0 {
            0
        } else {
            importance - n * rate
        }),
    decreases n,
{
    if n > 0 {
        let m = (n - 1) as nat;
        law_repeated_decay(importance, rate, m);
        let r = rate as int;
        assert(n * r == m * r + r) by (nonlinear_arith)
            requires
                n == m + 1,
        ;
        assert(m * r >= 0) by (nonlinear_arith)
            requires
                r >= 0,
        ;
        let x = decayed_times(importance, rate, m);
        assert(x >= 0);
        assert(decayed_times(importance, rate, n) == decayed(x, rate));
        if importance - m * r < 0 {
            assert(x == 0);
            assert(importance - n * r < 0);
            assert(decayed(x, rate) == 0);
        } else {
            assert(x == importance - m * r);
            assert(x - rate == importance - n * r);
            assert(x - rate >= i64::MIN);
        }
    } else {
        assert(n * rate == 0) by (nonlinear_arith)
            requires
                n == 0,
        ;
    }
}

/// A tile never is both externally observable and internal.
pub proof fn law_observable_and_internal_exclusive(t: TileType)
    ensures
        !((t is Observation || t is Action || t is Signal || t is Response) && (t is Thought || t is Decision
            || t is Dream)),
{
}

/// Equality of tile types is reflexive, symmetric and transitive.
pub proof fn law_tile_type_eq_is_equivalence(a: TileType, b: TileType, c: TileType)
    ensures
        tile_type_eq(a, a),
        tile_type_eq(a, b) ==> tile_type_eq(b, a),
        tile_type_eq(a, b) && tile_type_eq(b, c) ==> tile_type_eq(a, c),
{
}

/// A stored tile can be read back: after storing `t` at time `now`, the
/// store holds exactly one tile with `t`'s id, namely `t` touched at `now`,
/// and ids stay distinct.
pub proof fn law_store_then_read(s: Seq<MemoryTile>, max: nat, t: MemoryTile, now: u64)
    requires
        ids_distinct(s),
    ensures
        ids_distinct(after_store(s, max, t, now)),
        position_of(after_store(s, max, t, now), t.id@) >= 0,
        after_store(s, max, t, now)[position_of(after_store(s, max, t, now), t.id@)] == touched(t, now),
{
    lemma_position_of(s, t.id@);
    let r = after_store(s, max, t, now);
    let i = position_of(s, t.id@);
    let base = if i >= 0 {
        s
    } else if s.len() >= max && s.len() > 0 {
        s.remove(lowest_index(s))
    } else {
        s
    };
    if i < 0 && s.len() >= max && s.len() > 0 {
        lemma_lowest_index(s);
    }
    assert(ids_distinct(r)) by {
        assert forall|a: int, b: int| 0 <= a < b < r.len() implies (#[trigger] r[a]).id@ != (#[trigger] r[b]).id@ by {
            if i >= 0 {
                if a != i && b != i {
                    assert(r[a] == s[a] && r[b] == s[b]);
                } else if a == i {
                    assert(r[b] == s[b]);
                } else {
                    assert(r[a] == s[a]);
                }
            } else if s.len() >= max && s.len() > 0 {
                let l = lowest_index(s);
                let a0 = if a < l { a } else { a + 1 };
                if b == r.len() - 1 {
                    assert(r[a] == s[a0]);
                } else {
                    let b0 = if b < l { b } else { b + 1 };
                    assert(r[a] == s[a0] && r[b] == s[b0]);
                }
            } else {
                if b == r.len() - 1 {
                    assert(r[a] == s[a]);
                } else {
                    assert(r[a] == s[a] && r[b] == s[b]);
                }
            }
        }
    }
    lemma_position_of(r, t.id@);
    if i >= 0 {
        assert(r[i].id@ == t.id@);
    } else {
        assert(r[r.len() - 1].id@ == t.id@);
    }
}

/// The store respects its capacity: storing into a store of positive
/// capacity that is within it keeps it within it. The number of tiles grows
/// by one exactly when the tile's id is new and the store is below capacity;
/// otherwise it stays the same.
pub proof fn law_store_respects_capacity(s: Seq<MemoryTile>, max: nat, t: MemoryTile, now: u64)
    requires
        ids_distinct(s),
        0 < max,
        s.len() <= max,
    ensures
        after_store(s, max, t, now).len() <= max,
        after_store(s, max, t, now).len() == if position_of(s, t.id@) < 0 && s.len() < max {
            s.len() + 1
        } else {
            s.len()
        },
{
    lemma_position_of(s, t.id@);
    if position_of(s, t.id@) < 0 && s.len() >= max {
        lemma_lowest_index(s);
    }
}

/// Eviction takes the least important tile: when a new id arrives at a full
/// store, the one tile that leaves has an importance no higher than any
/// other, and every other tile stays, in order.
pub proof fn law_eviction_takes_least_important(s: Seq<MemoryTile>, max: nat, t: MemoryTile, now: u64)
    requires
        ids_distinct(s),
        position_of(s, t.id@) < 0,
        s.len() >= max,
        s.len() > 0,
    ensures
        ({
            let l = lowest_index(s);
            &&& 0 <= l < s.len()
            &&& forall|j: int| 0 <= j < s.len() ==> s[l].importance <= #[trigger] s[j].importance
            &&& after_store(s, max, t, now) == s.remove(l).push(touched(t, now))
        }),
{
    lemma_lowest_index(s);
}

/// Query and ranking results come most important first: the tiles picked by
/// a rank order of importance are in non-increasing importance.
pub proof fn law_ranked_by_importance(s: Seq<MemoryTile>, order: Seq<usize>, n: nat)
    requires
        is_rank_order(importance_keys(s), order),
    ensures
        forall|i: int, j: int|
            0 <= i < j < first_in_order(s, order, n).len() ==> (#[trigger] first_in_order(s, order, n)[i]).importance
                >= (#[trigger] first_in_order(s, order, n)[j]).importance,
        first_in_order(s, order, n).len() == if n < s.len() { n as int } else { s.len() as int },
{
    let r = first_in_order(s, order, n);
    assert forall|i: int, j: int| 0 <= i < j < r.len() implies (#[trigger] r[i]).importance >= (#[trigger] r[j]).importance by {
        assert(r[i] == s[order[i] as int]);
        assert(r[j] == s[order[j] as int]);
        assert(importance_keys(s)[order[i] as int] == s[order[i] as int].importance as i128);
        assert(importance_keys(s)[order[j] as int] == s[order[j] as int].importance as i128);
    }
}

/// Path search treats edges as undirected: a path leads from `a` to `b`
/// exactly when one leads from `b` to `a`.
pub proof fn law_connected_symmetric(ev: Seq<EdgeView>, a: Seq<char>, b: Seq<char>)
    ensures
        connected(ev, a, b) <==> connected(ev, b, a),
{
    if connected(ev, a, b) {
        let p = choose|p: Seq<Seq<char>>| is_simple_path(ev, p, a, b);
        lemma_reverse_path(ev, p, a, b);
    }
    if connected(ev, b, a) {
        let p = choose|p: Seq<Seq<char>>| is_simple_path(ev, p, b, a);
        lemma_reverse_path(ev, p, b, a);
    }
}

proof fn lemma_reverse_path(ev: Seq<EdgeView>, p: Seq<Seq<char>>, a: Seq<char>, b: Seq<char>)
    requires
        is_simple_path(ev, p, a, b),
    ensures
        is_simple_path(ev, p.reverse(), b, a),
{
    let q = p.reverse();
    let n = p.len();
    assert forall|i: int| 0 <= i < q.len() - 1 implies #[trigger] step_linked(ev, q, i) by {
        assert(step_linked(ev, p, n - 2 - i));
        assert(q[i] == p[n - 1 - i]);
        assert(q[i + 1] == p[n - 2 - i]);
        let k = choose|k: int|
            0 <= k < ev.len() && ((ev[k].0 == p[n - 2 - i] && ev[k].1 == p[n - 1 - i]) || (ev[k].0 == p[n - 1 - i]
                && ev[k].1 == p[n - 2 - i]));
        assert(linked(ev, q[i], q[i + 1]));
    }
    assert(q.no_duplicates()) by {
        assert forall|i: int, j: int| 0 <= i < q.len() && 0 <= j < q.len() && i != j implies q[i] != q[j] by {
            assert(q[i] == p[n - 1 - i] && q[j] == p[n - 1 - j]);
        }
    }
    assert(q[0] == p[n - 1]);
    assert(q.last() == p[0]);
}

/// Disconnecting removes every edge between the two tiles in that direction
/// and keeps all others, in order.
pub proof fn law_disconnect_removes(e: Seq<(String, String, i64)>, from: Seq<char>, to: Seq<char>)
    ensures
        forall|i: int|
            0 <= i < without_edges(e, from, to).len() ==> !is_edge(
                #[trigger] edge_views(without_edges(e, from, to))[i],
                from,
                to,
            ),
{
    let pred = keeps_edge(from, to);
    let f = e.filter(pred);
    assert forall|i: int| 0 <= i < f.len() implies !is_edge(#[trigger] edge_views(f)[i], from, to) by {
        e.lemma_filter_pred(pred, i);
    }
}

/// A filter that every element passes keeps the whole sequence.
proof fn lemma_filter_keeps_all<A>(s: Seq<A>, p: spec_fn(A) -> bool)
    requires
        forall|i: int| 0 <= i < s.len() ==> p(#[trigger] s[i]),
    ensures
        s.filter(p) == s,
    decreases s.len(),
{
    if s.len() > 0 {
        let d = s.drop_last();
        lemma_filter_keeps_all(d, p);
        d.lemma_filter_push(s.last(), p);
        assert(d.push(s.last()) =~= s);
    }
}

/// Connecting a new pair and then disconnecting it gives the edges back:
/// when no edge led from `from` to `to`, and the edges are the old ones with
/// that edge appended (as `connect` leaves them), removing the pair (as
/// `disconnect` does) leaves exactly the old edges, in order.
pub proof fn law_connect_then_disconnect(
    e0: Seq<(String, String, i64)>,
    e1: Seq<(String, String, i64)>,
    from: Seq<char>,
    to: Seq<char>,
    strength: i64,
)
    requires
        forall|i: int| 0 <= i < e0.len() ==> !is_edge(#[trigger] edge_views(e0)[i], from, to),
        edge_views(e1) == edge_views(e0).push((from, to, strength)),
    ensures
        edge_views(without_edges(e1, from, to)) == edge_views(e0),
{
    let pred = keeps_edge(from, to);
    assert(edge_views(e1).len() == e1.len() && edge_views(e0).len() == e0.len());
    assert(e1.len() == e0.len() + 1);
    let d = e1.drop_last();
    assert(d.push(e1.last()) =~= e1);
    d.lemma_filter_push(e1.last(), pred);
    assert(edge_views(e1)[e0.len() as int] == (e1.last().0@, e1.last().1@, e1.last().2));
    assert(!pred(e1.last()));
    assert forall|i: int| 0 <= i < d.len() implies pred(#[trigger] d[i]) by {
        assert(edge_views(e1)[i] == edge_views(e0)[i]);
        assert(!is_edge(edge_views(e0)[i], from, to));
    }
    lemma_filter_keeps_all(d, pred);
    assert(edge_views(d) =~= edge_views(e0)) by {
        assert forall|i: int| 0 <= i < d.len() implies edge_views(d)[i] == edge_views(e0)[i] by {
            assert(edge_views(e1)[i] == edge_views(e0)[i]);
        }
    }
}

/// Listing the elements of `s` in an order that names each position once
/// gives the same elements, each as many times.
proof fn lemma_permutation_multiset<A>(s: Seq<A>, order: Seq<usize>)
    requires
        s.len() <= usize::MAX,
        order.len() == s.len(),
        order.no_duplicates(),
        forall|i: int| 0 <= i < order.len() ==> #[trigger] order[i] < s.len(),
        forall|x: usize| x < s.len() ==> #[trigger] order.contains(x),
    ensures
        order.map_values(|i: usize| s[i as int]).to_multiset() == s.to_multiset(),
    decreases s.len(),
{
    broadcast use vstd::seq_lib::group_to_multiset_ensures;

    let m = order.map_values(|i: usize| s[i as int]);
    if s.len() == 0 {
        assert(m =~= s);
    } else {
        let last = (s.len() - 1) as usize;
        assert(order.contains(last));
        let p = choose|p: int| 0 <= p < order.len() && order[p] == last;
        let o2 = order.remove(p);
        let s2 = s.drop_last();
        assert forall|i: int| 0 <= i < o2.len() implies #[trigger] o2[i] < s2.len() by {
            if i < p {
                assert(o2[i] == order[i] && order[i] != order[p]);
            } else {
                assert(o2[i] == order[i + 1] && order[i + 1] != order[p]);
            }
        }
        assert(o2.no_duplicates()) by {
            assert forall|i: int, j: int| 0 <= i < o2.len() && 0 <= j < o2.len() && i != j implies o2[i] != o2[j] by {
                let a = if i < p { i } else { i + 1 };
                let b = if j < p { j } else { j + 1 };
                assert(o2[i] == order[a] && o2[j] == order[b]);
            }
        }
        assert forall|x: usize| x < s2.len() implies #[trigger] o2.contains(x) by {
            assert(order.contains(x));
            let k = choose|k: int| 0 <= k < order.len() && order[k] == x;
            assert(k != p);
            if k < p {
                assert(o2[k] == x);
            } else {
                assert(o2[k - 1] == x);
            }
        }
        lemma_permutation_multiset(s2, o2);
        let m2 = o2.map_values(|i: usize| s2[i as int]);
        assert(m.remove(p) =~= m2) by {
            assert forall|i: int| 0 <= i < m2.len() implies m.remove(p)[i] == m2[i] by {
                if i < p {
                    assert(o2[i] == order[i]);
                } else {
                    assert(o2[i] == order[i + 1]);
                }
            }
        }
        assert(m[p] == s.last());
        assert(m.remove(p).to_multiset() =~= m.to_multiset().remove(s.last()));
        assert(s2.push(s.last()) =~= s);
        assert(s.to_multiset() =~= s2.to_multiset().insert(s.last()));
        assert(m.contains(s.last()));
        assert(m.to_multiset().count(s.last()) > 0);
        assert(m.to_multiset() =~= m.to_multiset().remove(s.last()).insert(s.last()));
    }
}

/// A filter that lets through no more than another keeps, of each element,
/// no more copies.
proof fn lemma_filter_sub_multiset<A>(s: Seq<A>, narrow: spec_fn(A) -> bool, wide: spec_fn(A) -> bool)
    requires
        forall|x: A| #[trigger] narrow(x) ==> wide(x),
    ensures
        s.filter(narrow).to_multiset().subset_of(s.filter(wide).to_multiset()),
    decreases s.len(),
{
    broadcast use vstd::seq_lib::group_to_multiset_ensures;

    if s.len() == 0 {
        assert(s.filter(narrow) =~= Seq::<A>::empty()) by {
            reveal(Seq::filter);
        }
        assert(s.filter(wide) =~= Seq::<A>::empty()) by {
            reveal(Seq::filter);
        }
    } else {
        let d = s.drop_last();
        lemma_filter_sub_multiset(d, narrow, wide);
        assert(d.push(s.last()) =~= s);
        d.lemma_filter_push(s.last(), narrow);
        d.lemma_filter_push(s.last(), wide);
    }
}

/// The room, tile type and least importance of a query as `MemoryStore::query`
/// takes them.
pub open spec fn query_room(q: MemoryQuery) -> Option<Seq<char>> {
    match q.room_id {
        Some(r) => Some(r@),
        None => None,
    }
}

/// A query that sets only the room, tile type and importance filters and no
/// limit returns the tiles that `MemoryStore::query` returns with the same
/// filters, each as many times (only their order may differ).
pub proof fn law_execute_matches_query(q: MemoryQuery, s: Seq<MemoryTile>, order: Seq<usize>)
    requires
        q.agent_id is None,
        q.time_range is None,
        q.content_contains is None,
        q.limit is None,
        s.len() <= usize::MAX,
        is_rank_order(importance_keys(selected(q, s)), order),
    ensures
        first_in_order(selected(q, s), order, result_size(q, selected(q, s).len())).to_multiset() == s.filter(
            |t: MemoryTile| passes(t, query_room(q), q.tile_type, q.min_importance),
        ).to_multiset(),
{
    let sel = selected(q, s);
    let p1 = |t: MemoryTile| query_accepts(q, t);
    let p2 = |t: MemoryTile| passes(t, query_room(q), q.tile_type, q.min_importance);
    assert(p1 =~= p2);
    s.lemma_filter_len(p1);
    lemma_rank_order_complete(importance_keys(sel), order);
    assert(order.take(order.len() as int) =~= order);
    lemma_permutation_multiset(sel, order);
}

/// A narrower query returns no tile more often than a wider one: when every
/// tile that `narrow` selects is selected by `wide`, and neither has a limit,
/// the results of `narrow` are among the results of `wide`.
pub proof fn law_narrower_query_selects_fewer(
    narrow: MemoryQuery,
    wide: MemoryQuery,
    s: Seq<MemoryTile>,
    narrow_order: Seq<usize>,
    wide_order: Seq<usize>,
)
    requires
        forall|t: MemoryTile| query_accepts(narrow, t) ==> query_accepts(wide, t),
        narrow.limit is None,
        wide.limit is None,
        s.len() <= usize::MAX,
        is_rank_order(importance_keys(selected(narrow, s)), narrow_order),
        is_rank_order(importance_keys(selected(wide, s)), wide_order),
    ensures
        first_in_order(selected(narrow, s), narrow_order, result_size(narrow, selected(narrow, s).len())).to_multiset().subset_of(
            first_in_order(selected(wide, s), wide_order, result_size(wide, selected(wide, s).len())).to_multiset(),
        ),
{
    let sn = selected(narrow, s);
    let sw = selected(wide, s);
    s.lemma_filter_len(|t: MemoryTile| query_accepts(narrow, t));
    s.lemma_filter_len(|t: MemoryTile| query_accepts(wide, t));
    lemma_rank_order_complete(importance_keys(sn), narrow_order);
    lemma_rank_order_complete(importance_keys(sw), wide_order);
    assert(narrow_order.take(narrow_order.len() as int) =~= narrow_order);
    assert(wide_order.take(wide_order.len() as int) =~= wide_order);
    lemma_permutation_multiset(sn, narrow_order);
    lemma_permutation_multiset(sw, wide_order);
    lemma_filter_sub_multiset(s, |t: MemoryTile| query_accepts(narrow, t), |t: MemoryTile| query_accepts(wide, t));
}

/// Memory pressure runs from 0 for an empty store to `UNIT` for a full one.
pub proof fn law_pressure_bounds(len: nat, max: nat)
    requires
        0 < max,
        len <= max,
    ensures
        0 <= pressure_of(len, max) <= UNIT,
        len == 0 ==> pressure_of(len, max) == 0,
        len == max ==> pressure_of(len, max) == UNIT,
{
    let u = UNIT as int;
    assert(0 <= (len * u) / (max as int) <= u) by (nonlinear_arith)
        requires
            0 < max,
            len <= max,
            u > 0,
    ;
    if len == max {
        assert((len * u) / (max as int) == u) by (nonlinear_arith)
            requires
                0 < max,
                len == max,
        ;
    }
    if len == 0 {
        assert((len * u) / (max as int) == 0) by (nonlinear_arith)
            requires
                0 < max,
                len == 0,
        ;
    }
}

/// Connecting a tile keeps its connections free of repeats.
pub proof fn law_connections_stay_distinct(conns: Seq<Seq<char>>, id: Seq<char>)
    requires
        conns.no_duplicates(),
    ensures
        (if conns.contains(id) {
            conns
        } else {
            conns.push(id)
        }).no_duplicates(),
{
}

proof fn lemma_filter_excludes(s: Seq<Seq<char>>, pred: spec_fn(Seq<char>) -> bool, x: Seq<char>)
    requires
        s.contains(x),
        !pred(x),
    ensures
        s.filter(pred).len() < s.len(),
    decreases s.len(),
{
    let t = s.drop_last();
    assert(t.push(s.last()) =~= s);
    t.lemma_filter_push(s.last(), pred);
    t.lemma_filter_len(pred);
    if s.last() != x {
        let i = choose|i: int| 0 <= i < s.len() && s[i] == x;
        assert(t[i] == x);
        lemma_filter_excludes(t, pred, x);
    }
}

/// A cluster never holds more members than there are ids.
proof fn lemma_cluster_size(ids: Seq<Seq<char>>, st: Consolidation, key: Seq<char>, tile: TileView)
    requires
        ids.contains(key),
    ensures
        cluster_of(ids, st, key, tile).len() <= ids.len(),
{
    let pred = joins_cluster(st, key, tile);
    lemma_filter_excludes(ids, pred, key);
}

/// When the minimum cluster size exceeds the number of tiles, consolidation
/// changes nothing and creates no dream.
pub proof fn law_no_consolidation_below_cluster_size(
    min: nat,
    rate: i64,
    max: nat,
    clock: spec_fn(nat) -> u64,
    tiles: Seq<TileView>,
    k: nat,
)
    requires
        min > tiles.len(),
        k <= tiles.len(),
    ensures
        consolidation_run(min, rate, max, tiles.map_values(|t: TileView| t.id), clock, tiles, k) == (Consolidation {
            tiles,
            clustered: Set::empty(),
            created: Seq::empty(),
            used: 0,
        }),
    decreases k,
{
    let ids = tiles.map_values(|t: TileView| t.id);
    if k > 0 {
        law_no_consolidation_below_cluster_size(min, rate, max, clock, tiles, (k - 1) as nat);
        let st = consolidation_run(min, rate, max, ids, clock, tiles, (k - 1) as nat);
        let key = ids[k - 1];
        let p = view_position(st.tiles, key);
        if !st.clustered.contains(key) && p >= 0 {
            assert(ids.contains(key));
            lemma_cluster_size(ids, st, key, st.tiles[p]);
        }
    }
}

/// The variant of a tile type, as a number.
pub open spec fn variant_index(t: TileType) -> int {
    match t {
        TileType::Observation => 0,
        TileType::Action => 1,
        TileType::Thought => 2,
        TileType::Decision => 3,
        TileType::Dream => 4,
        TileType::Error => 5,
        TileType::Signal => 6,
        TileType::Response => 7,
        TileType::Custom(_) => 8,
    }
}

/// Tile types are equal exactly when they are the same variant and, for
/// custom types, carry the same label; so `Thought` and `Decision`, for
/// instance, are never equal.
pub proof fn law_tile_type_eq_is_same_variant(a: TileType, b: TileType)
    ensures
        tile_type_eq(a, b) <==> variant_index(a) == variant_index(b) && (a matches TileType::Custom(x) ==> (
        b matches TileType::Custom(y) && x@ == y@)),
{
}

/// A query filtered by tile type returns only tiles of that type's variant
/// (with the same label for a custom type), and keeps every tile of `s`
/// that passes all its filters.
pub proof fn law_query_type_filter(
    s: Seq<MemoryTile>,
    room: Option<Seq<char>>,
    tt: TileType,
    min: Option<i64>,
)
    ensures
        forall|i: int|
            0 <= i < s.filter(query_pred(room, Some(tt), min)).len() ==> variant_index(
                (#[trigger] s.filter(query_pred(room, Some(tt), min))[i]).tile_type,
            ) == variant_index(tt),
        forall|i: int|
            0 <= i < s.len() && variant_index((#[trigger] s[i]).tile_type) != variant_index(tt) ==> !s.filter(
                query_pred(room, Some(tt), min),
            ).contains(s[i]),
{
    let pred = query_pred(room, Some(tt), min);
    assert forall|i: int| 0 <= i < s.filter(pred).len() implies variant_index((#[trigger] s.filter(pred)[i]).tile_type)
        == variant_index(tt) by {
        s.lemma_filter_pred(pred, i);
        law_tile_type_eq_is_same_variant(s.filter(pred)[i].tile_type, tt);
    }
    assert forall|i: int| 0 <= i < s.len() && variant_index((#[trigger] s[i]).tile_type) != variant_index(tt) implies !s.filter(
        pred,
    ).contains(s[i]) by {
        if s.filter(pred).contains(s[i]) {
            let j = choose|j: int| 0 <= j < s.filter(pred).len() && s.filter(pred)[j] == s[i];
            s.lemma_filter_pred(pred, j);
            law_tile_type_eq_is_same_variant(s[i].tile_type, tt);
        }
    }
}

/// The tile type `a` is the same variant as `b`, with the same label when
/// both are custom.
pub open spec fn same_type(a: TileType, b: TileType) -> bool {
    &&& variant_index(a) == variant_index(b)
    &&& a matches TileType::Custom(x) ==> (b matches TileType::Custom(y) && x@ == y@)
}

/// `MemoryStore::query` keeps exactly the tiles of the store that are in the
/// given room, of the given type and at least as important as the given
/// minimum, each filter applying only when given.
pub proof fn law_query_selects_exactly(
    s: Seq<MemoryTile>,
    room: Option<Seq<char>>,
    tt: Option<TileType>,
    min: Option<i64>,
    t: MemoryTile,
)
    ensures
        s.filter(query_pred(room, tt, min)).contains(t) <==> {
            &&& s.contains(t)
            &&& room matches Some(r) ==> t.room_id@ == r
            &&& tt matches Some(x) ==> same_type(t.tile_type, x)
            &&& min matches Some(m) ==> t.importance >= m
        },
{
    let pred = query_pred(room, tt, min);
    if let Some(x) = tt {
        law_tile_type_eq_is_same_variant(t.tile_type, x);
    }
    if s.filter(pred).contains(t) {
        s.lemma_filter_contains_rev(pred, t);
        let j = choose|j: int| 0 <= j < s.filter(pred).len() && s.filter(pred)[j] == t;
        s.lemma_filter_pred(pred, j);
    }
    if s.contains(t) && pred(t) {
        let j = choose|j: int| 0 <= j < s.len() && s[j] == t;
        s.lemma_filter_contains(pred, j);
    }
}

/// Memory pressure is the fill ratio of the store in fixed point, rounded
/// down: `pressure * max <= len * UNIT < (pressure + 1) * max`. In
/// particular it stays below `UNIT` while the store is below capacity.
pub proof fn law_pressure_is_fill_ratio(len: nat, max: nat)
    requires
        0 < max,
        len <= max,
    ensures
        pressure_of(len, max) * max <= len * UNIT < (pressure_of(len, max) + 1) * max,
        len < max ==> pressure_of(len, max) < UNIT,
{
    law_pressure_bounds(len, max);
    let u = UNIT as int;
    let m = max as int;
    let l = len as int;
    let q = (l * u) / m;
    assert(q * m <= l * u < (q + 1) * m) by (nonlinear_arith)
        requires
            m > 0,
            l >= 0,
            u > 0,
            q == (l * u) / m,
    ;
    if len < max {
        assert(q < u) by (nonlinear_arith)
            requires
                m > 0,
                0 <= l < m,
                u > 0,
                q == (l * u) / m,
        ;
    }
}

/// The cluster strength of a group is the average strength of the edges
/// with both ends in the group, rounded toward zero: with `n` such edges of
/// total strength `total` and result `r`, `n * r <= total < n * (r + 1)`
/// when `total` is non-negative (mirrored when it is negative). The edges
/// counted are exactly those of the graph with both ends among the ids.
pub proof fn law_cluster_is_average(ev: Seq<EdgeView>, ids: Seq<Seq<char>>)
    requires
        ids.len() >= 2,
        edges_within(ev, ids).len() > 0,
    ensures
        forall|e: EdgeView| #[trigger] edges_within(ev, ids).contains(e) <==> (ev.contains(e) && ids.contains(e.0)
            && ids.contains(e.1)),
        ({
            let n = edges_within(ev, ids).len() as int;
            let total = strength_sum(edges_within(ev, ids));
            let r = cluster_strength(ev, ids);
            &&& total >= 0 ==> n * r <= total < n * (r + 1)
            &&& total < 0 ==> n * (r - 1) < total <= n * r
        }),
{
    let pred = |e: EdgeView| ids.contains(e.0) && ids.contains(e.1);
    let inside = edges_within(ev, ids);
    assert forall|e: EdgeView| #[trigger] inside.contains(e) <==> (ev.contains(e) && ids.contains(e.0) && ids.contains(
        e.1,
    )) by {
        if inside.contains(e) {
            ev.lemma_filter_contains_rev(pred, e);
            let j = choose|j: int| 0 <= j < inside.len() && inside[j] == e;
            ev.lemma_filter_pred(pred, j);
        }
        if ev.contains(e) && ids.contains(e.0) && ids.contains(e.1) {
            let j = choose|j: int| 0 <= j < ev.len() && ev[j] == e;
            ev.lemma_filter_contains(pred, j);
        }
    }
    let n = inside.len() as int;
    let t = strength_sum(inside);
    let r = cluster_strength(ev, ids);
    assert(r == trunc_div(t, n));
    if t >= 0 {
        assert(n * (t / n) <= t < n * (t / n + 1)) by (nonlinear_arith)
            requires
                n > 0,
                t >= 0,
        ;
    } else {
        let a = -t;
        assert(n * (a / n) <= a < n * (a / n + 1)) by (nonlinear_arith)
            requires
                n > 0,
                a > 0,
        ;
        assert(r == -(a / n));
        assert(n * (r - 1) < t <= n * r) by (nonlinear_arith)
            requires
                n * (a / n) <= a < n * (a / n + 1),
                r == -(a / n),
                t == -a,
        ;
    }
}

/// A dream's content: for a cluster of one to three members whose tiles are
/// all present, their contents in order joined with ` + `; for four or more,
/// `Consolidation of <count> <type of the first> tiles`.
pub proof fn law_dream_content(tiles: Seq<TileView>, members: Seq<Seq<char>>, now: u64, id: Seq<char>)
    requires
        members.len() >= 1,
        forall|i: int| 0 <= i < members.len() ==> view_position(tiles, #[trigger] members[i]) >= 0,
    ensures
        ({
            let c = dream_view(tiles, members, now, id).content;
            let part = |i: int| tile_of(tiles, members[i]).content;
            &&& members.len() == 1 ==> c == part(0)
            &&& members.len() == 2 ==> c == part(0) + " + "@ + part(1)
            &&& members.len() == 3 ==> c == part(0) + " + "@ + part(1) + " + "@ + part(2)
            &&& members.len() >= 4 ==> c == "Consolidation of "@ + decimal(members.len()) + " "@ + display_of(
                tile_of(tiles, members[0]).tile_type,
            ) + " tiles"@
        }),
{
    if members.len() <= 3 {
        let pres = is_present(tiles);
        assert forall|i: int| 0 <= i < members.len() implies pres(#[trigger] members[i]) by {
        }
        lemma_filter_keeps_all(members, pres);
        let cs = present_contents(tiles, members);
        assert(cs.len() == members.len());
        let sep = " + "@;
        assert(cs.take(1).drop_last().len() == 0);
        assert(crate::consolidator::join(cs.take(1), sep) == cs[0]);
        if members.len() >= 2 {
            assert(cs.take(2).drop_last() =~= cs.take(1));
            assert(crate::consolidator::join(cs.take(2), sep) == cs[0] + sep + cs[1]);
        }
        if members.len() >= 3 {
            assert(cs.take(3).drop_last() =~= cs.take(2));
            assert(crate::consolidator::join(cs.take(3), sep) == cs[0] + sep + cs[1] + sep + cs[2]);
        }
        assert(cs.take(members.len() as int) =~= cs);
    }
}

/// Two tiles have nothing in common: different variants of tile type, or no
/// metadata key with the same value in both and neither content containing
/// the other.
pub open spec fn unrelated(a: TileView, b: TileView) -> bool {
    ||| variant_index(a.tile_type) != variant_index(b.tile_type)
    ||| {
        &&& forall|k: Seq<char>|
            a.metadata.dom().contains(k) && b.metadata.dom().contains(k) ==> a.metadata[k] != b.metadata[k]
        &&& !occurs_in(b.content, a.content)
        &&& !occurs_in(a.content, b.content)
    }
}

/// The position found for an id holds a tile with that id, and an id held by
/// some tile is found.
proof fn lemma_view_position_found(tiles: Seq<TileView>, id: Seq<char>)
    ensures
        -1 <= view_position(tiles, id) < tiles.len(),
        view_position(tiles, id) >= 0 ==> tiles[view_position(tiles, id)].id == id,
        (exists|i: int| 0 <= i < tiles.len() && tiles[i].id == id) ==> view_position(tiles, id) >= 0,
    decreases tiles.len(),
{
    if tiles.len() > 0 {
        lemma_view_position_found(tiles.drop_last(), id);
        if exists|i: int| 0 <= i < tiles.len() && tiles[i].id == id {
            let i = choose|i: int| 0 <= i < tiles.len() && tiles[i].id == id;
            if i < tiles.len() - 1 {
                assert(tiles.drop_last()[i].id == id);
            }
        }
    }
}

/// Tiles that are pairwise unrelated are never consolidated: with clusters
/// of at least two members required, the run creates no dream and changes
/// no tile.
pub proof fn law_unrelated_tiles_never_consolidate(
    min: nat,
    rate: i64,
    max: nat,
    clock: spec_fn(nat) -> u64,
    tiles: Seq<TileView>,
    k: nat,
)
    requires
        min >= 2,
        k <= tiles.len(),
        forall|i: int, j: int| 0 <= i < tiles.len() && 0 <= j < tiles.len() && i != j ==> unrelated(#[trigger] tiles[i], #[trigger] tiles[j]),
    ensures
        consolidation_run(min, rate, max, view_ids(tiles), clock, tiles, k) == (Consolidation {
            tiles,
            clustered: Set::empty(),
            created: Seq::empty(),
            used: 0,
        }),
    decreases k,
{
    let ids = view_ids(tiles);
    if k > 0 {
        law_unrelated_tiles_never_consolidate(min, rate, max, clock, tiles, (k - 1) as nat);
        let st = consolidation_run(min, rate, max, ids, clock, tiles, (k - 1) as nat);
        let key = ids[k - 1];
        lemma_view_position_found(tiles, key);
        let p = view_position(tiles, key);
        if p >= 0 {
            let pred = joins_cluster(st, key, tiles[p]);
            assert(ids.all(|x: Seq<char>| !pred(x))) by {
                assert forall|i: int| 0 <= i < ids.len() implies !pred(#[trigger] ids[i]) by {
                    let x = ids[i];
                    lemma_view_position_found(tiles, x);
                    let q = view_position(tiles, x);
                    if pred(x) {
                        assert(q >= 0 && q != p);
                        assert(unrelated(tiles[p], tiles[q]));
                        assert(!similar(tiles[p], tiles[q]));
                    }
                }
            }
            ids.lemma_all_neg_filter_empty(pred);
            assert(cluster_of(ids, st, key, tiles[p]).len() == 1);
        }
    }
}

proof fn lemma_importance_total_bounds(tiles: Seq<TileView>, members: Seq<Seq<char>>, lo: int, hi: int)
    requires
        forall|i: int| 0 <= i < members.len() ==> view_position(tiles, #[trigger] members[i]) >= 0,
        forall|i: int| 0 <= i < members.len() ==> lo <= #[trigger] tile_of(tiles, members[i]).importance <= hi,
    ensures
        members.len() * lo <= importance_total(tiles, members) <= members.len() * hi,
    decreases members.len(),
{
    if members.len() > 0 {
        let d = members.drop_last();
        assert forall|i: int| 0 <= i < d.len() implies view_position(tiles, #[trigger] d[i]) >= 0 by {
            assert(d[i] == members[i]);
        }
        assert forall|i: int| 0 <= i < d.len() implies lo <= #[trigger] tile_of(tiles, d[i]).importance <= hi by {
            assert(d[i] == members[i]);
        }
        lemma_importance_total_bounds(tiles, d, lo, hi);
        let last = members[members.len() - 1];
        assert(view_position(tiles, last) >= 0);
        let x = tile_of(tiles, last).importance as int;
        assert(lo <= x <= hi);
        assert(members.last() == last);
        assert(importance_total(tiles, members) == importance_total(tiles, d) + x);
        let n = members.len() as int;
        let td = importance_total(tiles, d);
        assert(d.len() == n - 1);
        assert(n * lo <= td + x <= n * hi) by (nonlinear_arith)
            requires
                (n - 1) * lo <= td <= (n - 1) * hi,
                lo <= x <= hi,
        ;
    } else {
        let n = members.len() as int;
        assert(n * lo == 0 && n * hi == 0) by (nonlinear_arith)
            requires
                n == 0,
        ;
    }
}

/// A dream's importance is the average of its members': when every member
/// is present with an importance in `[lo, hi]` (within `[0, UNIT]`), so is
/// the dream's; in particular members of equal importance give the dream
/// that importance.
pub proof fn law_dream_importance_is_average(
    tiles: Seq<TileView>,
    members: Seq<Seq<char>>,
    now: u64,
    id: Seq<char>,
    lo: int,
    hi: int,
)
    requires
        members.len() >= 1,
        0 <= lo <= hi <= UNIT,
        forall|i: int| 0 <= i < members.len() ==> view_position(tiles, #[trigger] members[i]) >= 0,
        forall|i: int| 0 <= i < members.len() ==> lo <= #[trigger] tile_of(tiles, members[i]).importance <= hi,
    ensures
        lo <= dream_view(tiles, members, now, id).importance <= hi,
{
    lemma_importance_total_bounds(tiles, members, lo, hi);
    let n = members.len() as int;
    let t = importance_total(tiles, members);
    assert(lo <= t / n <= hi) by (nonlinear_arith)
        requires
            n >= 1,
            n * lo <= t <= n * hi,
            0 <= lo,
    ;
    assert(t >= 0) by (nonlinear_arith)
        requires
            n >= 1,
            n * lo <= t,
            0 <= lo,
    ;
}

proof fn lemma_connect_all(conns: Seq<Seq<char>>, ids: Seq<Seq<char>>)
    requires
        conns.no_duplicates(),
    ensures
        connect_all(conns, ids).no_duplicates(),
        forall|x: Seq<char>| #[trigger] connect_all(conns, ids).contains(x) <==> conns.contains(x) || ids.contains(x),
    decreases ids.len(),
{
    if ids.len() > 0 {
        let d = ids.drop_last();
        lemma_connect_all(conns, d);
        let c = connect_all(conns, d);
        assert forall|x: Seq<char>| #[trigger] connect_all(conns, ids).contains(x) <==> conns.contains(x) || ids.contains(x) by {
            if ids.contains(x) && x != ids.last() {
                let i = choose|i: int| 0 <= i < ids.len() && ids[i] == x;
                assert(d[i] == x);
            }
            if d.contains(x) {
                let i = choose|i: int| 0 <= i < d.len() && d[i] == x;
                assert(ids[i] == x);
            }
            if !c.contains(ids.last()) {
                assert(c.push(ids.last()).contains(x) <==> c.contains(x) || x == ids.last()) by {
                    if c.push(ids.last()).contains(x) && x != ids.last() {
                        let i = choose|i: int| 0 <= i < c.push(ids.last()).len() && c.push(ids.last())[i] == x;
                        assert(c[i] == x);
                    }
                    if c.contains(x) {
                        let i = choose|i: int| 0 <= i < c.len() && c[i] == x;
                        assert(c.push(ids.last())[i] == x);
                    }
                    if x == ids.last() {
                        assert(c.push(ids.last())[c.len() as int] == x);
                    }
                }
            }
            assert(ids.last() == ids[ids.len() - 1]);
        }
    }
}

/// A dream is connected to each member of its cluster once, and to nothing
/// else.
pub proof fn law_dream_connects_members(tiles: Seq<TileView>, members: Seq<Seq<char>>, now: u64, id: Seq<char>)
    ensures
        dream_view(tiles, members, now, id).connections.no_duplicates(),
        forall|x: Seq<char>| #[trigger] dream_view(tiles, members, now, id).connections.contains(x) <==> members.contains(x),
{
    lemma_connect_all(Seq::empty(), members);
}

/// Merging a cluster decays each member present by `rate` and connects it
/// to the dream `did` (once), and leaves every other tile as it was.
pub proof fn law_members_decay_and_connect(tiles: Seq<TileView>, members: Seq<Seq<char>>, did: Seq<char>, rate: i64)
    requires
        forall|i: int, j: int| 0 <= i < j < tiles.len() ==> (#[trigger] tiles[i]).id != (#[trigger] tiles[j]).id,
        members.no_duplicates(),
    ensures
        apply_members(tiles, members, did, rate).len() == tiles.len(),
        forall|i: int|
            0 <= i < tiles.len() && members.contains(#[trigger] tiles[i].id) ==> {
                let r = apply_members(tiles, members, did, rate)[i];
                &&& r == connected_view(decayed_view(tiles[i], rate), did)
                &&& r.importance == decayed(tiles[i].importance, rate)
                &&& r.connections.contains(did)
            },
        forall|i: int|
            0 <= i < tiles.len() && !members.contains(#[trigger] tiles[i].id) ==> apply_members(
                tiles,
                members,
                did,
                rate,
            )[i] == tiles[i],
    decreases members.len(),
{
    let r = apply_members(tiles, members, did, rate);
    if members.len() > 0 {
        let d = members.drop_last();
        let m = members.last();
        assert(d.no_duplicates());
        law_members_decay_and_connect(tiles, d, did, rate);
        let t1 = apply_members(tiles, d, did, rate);
        assert forall|i: int| 0 <= i < t1.len() implies (#[trigger] t1[i]).id == tiles[i].id by {
            if d.contains(tiles[i].id) {
                assert(t1[i] == connected_view(decayed_view(tiles[i], rate), did));
            } else {
                assert(t1[i] == tiles[i]);
            }
        }
        lemma_view_position_found(t1, m);
        let p = view_position(t1, m);
        assert(!d.contains(m)) by {
            if d.contains(m) {
                let k = choose|k: int| 0 <= k < d.len() && d[k] == m;
                assert(members[k] == members[members.len() - 1]);
            }
        }
        assert forall|x: Seq<char>| members.contains(x) <==> d.contains(x) || x == m by {
            if members.contains(x) && x != m {
                let k = choose|k: int| 0 <= k < members.len() && members[k] == x;
                assert(d[k] == x);
            }
            if d.contains(x) {
                let k = choose|k: int| 0 <= k < d.len() && d[k] == x;
                assert(members[k] == x);
            }
            if x == m {
                assert(members[members.len() - 1] == x);
            }
        }
        if p >= 0 {
            assert(t1[p].id == m);
            assert(tiles[p].id == m);
            assert(t1[p] == tiles[p]);
            assert(r == t1.update(p, connected_view(decayed_view(t1[p], rate), did)));
            assert forall|i: int| 0 <= i < tiles.len() && i != p implies tiles[i].id != m by {
                if i < p {
                    assert(tiles[i].id != tiles[p].id);
                } else {
                    assert(tiles[p].id != tiles[i].id);
                }
            }
        } else {
            assert(r == t1);
            assert forall|i: int| 0 <= i < tiles.len() implies tiles[i].id != m by {
                if tiles[i].id == m {
                    assert(t1[i].id == m);
                }
            }
        }
        assert forall|i: int| 0 <= i < tiles.len() && members.contains(#[trigger] tiles[i].id) implies r[i]
            == connected_view(decayed_view(tiles[i], rate), did) by {
            if d.contains(tiles[i].id) {
                assert(t1[i] == connected_view(decayed_view(tiles[i], rate), did));
            }
        }
        assert forall|i: int| 0 <= i < tiles.len() && !members.contains(#[trigger] tiles[i].id) implies r[i]
            == tiles[i] by {
            assert(!d.contains(tiles[i].id));
            assert(t1[i] == tiles[i]);
        }
    }
    assert forall|i: int| 0 <= i < tiles.len() && members.contains(#[trigger] tiles[i].id) implies r[i].connections.contains(
        did,
    ) by {
        let v = decayed_view(tiles[i], rate);
        if !v.connections.contains(did) {
            assert(v.connections.push(did)[v.connections.len() as int] == did);
        }
    }
}

} // verus!
