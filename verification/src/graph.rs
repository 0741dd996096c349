//! A weighted graph of connections between memory tiles.
use vstd::prelude::*;

use crate::fixed::trunc_div;
use crate::tile::string_views;

verus! {

broadcast use vstd::seq_lib::group_seq_properties;

/// An edge seen through the views of its endpoints: (from, to, strength).
pub type EdgeView = (Seq<char>, Seq<char>, i64);

/// The edges of a graph seen through the views of their endpoints.
pub open spec fn edge_views(e: Seq<(String, String, i64)>) -> Seq<EdgeView> {
    e.map_values(|x: (String, String, i64)| (x.0@, x.1@, x.2))
}

/// The edge goes from `from` to `to`.
pub open spec fn is_edge(e: EdgeView, from: Seq<char>, to: Seq<char>) -> bool {
    e.0 == from && e.1 == to
}

/// The edge does not lead from `from` to `to`.
pub open spec fn keeps_edge(from: Seq<char>, to: Seq<char>) -> spec_fn((String, String, i64)) -> bool {
    |x: (String, String, i64)| !(x.0@ == from && x.1@ == to)
}

/// The edges left after removing every edge from `from` to `to`.
pub open spec fn without_edges(e: Seq<(String, String, i64)>, from: Seq<char>, to: Seq<char>) -> Seq<(String, String, i64)> {
    e.filter(keeps_edge(from, to))
}

/// The edge touches the tile `id`, at either end.
pub open spec fn touches(e: EdgeView, id: Seq<char>) -> bool {
    e.0 == id || e.1 == id
}

/// The other end of an edge that touches `id`, with the edge's strength.
pub open spec fn other_end(e: EdgeView, id: Seq<char>) -> (Seq<char>, i64) {
    if e.0 == id {
        (e.1, e.2)
    } else {
        (e.0, e.2)
    }
}

/// The connections of the tile `id`: for each edge that touches it, in order,
/// the tile at the other end and the strength.
pub open spec fn connections_view(ev: Seq<EdgeView>, id: Seq<char>) -> Seq<(Seq<char>, i64)> {
    ev.filter(|e: EdgeView| touches(e, id)).map_values(|e: EdgeView| other_end(e, id))
}

/// The edges whose both ends lie in `ids`.
pub open spec fn edges_within(ev: Seq<EdgeView>, ids: Seq<Seq<char>>) -> Seq<EdgeView> {
    ev.filter(|e: EdgeView| ids.contains(e.0) && ids.contains(e.1))
}

/// The sum of the strengths of the edges.
pub open spec fn strength_sum(ev: Seq<EdgeView>) -> int
    decreases ev.len(),
{
    if ev.len() == 0 {
        0
    } else {
        strength_sum(ev.drop_last()) + ev.last().2
    }
}

/// The average strength of the edges within a group of tiles: 0 for a group
/// of fewer than two tiles or with no edge inside it.
pub open spec fn cluster_strength(ev: Seq<EdgeView>, ids: Seq<Seq<char>>) -> int {
    let inside = edges_within(ev, ids);
    if ids.len() < 2 || inside.len() == 0 {
        0
    } else {
        trunc_div(strength_sum(inside), inside.len() as int)
    }
}

/// A weighted graph of connections between memory tiles. Strengths are
/// fixed-point numbers, `UNIT` standing for 1.0.
#[derive(Debug, Clone)]
pub struct MemoryGraph {
    /// (from_id, to_id, strength)
    pub edges: Vec<(String, String, i64)>,
}

impl MemoryGraph {
    /// The graph's edges seen through the views of their endpoints.
    pub open spec fn edges_view(&self) -> Seq<EdgeView> {
        edge_views(self.edges@)
    }

    /// An empty graph.
    pub fn new() -> (r: MemoryGraph)
        ensures
            r.edges@.len() == 0,
    {
        MemoryGraph { edges: Vec::new() }
    }

    /// Connect `from` to `to` with strength `strength`: the first edge from
    /// `from` to `to` gets the new strength, or, when there is none, a new
    /// edge is added at the end.
    pub fn connect(&mut self, from: &str, to: &str, strength: i64)
        ensures
            (forall|i: int| 0 <= i < old(self).edges@.len()
                ==> !is_edge(#[trigger] old(self).edges_view()[i], from@, to@))
                ==> final(self).edges_view() == old(self).edges_view().push((from@, to@, strength)),
            forall|i: int|
                0 <= i < old(self).edges@.len() && is_edge(#[trigger] old(self).edges_view()[i], from@, to@)
                    && (forall|j: int| 0 <= j < i ==> !is_edge(old(self).edges_view()[j], from@, to@))
                    ==> final(self).edges_view() == old(self).edges_view().update(i, (from@, to@, strength)),
    {
        let f = from.to_string();
        let t = to.to_string();
        let mut i: usize = 0;
        while i < self.edges.len()
            invariant
                i <= self.edges@.len(),
                f@ == from@,
                t@ == to@,
                self.edges@ == old(self).edges@,
                forall|j: int| 0 <= j < i ==> !is_edge(self.edges_view()[j], from@, to@),
            decreases self.edges@.len() - i,
        {
            if self.edges[i].0 == f && self.edges[i].1 == t {
                let ghost before = self.edges_view();
                proof {
                    assert(is_edge(old(self).edges_view()[i as int], from@, to@));
                }
                self.edges[i].2 = strength;
                proof {
                    assert(self.edges_view() =~= before.update(i as int, (from@, to@, strength)));
                    assert forall|k: int|
                        0 <= k < old(self).edges@.len() && is_edge(#[trigger] old(self).edges_view()[k], from@, to@)
                            && (forall|j: int| 0 <= j < k ==> !is_edge(old(self).edges_view()[j], from@, to@))
                        implies k == i by {
                        if k < i {
                        } else if k > i {
                            assert(is_edge(old(self).edges_view()[i as int], from@, to@));
                        }
                    }
                }
                return;
            }
            i = i + 1;
        }
        let ghost before = self.edges_view();
        self.edges.push((f, t, strength));
        proof {
            assert(self.edges_view() =~= before.push((from@, to@, strength)));
        }
    }

    /// Remove every edge from `from` to `to`.
    pub fn disconnect(&mut self, from: &str, to: &str)
        ensures
            final(self).edges@ == without_edges(old(self).edges@, from@, to@),
    {
        let f = from.to_string();
        let t = to.to_string();
        let ghost pred = keeps_edge(from@, to@);
        let mut kept: Vec<(String, String, i64)> = Vec::new();
        let mut i: usize = 0;
        while i < self.edges.len()
            invariant
                i <= self.edges@.len(),
                f@ == from@,
                t@ == to@,
                self.edges@ == old(self).edges@,
                pred == keeps_edge(from@, to@),
                kept@ == self.edges@.take(i as int).filter(pred),
            decreases self.edges@.len() - i,
        {
            proof {
                self.edges@.lemma_take_succ_push(i as int);
                self.edges@.take(i as int).lemma_filter_push(self.edges@[i as int], pred);
            }
            let ghost before = kept@;
            if !(self.edges[i].0 == f && self.edges[i].1 == t) {
                let e = (self.edges[i].0.clone(), self.edges[i].1.clone(), self.edges[i].2);
                kept.push(e);
                proof {
                    assert(pred(self.edges@[i as int]));
                    assert(kept@ == before.push(self.edges@[i as int]));
                }
            } else {
                proof {
                    assert(!pred(self.edges@[i as int]));
                }
            }
            i = i + 1;
        }
        proof {
            assert(self.edges@.take(i as int) =~= self.edges@);
        }
        self.edges = kept;
    }

    /// The connections of a tile: for each edge that touches it, in order,
    /// the tile at the other end and the strength.
    pub fn connections_of(&self, tile_id: &str) -> (r: Vec<(&String, &i64)>)
        ensures
            r@.map_values(|c: (&String, &i64)| (c.0@, *c.1)) == connections_view(
                self.edges_view(),
                tile_id@,
            ),
    {
        let id = tile_id.to_string();
        let ghost ev = self.edges_view();
        let ghost pred = |e: EdgeView| touches(e, tile_id@);
        let ghost conv = |e: EdgeView| other_end(e, tile_id@);
        let mut r: Vec<(&String, &i64)> = Vec::new();
        let mut i: usize = 0;
        while i < self.edges.len()
            invariant
                i <= self.edges@.len(),
                id@ == tile_id@,
                ev == self.edges_view(),
                pred == (|e: EdgeView| touches(e, tile_id@)),
                conv == (|e: EdgeView| other_end(e, tile_id@)),
                r@.map_values(|c: (&String, &i64)| (c.0@, *c.1)) == ev.take(i as int).filter(
                    pred,
                ).map_values(conv),
            decreases self.edges@.len() - i,
        {
            proof {
                ev.lemma_take_succ_push(i as int);
                ev.take(i as int).lemma_filter_push(ev[i as int], pred);
            }
            let ghost before = r@;
            let e = &self.edges[i];
            proof {
                assert(ev[i as int] == (e.0@, e.1@, e.2));
            }
            if e.0 == id {
                r.push((&e.1, &e.2));
            } else if e.1 == id {
                r.push((&e.0, &e.2));
            }
            proof {
                let mv = |c: (&String, &i64)| (c.0@, *c.1);
                if pred(ev[i as int]) {
                    assert(r@.len() == before.len() + 1);
                    assert(mv(r@.last()) == conv(ev[i as int]));
                    assert(r@ == before.push(r@.last()));
                    assert(r@.map_values(mv) =~= before.map_values(mv).push(mv(r@.last())));
                    assert(ev.take(i + 1).filter(pred).map_values(conv) =~= ev.take(
                        i as int,
                    ).filter(pred).map_values(conv).push(conv(ev[i as int])));
                } else {
                    assert(r@ == before);
                }
            }
            i = i + 1;
        }
        proof {
            assert(ev.take(i as int) =~= ev);
        }
        r
    }

    /// Average strength of the edges whose both ends lie in `tile_ids`,
    /// rounded toward zero: 0 for fewer than two ids or no such edge.
    pub fn cluster(&self, tile_ids: &[String]) -> (r: i64)
        ensures
            r == cluster_strength(self.edges_view(), string_views(tile_ids@)),
    {
        let ghost ids = string_views(tile_ids@);
        let ghost ev = self.edges_view();
        let ghost pred = |e: EdgeView| ids.contains(e.0) && ids.contains(e.1);
        if tile_ids.len() < 2 {
            return 0;
        }
        let mut total: i128 = 0;
        let mut count: usize = 0;
        let mut i: usize = 0;
        while i < self.edges.len()
            invariant
                i <= self.edges@.len(),
                ev == self.edges_view(),
                ids == string_views(tile_ids@),
                pred == (|e: EdgeView| ids.contains(e.0) && ids.contains(e.1)),
                count == ev.take(i as int).filter(pred).len(),
                count <= i,
                total == strength_sum(ev.take(i as int).filter(pred)),
                -0x8000_0000_0000_0000 * count <= total <= 0x7fff_ffff_ffff_ffff * count,
            decreases self.edges@.len() - i,
        {
            proof {
                ev.lemma_take_succ_push(i as int);
                ev.take(i as int).lemma_filter_push(ev[i as int], pred);
            }
            let e = &self.edges[i];
            if contains_string(tile_ids, &e.0) && contains_string(tile_ids, &e.1) {
                proof {
                    let s = ev.take(i as int).filter(pred);
                    assert(s.push(ev[i as int]).drop_last() =~= s);
                    assert(-0x8000_0000_0000_0000 * (count + 1) <= total + e.2 <= 0x7fff_ffff_ffff_ffff
                        * (count + 1)) by (nonlinear_arith)
                        requires
                            -0x8000_0000_0000_0000 * count <= total <= 0x7fff_ffff_ffff_ffff * count,
                            -0x8000_0000_0000_0000 <= e.2 <= 0x7fff_ffff_ffff_ffff,
                    ;
                    assert(count + 1 <= 0xffff_ffff_ffff_ffff);
                    assert(0x7fff_ffff_ffff_ffff * (count + 1) <= 0x7fff_ffff_ffff_ffff
                        * 0xffff_ffff_ffff_ffff) by (nonlinear_arith)
                        requires
                            count + 1 <= 0xffff_ffff_ffff_ffff,
                    ;
                    assert(-0x8000_0000_0000_0000 * (count + 1) >= -0x8000_0000_0000_0000
                        * 0xffff_ffff_ffff_ffff) by (nonlinear_arith)
                        requires
                            count + 1 <= 0xffff_ffff_ffff_ffff,
                    ;
                }
                total = total + e.2 as i128;
                count = count + 1;
            }
            i = i + 1;
        }
        proof {
            assert(ev.take(i as int) =~= ev);
        }
        if count == 0 {
            return 0;
        }
        let avg: i128 = if total >= 0 {
            total / (count as i128)
        } else {
            -((-total) / (count as i128))
        };
        proof {
            let c = count as int;
            let t = total as int;
            if total >= 0 {
                assert(t / c <= 0x7fff_ffff_ffff_ffff) by (nonlinear_arith)
                    requires
                        0 <= t <= 0x7fff_ffff_ffff_ffff * c,
                        c > 0,
                ;
                assert(t / c >= 0) by (nonlinear_arith)
                    requires
                        0 <= t,
                        c > 0,
                ;
            } else {
                assert((-t) / c <= 0x8000_0000_0000_0000) by (nonlinear_arith)
                    requires
                        0 <= -t <= 0x8000_0000_0000_0000 * c,
                        c > 0,
                ;
                assert((-t) / c >= 0) by (nonlinear_arith)
                    requires
                        0 <= -t,
                        c > 0,
                ;
            }
        }
        avg as i64
    }

    /// Number of edges in the graph.
    pub fn edge_count(&self) -> (r: usize)
        ensures
            r == self.edges@.len(),
    {
        self.edges.len()
    }
}

impl Default for MemoryGraph {
    fn default() -> (r: MemoryGraph)
        ensures
            r.edges@.len() == 0,
    {
        MemoryGraph::new()
    }
}

/// True when some string of `list` equals `s`.
pub fn contains_string(list: &[String], s: &String) -> (r: bool)
    ensures
        r == string_views(list@).contains(s@),
{
    let mut i: usize = 0;
    while i < list.len()
        invariant
            i <= list@.len(),
            forall|j: int| 0 <= j < i ==> list@[j]@ != s@,
        decreases list@.len() - i,
    {
        if list[i] == *s {
            proof {
                assert(string_views(list@)[i as int] == s@);
            }
            return true;
        }
        i = i + 1;
    }
    proof {
        if string_views(list@).contains(s@) {
            let j = choose|j: int| 0 <= j < list@.len() && string_views(list@)[j] == s@;
        }
    }
    false
}

} // verus!
