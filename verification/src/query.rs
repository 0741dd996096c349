//! Structured queries over the memory store.
use vstd::prelude::*;

use crate::order::{is_rank_order, rank_order};
use crate::store::{deref_tiles, first_in_order, importance_keys, MemoryStore};
use crate::text::{contains_str, occurs_in};
use crate::tile::MemoryTile;
use crate::tile_type::{tile_type_eq, TileType};

verus! {

broadcast use vstd::seq_lib::group_seq_properties;

/// A structured query over the memory store. Each filter that is set must
/// hold of a tile for the tile to be selected.
#[derive(Debug, Clone)]
pub struct MemoryQuery {
    pub room_id: Option<String>,
    pub agent_id: Option<String>,
    pub tile_type: Option<TileType>,
    /// Least importance, fixed-point.
    pub min_importance: Option<i64>,
    /// Inclusive range of creation times.
    pub time_range: Option<(u64, u64)>,
    pub content_contains: Option<String>,
    pub limit: Option<usize>,
}

/// The query selects the tile.
pub open spec fn query_accepts(q: MemoryQuery, t: MemoryTile) -> bool {
    &&& (q.room_id matches Some(r) ==> t.room_id@ == r@)
    &&& (q.agent_id matches Some(a) ==> t.agent_id@ == a@)
    &&& (q.tile_type matches Some(tt) ==> tile_type_eq(t.tile_type, tt))
    &&& (q.min_importance matches Some(m) ==> t.importance >= m)
    &&& (q.time_range matches Some(range) ==> range.0 <= t.created_at <= range.1)
    &&& (q.content_contains matches Some(needle) ==> occurs_in(needle@, t.content@))
}

/// The tiles of `s` that the query selects, in order.
pub open spec fn selected(q: MemoryQuery, s: Seq<MemoryTile>) -> Seq<MemoryTile> {
    s.filter(|t: MemoryTile| query_accepts(q, t))
}

/// How many of the selected tiles a query returns.
pub open spec fn result_size(q: MemoryQuery, n: nat) -> nat {
    match q.limit {
        Some(l) => if l < n { l as nat } else { n },
        None => n,
    }
}

/// The query with no filter set.
pub open spec fn empty_query(q: MemoryQuery) -> bool {
    &&& q.room_id is None
    &&& q.agent_id is None
    &&& q.tile_type is None
    &&& q.min_importance is None
    &&& q.time_range is None
    &&& q.content_contains is None
    &&& q.limit is None
}

impl Default for MemoryQuery {
    fn default() -> (r: MemoryQuery)
        ensures
            empty_query(r),
    {
        MemoryQuery {
            room_id: None,
            agent_id: None,
            tile_type: None,
            min_importance: None,
            time_range: None,
            content_contains: None,
            limit: None,
        }
    }
}

impl MemoryQuery {
    /// A query with no filter and no limit.
    pub fn new() -> (r: MemoryQuery)
        ensures
            empty_query(r),
    {
        MemoryQuery {
            room_id: None,
            agent_id: None,
            tile_type: None,
            min_importance: None,
            time_range: None,
            content_contains: None,
            limit: None,
        }
    }

    /// The same query, restricted to room `room_id`.
    pub fn room_id(self, room_id: &str) -> (r: MemoryQuery)
        ensures
            r.room_id matches Some(x) && x@ == room_id@,
            r == (MemoryQuery { room_id: r.room_id, ..self }),
    {
        let mut q = self;
        q.room_id = Some(room_id.to_string());
        q
    }

    /// The same query, restricted to agent `agent_id`.
    pub fn agent_id(self, agent_id: &str) -> (r: MemoryQuery)
        ensures
            r.agent_id matches Some(x) && x@ == agent_id@,
            r == (MemoryQuery { agent_id: r.agent_id, ..self }),
    {
        let mut q = self;
        q.agent_id = Some(agent_id.to_string());
        q
    }

    /// The same query, restricted to tiles of type `tile_type`.
    pub fn tile_type(self, tile_type: TileType) -> (r: MemoryQuery)
        ensures
            r == (MemoryQuery { tile_type: Some(tile_type), ..self }),
    {
        let mut q = self;
        q.tile_type = Some(tile_type);
        q
    }

    /// The same query, restricted to tiles of importance at least `min`.
    pub fn min_importance(self, min: i64) -> (r: MemoryQuery)
        ensures
            r == (MemoryQuery { min_importance: Some(min), ..self }),
    {
        let mut q = self;
        q.min_importance = Some(min);
        q
    }

    /// The same query, restricted to tiles created from `start` to `end`
    /// inclusive.
    pub fn time_range(self, start: u64, end: u64) -> (r: MemoryQuery)
        ensures
            r == (MemoryQuery { time_range: Some((start, end)), ..self }),
    {
        let mut q = self;
        q.time_range = Some((start, end));
        q
    }

    /// The same query, restricted to tiles whose content contains
    /// `substring`.
    pub fn content_contains(self, substring: &str) -> (r: MemoryQuery)
        ensures
            r.content_contains matches Some(x) && x@ == substring@,
            r == (MemoryQuery { content_contains: r.content_contains, ..self }),
    {
        let mut q = self;
        q.content_contains = Some(substring.to_string());
        q
    }

    /// The same query, returning at most `n` tiles.
    pub fn limit(self, n: usize) -> (r: MemoryQuery)
        ensures
            r == (MemoryQuery { limit: Some(n), ..self }),
    {
        let mut q = self;
        q.limit = Some(n);
        q
    }

    /// The query selects the tile.
    fn accepts(&self, t: &MemoryTile) -> (r: bool)
        ensures
            r == query_accepts(*self, *t),
    {
        match &self.room_id {
            Some(rid) => {
                if t.room_id != *rid {
                    return false;
                }
            },
            None => {},
        }
        match &self.agent_id {
            Some(aid) => {
                if t.agent_id != *aid {
                    return false;
                }
            },
            None => {},
        }
        match &self.tile_type {
            Some(tt) => {
                if !(t.tile_type == *tt) {
                    return false;
                }
            },
            None => {},
        }
        match self.min_importance {
            Some(mi) => {
                if t.importance < mi {
                    return false;
                }
            },
            None => {},
        }
        match self.time_range {
            Some((start, end)) => {
                if t.created_at < start || t.created_at > end {
                    return false;
                }
            },
            None => {},
        }
        match &self.content_contains {
            Some(needle) => {
                if !contains_str(t.content.as_str(), needle.as_str()) {
                    return false;
                }
            },
            None => {},
        }
        true
    }

    /// Run the query: the selected tiles, most important first (ties in
    /// store order), at most `limit` of them.
    pub fn execute<'a>(&self, store: &'a MemoryStore) -> (r: Vec<&'a MemoryTile>)
        ensures
            exists|order: Seq<usize>|
                is_rank_order(importance_keys(selected(*self, store.tiles@)), order) && deref_tiles(r@)
                    == first_in_order(
                    selected(*self, store.tiles@),
                    order,
                    result_size(*self, selected(*self, store.tiles@).len()),
                ),
    {
        let ghost pred = |t: MemoryTile| query_accepts(*self, t);
        let ghost s = store.tiles@;
        let mut found: Vec<&MemoryTile> = Vec::new();
        let mut keys: Vec<i128> = Vec::new();
        let mut i: usize = 0;
        while i < store.tiles.len()
            invariant
                i <= s.len(),
                s == store.tiles@,
                pred == (|t: MemoryTile| query_accepts(*self, t)),
                deref_tiles(found@) == s.take(i as int).filter(pred),
                keys@ == importance_keys(deref_tiles(found@)),
            decreases s.len() - i,
        {
            proof {
                s.lemma_take_succ_push(i as int);
                s.take(i as int).lemma_filter_push(s[i as int], pred);
            }
            let t = &store.tiles[i];
            if self.accepts(t) {
                let ghost before = deref_tiles(found@);
                found.push(t);
                keys.push(t.importance as i128);
                proof {
                    assert(deref_tiles(found@) =~= before.push(*t));
                    assert(keys@ =~= importance_keys(deref_tiles(found@)));
                }
            }
            i = i + 1;
        }
        proof {
            assert(s.take(i as int) =~= s);
        }
        let ghost f = deref_tiles(found@);
        let order = rank_order(&keys);
        let n = match self.limit {
            Some(l) => if l < order.len() {
                l
            } else {
                order.len()
            },
            None => order.len(),
        };
        let mut r: Vec<&MemoryTile> = Vec::new();
        let mut k: usize = 0;
        while k < n
            invariant
                k <= n,
                n <= order@.len(),
                order@.len() == f.len(),
                f == deref_tiles(found@),
                is_rank_order(keys@, order@),
                deref_tiles(r@) == order@.take(k as int).map_values(|i: usize| f[i as int]),
            decreases n - k,
        {
            let ghost before = r@;
            let idx = order[k];
            r.push(found[idx]);
            proof {
                assert(deref_tiles(r@) =~= deref_tiles(before).push(f[idx as int]));
                assert(order@.take(k + 1) =~= order@.take(k as int).push(order@[k as int]));
                assert(order@.take(k + 1).map_values(|i: usize| f[i as int]) =~= order@.take(
                    k as int,
                ).map_values(|i: usize| f[i as int]).push(f[order@[k as int] as int]));
            }
            k = k + 1;
        }
        proof {
            assert(f == selected(*self, store.tiles@));
            assert(deref_tiles(r@) == first_in_order(f, order@, result_size(*self, f.len())));
        }
        r
    }
}

} // verus!
