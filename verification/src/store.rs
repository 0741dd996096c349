//! A capacity-bounded collection of memory tiles.
use vstd::prelude::*;

use crate::clock::now_millis;
use crate::fixed::{clamp_i64, UNIT};
use crate::order::{is_rank_order, rank_order};
use crate::tile::{decayed, reinforced, touched_view, MemoryTile, TileView};
use crate::tile_type::{tile_type_eq, TileType};

verus! {

broadcast use vstd::seq_lib::group_seq_properties;

/// Importance added to a tile each time it is read through `get`
/// (one hundredth of `UNIT`).
pub const ACCESS_REINFORCEMENT: i64 = 10_000_000;

/// Extra decay that `MemoryStore::consolidate` applies to tiles never
/// accessed (one twentieth of `UNIT`).
pub const UNTOUCHED_DECAY: i64 = 50_000_000;

/// No two tiles share an id.
pub open spec fn ids_distinct(s: Seq<MemoryTile>) -> bool {
    forall|i: int, j: int| 0 <= i < j < s.len() ==> (#[trigger] s[i]).id@ != (#[trigger] s[j]).id@
}

/// The index of the last tile with id `id`, or -1 when there is none.
pub open spec fn position_of(s: Seq<MemoryTile>, id: Seq<char>) -> int
    decreases s.len(),
{
    if s.len() == 0 {
        -1
    } else if s.last().id@ == id {
        s.len() - 1
    } else {
        position_of(s.drop_last(), id)
    }
}

/// The index of the first tile of least importance (0 for an empty list).
pub open spec fn lowest_index(s: Seq<MemoryTile>) -> int
    decreases s.len(),
{
    if s.len() <= 1 {
        0
    } else {
        let i = lowest_index(s.drop_last());
        if s.last().importance < s[i].importance {
            s.len() - 1
        } else {
            i
        }
    }
}

/// The tile after one access at time `now`.
pub open spec fn touched(t: MemoryTile, now: u64) -> MemoryTile {
    MemoryTile { access_count: (t.access_count + 1) as u64, last_accessed: now, ..t }
}

/// The tile after being read through `get` at time `now`: touched and
/// reinforced by `ACCESS_REINFORCEMENT`.
pub open spec fn read_at(t: MemoryTile, now: u64) -> MemoryTile {
    MemoryTile { importance: reinforced(t.importance, ACCESS_REINFORCEMENT), ..touched(t, now) }
}

/// The views of the tiles.
pub open spec fn tile_views(s: Seq<MemoryTile>) -> Seq<TileView> {
    s.map_values(|t: MemoryTile| t@)
}

/// `position_of` over views.
pub open spec fn view_position(s: Seq<TileView>, id: Seq<char>) -> int
    decreases s.len(),
{
    if s.len() == 0 {
        -1
    } else if s.last().id == id {
        s.len() - 1
    } else {
        view_position(s.drop_last(), id)
    }
}

/// `lowest_index` over views.
pub open spec fn view_lowest(s: Seq<TileView>) -> int
    decreases s.len(),
{
    if s.len() <= 1 {
        0
    } else {
        let i = view_lowest(s.drop_last());
        if s.last().importance < s[i].importance {
            s.len() - 1
        } else {
            i
        }
    }
}

/// `after_store` over views.
pub open spec fn view_after_store(s: Seq<TileView>, max: nat, t: TileView, now: u64) -> Seq<TileView> {
    let i = view_position(s, t.id);
    if i >= 0 {
        s.update(i, touched_view(t, now))
    } else if s.len() >= max {
        (if s.len() == 0 {
            s
        } else {
            s.remove(view_lowest(s))
        }).push(touched_view(t, now))
    } else {
        s.push(touched_view(t, now))
    }
}

/// Positions and least-important positions agree between tiles and views.
pub proof fn lemma_view_positions(s: Seq<MemoryTile>, id: Seq<char>)
    ensures
        position_of(s, id) == view_position(tile_views(s), id),
        lowest_index(s) == view_lowest(tile_views(s)),
    decreases s.len(),
{
    if s.len() > 0 {
        assert(tile_views(s.drop_last()) =~= tile_views(s).drop_last());
        lemma_view_positions(s.drop_last(), id);
        if s.len() > 1 {
            lemma_lowest_index(s.drop_last());
            let i = lowest_index(s.drop_last());
            assert(tile_views(s)[i] == s[i]@);
        }
    }
}

/// The position of an id is -1 or an index of the list.
pub proof fn lemma_position_range(s: Seq<MemoryTile>, id: Seq<char>)
    ensures
        -1 <= position_of(s, id) < s.len(),
        position_of(s, id) >= 0 ==> s[position_of(s, id)].id@ == id,
    decreases s.len(),
{
    if s.len() > 0 {
        lemma_position_range(s.drop_last(), id);
    }
}

/// Storing a tile commutes with taking views.
pub proof fn lemma_view_after_store(s: Seq<MemoryTile>, max: nat, t: MemoryTile, now: u64)
    ensures
        tile_views(after_store(s, max, t, now)) == view_after_store(tile_views(s), max, t@, now),
{
    lemma_view_positions(s, t.id@);
    lemma_position_range(s, t.id@);
    let i = position_of(s, t.id@);
    if i >= 0 {
        assert(tile_views(s.update(i, touched(t, now))) =~= tile_views(s).update(i, touched_view(t@, now)));
    } else if s.len() >= max {
        if s.len() == 0 {
            assert(tile_views(s.push(touched(t, now))) =~= tile_views(s).push(touched_view(t@, now)));
        } else {
            lemma_lowest_index(s);
            let l = lowest_index(s);
            assert(tile_views(s.remove(l).push(touched(t, now))) =~= tile_views(s).remove(l).push(
                touched_view(t@, now),
            ));
        }
    } else {
        assert(tile_views(s.push(touched(t, now))) =~= tile_views(s).push(touched_view(t@, now)));
    }
}

/// Memory pressure of `len` tiles in a store of capacity `max`: `len / max`
/// as a fixed-point fraction rounded down, `UNIT` for capacity 0.
pub open spec fn pressure_of(len: nat, max: nat) -> int {
    if max == 0 {
        UNIT as int
    } else {
        clamp_i64((len * UNIT) / (max as int))
    }
}

/// The tiles after reading the tile with id `id` through `get` at time `now`.
pub open spec fn after_read(s: Seq<MemoryTile>, id: Seq<char>, now: u64) -> Seq<MemoryTile> {
    let i = position_of(s, id);
    if i >= 0 {
        s.update(i, read_at(s[i], now))
    } else {
        s
    }
}

/// What reading the tile with id `id` through `get` at time `now` returns.
pub open spec fn read_result(s: Seq<MemoryTile>, id: Seq<char>, now: u64) -> Option<MemoryTile> {
    let i = position_of(s, id);
    if i >= 0 {
        Some(read_at(s[i], now))
    } else {
        None
    }
}

/// The tile a reference points to, if any.
pub open spec fn opt_deref(r: Option<&MemoryTile>) -> Option<MemoryTile> {
    match r {
        Some(t) => Some(*t),
        None => None,
    }
}

/// The tiles after storing `t` at time `now` in a store of capacity `max`:
/// a tile with the same id is replaced in place; otherwise, when the store is
/// at capacity, the first tile of least importance is evicted, and the new
/// tile goes last. The stored tile is touched at `now`.
pub open spec fn after_store(s: Seq<MemoryTile>, max: nat, t: MemoryTile, now: u64) -> Seq<MemoryTile> {
    let i = position_of(s, t.id@);
    if i >= 0 {
        s.update(i, touched(t, now))
    } else if s.len() >= max {
        (if s.len() == 0 {
            s
        } else {
            s.remove(lowest_index(s))
        }).push(touched(t, now))
    } else {
        s.push(touched(t, now))
    }
}

/// The tile passes the filters of `MemoryStore::query`.
pub open spec fn passes(
    t: MemoryTile,
    room_id: Option<Seq<char>>,
    tile_type: Option<TileType>,
    min_importance: Option<i64>,
) -> bool {
    &&& (room_id matches Some(r) ==> t.room_id@ == r)
    &&& (tile_type matches Some(tt) ==> tile_type_eq(t.tile_type, tt))
    &&& (min_importance matches Some(m) ==> t.importance >= m)
}

/// The view of an optional string.
/// The filter of `MemoryStore::query`: the tile passes the given filters.
pub open spec fn query_pred(
    room_id: Option<Seq<char>>,
    tile_type: Option<TileType>,
    min_importance: Option<i64>,
) -> spec_fn(MemoryTile) -> bool {
    |t: MemoryTile| passes(t, room_id, tile_type, min_importance)
}

pub open spec fn opt_str_view(o: Option<&str>) -> Option<Seq<char>> {
    match o {
        Some(x) => Some(x@),
        None => None,
    }
}

/// The value of an optional reference to a tile type.
pub open spec fn opt_type(o: Option<&TileType>) -> Option<TileType> {
    match o {
        Some(x) => Some(*x),
        None => None,
    }
}

/// The tiles as values.
pub open spec fn deref_tiles(r: Seq<&MemoryTile>) -> Seq<MemoryTile> {
    r.map_values(|t: &MemoryTile| *t)
}

/// The creation times of the tiles.
pub open spec fn created_keys(s: Seq<MemoryTile>) -> Seq<i128> {
    s.map_values(|t: MemoryTile| t.created_at as i128)
}

/// The importance of the tiles.
pub open spec fn importance_keys(s: Seq<MemoryTile>) -> Seq<i128> {
    s.map_values(|t: MemoryTile| t.importance as i128)
}

/// The first `n` tiles of `s` in the order `order`.
pub open spec fn first_in_order(s: Seq<MemoryTile>, order: Seq<usize>, n: nat) -> Seq<MemoryTile> {
    order.take(if n < order.len() { n as int } else { order.len() as int }).map_values(|i: usize| s[i as int])
}

/// With distinct ids, the position of an id is the index that holds it.
/// Tiles that keep their ids, one for one, keep them distinct.
proof fn lemma_same_ids_distinct(s0: Seq<MemoryTile>, s1: Seq<MemoryTile>)
    requires
        ids_distinct(s0),
        s1.len() == s0.len(),
        forall|k: int| 0 <= k < s1.len() ==> (#[trigger] s1[k]).id@ == s0[k].id@,
    ensures
        ids_distinct(s1),
{
    assert forall|a: int, b: int| 0 <= a < b < s1.len() implies (#[trigger] s1[a]).id@ != (#[trigger] s1[b]).id@ by {
        assert(s0[a].id@ != s0[b].id@);
    }
}

/// Removing a tile keeps ids distinct and every tile well formed.
proof fn lemma_remove_keeps_wf(s: Seq<MemoryTile>, i: int)
    requires
        ids_distinct(s),
        forall|k: int| 0 <= k < s.len() ==> (#[trigger] s[k]).wf(),
        0 <= i < s.len(),
    ensures
        ids_distinct(s.remove(i)),
        forall|k: int| 0 <= k < s.remove(i).len() ==> (#[trigger] s.remove(i)[k]).wf(),
{
    let r = s.remove(i);
    assert forall|a: int, b: int| 0 <= a < b < r.len() implies (#[trigger] r[a]).id@ != (#[trigger] r[b]).id@ by {
        let a0 = if a < i { a } else { a + 1 };
        let b0 = if b < i { b } else { b + 1 };
        assert(r[a] == s[a0] && r[b] == s[b0]);
    }
    assert forall|k: int| 0 <= k < r.len() implies (#[trigger] r[k]).wf() by {
        let k0 = if k < i { k } else { k + 1 };
        assert(r[k] == s[k0]);
    }
}

pub proof fn lemma_position_of(s: Seq<MemoryTile>, id: Seq<char>)
    requires
        ids_distinct(s),
    ensures
        -1 <= position_of(s, id) < s.len(),
        position_of(s, id) >= 0 ==> s[position_of(s, id)].id@ == id,
        position_of(s, id) == -1 <==> forall|j: int| 0 <= j < s.len() ==> s[j].id@ != id,
        forall|j: int| 0 <= j < s.len() && s[j].id@ == id ==> position_of(s, id) == j,
    decreases s.len(),
{
    if s.len() > 0 {
        let t = s.drop_last();
        assert(ids_distinct(t)) by {
            assert forall|i: int, j: int| 0 <= i < j < t.len() implies (#[trigger] t[i]).id@ != (#[trigger] t[j]).id@ by {
                assert(t[i] == s[i] && t[j] == s[j]);
            }
        }
        lemma_position_of(t, id);
        assert forall|j: int| 0 <= j < s.len() && s[j].id@ == id implies position_of(s, id) == j by {
            if j < s.len() - 1 {
                assert(t[j] == s[j]);
            }
        }
        if position_of(s, id) == -1 {
            assert forall|j: int| 0 <= j < s.len() implies s[j].id@ != id by {
                if j < s.len() - 1 {
                    assert(t[j] == s[j]);
                }
            }
        }
    }
}

/// The lowest index holds a tile of least importance, and no earlier tile is
/// as unimportant.
pub proof fn lemma_lowest_index(s: Seq<MemoryTile>)
    requires
        s.len() > 0,
    ensures
        0 <= lowest_index(s) < s.len(),
        forall|j: int| 0 <= j < s.len() ==> s[lowest_index(s)].importance <= #[trigger] s[j].importance,
        forall|j: int| 0 <= j < lowest_index(s) ==> s[lowest_index(s)].importance < #[trigger] s[j].importance,
    decreases s.len(),
{
    if s.len() > 1 {
        let t = s.drop_last();
        lemma_lowest_index(t);
        let i = lowest_index(t);
        assert(t[i] == s[i]);
        assert forall|j: int| 0 <= j < s.len() implies s[lowest_index(s)].importance <= #[trigger] s[j].importance by {
            if j < s.len() - 1 {
                assert(t[j] == s[j]);
            }
        }
        assert forall|j: int| 0 <= j < lowest_index(s) implies s[lowest_index(s)].importance < #[trigger] s[j].importance by {
            if j < s.len() - 1 {
                assert(t[j] == s[j]);
            }
        }
    }
}

/// One step of pruning from the back: the tile at `i - 1` is dropped when it
/// fails `pred` and kept otherwise.
proof fn lemma_prune_step(s0: Seq<MemoryTile>, pred: spec_fn(MemoryTile) -> bool, i: int)
    requires
        0 < i <= s0.len(),
    ensures
        (s0.take(i) + s0.skip(i).filter(pred))[i - 1] == s0[i - 1],
        pred(s0[i - 1]) ==> s0.take(i) + s0.skip(i).filter(pred) == s0.take(i - 1) + s0.skip(i - 1).filter(pred),
        !pred(s0[i - 1]) ==> (s0.take(i) + s0.skip(i).filter(pred)).remove(i - 1) == s0.take(i - 1) + s0.skip(
            i - 1,
        ).filter(pred),
{
    let a = s0.take(i - 1);
    let x = s0[i - 1];
    let f = s0.skip(i).filter(pred);
    assert(s0.skip(i - 1) =~= seq![x] + s0.skip(i));
    s0.skip(i).lemma_filter_prepend(x, pred);
    assert(s0.take(i) =~= a.push(x));
    if pred(x) {
        assert(s0.take(i) + f =~= a + (seq![x] + f));
    } else {
        assert((a.push(x) + f).remove(i - 1) =~= a + f);
        assert(s0.skip(i - 1).filter(pred) =~= f);
    }
}

/// Keeping some of the tiles keeps their ids distinct and each well formed.
pub proof fn lemma_filter_keeps_wf(s: Seq<MemoryTile>, pred: spec_fn(MemoryTile) -> bool)
    requires
        ids_distinct(s),
        forall|i: int| 0 <= i < s.len() ==> (#[trigger] s[i]).wf(),
    ensures
        ids_distinct(s.filter(pred)),
        forall|i: int| 0 <= i < s.filter(pred).len() ==> (#[trigger] s.filter(pred)[i]).wf(),
    decreases s.len(),
{
    if s.len() > 0 {
        let t = s.drop_last();
        assert(ids_distinct(t)) by {
            assert forall|i: int, j: int| 0 <= i < j < t.len() implies (#[trigger] t[i]).id@ != (#[trigger] t[j]).id@ by {
                assert(t[i] == s[i] && t[j] == s[j]);
            }
        }
        assert forall|i: int| 0 <= i < t.len() implies (#[trigger] t[i]).wf() by {
            assert(t[i] == s[i]);
        }
        lemma_filter_keeps_wf(t, pred);
        assert(t.push(s.last()) =~= s);
        t.lemma_filter_push(s.last(), pred);
        let ft = t.filter(pred);
        if pred(s.last()) {
            let f = ft.push(s.last());
            assert forall|i: int, j: int| 0 <= i < j < f.len() implies (#[trigger] f[i]).id@ != (#[trigger] f[j]).id@ by {
                if j == f.len() - 1 {
                    assert(ft.contains(ft[i]));
                    t.lemma_filter_contains_rev(pred, ft[i]);
                    assert(t.contains(ft[i]));
                    let m = choose|m: int| 0 <= m < t.len() && t[m] == ft[i];
                    assert(s[m] == t[m]);
                } else {
                    assert(f[i] == ft[i] && f[j] == ft[j]);
                }
            }
            assert forall|i: int| 0 <= i < f.len() implies (#[trigger] f[i]).wf() by {
                if i < f.len() - 1 {
                    assert(f[i] == ft[i]);
                }
            }
        }
    }
}

/// Manages a collection of memory tiles with a capacity limit, decay and
/// pruning. Tiles are kept in insertion order; no two share an id.
#[derive(Debug, Clone)]
pub struct MemoryStore {
    pub tiles: Vec<MemoryTile>,
    pub max_tiles: usize,
}

impl MemoryStore {
    /// The store is well formed: ids are distinct and every tile is well
    /// formed.
    pub open spec fn wf(&self) -> bool {
        &&& ids_distinct(self.tiles@)
        &&& forall|i: int| 0 <= i < self.tiles@.len() ==> (#[trigger] self.tiles@[i]).wf()
    }

    /// An empty store holding at most `max_tiles` tiles.
    pub fn new(max_tiles: usize) -> (r: MemoryStore)
        ensures
            r.wf(),
            r.tiles@.len() == 0,
            r.max_tiles == max_tiles,
    {
        MemoryStore { tiles: Vec::new(), max_tiles }
    }

    /// The index of the tile with id `id`.
    pub(crate) fn find(&self, id: &String) -> (r: Option<usize>)
        requires
            self.wf(),
        ensures
            match r {
                Some(i) => i == position_of(self.tiles@, id@) && i < self.tiles@.len(),
                None => position_of(self.tiles@, id@) == -1,
            },
    {
        proof {
            lemma_position_of(self.tiles@, id@);
        }
        let mut i: usize = 0;
        while i < self.tiles.len()
            invariant
                i <= self.tiles@.len(),
                ids_distinct(self.tiles@),
                forall|j: int| 0 <= j < i ==> self.tiles@[j].id@ != id@,
            decreases self.tiles@.len() - i,
        {
            if self.tiles[i].id == *id {
                proof {
                    lemma_position_of(self.tiles@, id@);
                }
                return Some(i);
            }
            i = i + 1;
        }
        None
    }

    /// Evict the first tile of least importance.
    fn evict_lowest(&mut self)
        requires
            old(self).wf(),
        ensures
            final(self).wf(),
            final(self).max_tiles == old(self).max_tiles,
            final(self).tiles@ == if old(self).tiles@.len() == 0 {
                old(self).tiles@
            } else {
                old(self).tiles@.remove(lowest_index(old(self).tiles@))
            },
    {
        if self.tiles.len() == 0 {
            return;
        }
        proof {
            lemma_lowest_index(self.tiles@);
        }
        let mut lo: usize = 0;
        let mut i: usize = 1;
        while i < self.tiles.len()
            invariant
                1 <= i <= self.tiles@.len(),
                lo < i,
                forall|j: int| 0 <= j < i ==> self.tiles@[lo as int].importance <= #[trigger] self.tiles@[j].importance,
                forall|j: int| 0 <= j < lo ==> self.tiles@[lo as int].importance < #[trigger] self.tiles@[j].importance,
            decreases self.tiles@.len() - i,
        {
            if self.tiles[i].importance < self.tiles[lo].importance {
                lo = i;
            }
            i = i + 1;
        }
        proof {
            let s = self.tiles@;
            let li = lowest_index(s);
            if (lo as int) < li {
                assert(s[li].importance < s[lo as int].importance);
                assert(s[lo as int].importance <= s[li].importance);
            } else if li < (lo as int) {
                assert(s[lo as int].importance < s[li].importance);
                assert(s[li].importance <= s[lo as int].importance);
            }
        }
        let ghost before = self.tiles@;
        let _ = self.tiles.remove(lo);
        proof {
            lemma_remove_keeps_wf(before, lo as int);
        }
    }

    /// Store `tile`, touched at time `now`. A tile with the same id is
    /// replaced; otherwise, when the store is at capacity, the tile of least
    /// importance is evicted first.
    pub fn store_at(&mut self, tile: MemoryTile, now: u64)
        requires
            old(self).wf(),
            tile.wf(),
            tile.access_count < u64::MAX,
        ensures
            final(self).wf(),
            final(self).max_tiles == old(self).max_tiles,
            final(self).tiles@ == after_store(old(self).tiles@, old(self).max_tiles as nat, tile, now),
    {
        let mut t = tile;
        t.touch_at(now);
        proof {
            lemma_position_of(self.tiles@, t.id@);
        }
        match self.find(&t.id) {
            Some(i) => {
                let ghost before = self.tiles@;
                self.tiles.set(i, t);
                proof {
                    lemma_same_ids_distinct(before, self.tiles@);
                }
            },
            None => {
                let ghost s0 = self.tiles@;
                if self.tiles.len() >= self.max_tiles {
                    self.evict_lowest();
                }
                let ghost before = self.tiles@;
                proof {
                    assert forall|k: int| 0 <= k < before.len() implies before[k].id@ != t.id@ by {
                        if s0.len() > 0 && s0.len() >= self.max_tiles {
                            let lo = lowest_index(s0);
                            lemma_lowest_index(s0);
                            let k0 = if k < lo { k } else { k + 1 };
                            assert(before[k] == s0[k0]);
                        } else {
                            assert(before[k] == s0[k]);
                        }
                    }
                }
                self.tiles.push(t);
                proof {
                    assert forall|a: int, b: int| 0 <= a < b < self.tiles@.len() implies (#[trigger] self.tiles@[a]).id@ != (#[trigger] self.tiles@[b]).id@ by {
                        assert(self.tiles@[a] == before[a]);
                        if b < before.len() {
                            assert(self.tiles@[b] == before[b]);
                        }
                    }
                    assert forall|k: int| 0 <= k < self.tiles@.len() implies (#[trigger] self.tiles@[k]).wf() by {
                        if k < before.len() {
                            assert(self.tiles@[k] == before[k]);
                        }
                    }
                }
            },
        }
    }

    /// Store `tile`, touched at the current time (see `store_at`).
    pub fn store(&mut self, tile: MemoryTile)
        requires
            old(self).wf(),
            tile.wf(),
            tile.access_count < u64::MAX,
        ensures
            final(self).wf(),
            final(self).max_tiles == old(self).max_tiles,
            exists|now: u64| #[trigger] after_store(old(self).tiles@, old(self).max_tiles as nat, tile, now) == final(self).tiles@,
    {
        let now = now_millis();
        self.store_at(tile, now);
    }

    /// Read the tile with id `id` at time `now`: it is touched and reinforced
    /// by `ACCESS_REINFORCEMENT` before being returned.
    pub fn get_at(&mut self, id: &str, now: u64) -> (r: Option<&MemoryTile>)
        requires
            old(self).wf(),
            position_of(old(self).tiles@, id@) >= 0 ==> old(self).tiles@[position_of(
                old(self).tiles@,
                id@,
            )].access_count < u64::MAX,
        ensures
            final(self).wf(),
            final(self).max_tiles == old(self).max_tiles,
            final(self).tiles@ == after_read(old(self).tiles@, id@, now),
            opt_deref(r) == read_result(old(self).tiles@, id@, now),
    {
        let key = id.to_string();
        match self.find(&key) {
            Some(i) => {
                let ghost before = self.tiles@;
                self.tiles[i].touch_at(now);
                self.tiles[i].reinforce(ACCESS_REINFORCEMENT);
                proof {
                    assert(self.tiles@ =~= before.update(i as int, read_at(before[i as int], now)));
                    lemma_same_ids_distinct(before, self.tiles@);
                    assert forall|k: int| 0 <= k < self.tiles@.len() implies (#[trigger] self.tiles@[k]).wf() by {
                        assert(self.tiles@[k].metadata == before[k].metadata);
                    }
                }
                Some(&self.tiles[i])
            },
            None => None,
        }
    }

    /// Read the tile with id `id` at the current time (see `get_at`).
    pub fn get(&mut self, id: &str) -> (r: Option<&MemoryTile>)
        requires
            old(self).wf(),
            position_of(old(self).tiles@, id@) >= 0 ==> old(self).tiles@[position_of(
                old(self).tiles@,
                id@,
            )].access_count < u64::MAX,
        ensures
            final(self).wf(),
            final(self).max_tiles == old(self).max_tiles,
            exists|now: u64|
                #[trigger] after_read(old(self).tiles@, id@, now) == final(self).tiles@ && opt_deref(r)
                    == read_result(old(self).tiles@, id@, now),
    {
        let now = now_millis();
        self.get_at(id, now)
    }

    /// The tile with id `id`, left as it is.
    pub fn get_untouched(&self, id: &str) -> (r: Option<&MemoryTile>)
        requires
            self.wf(),
        ensures
            ({
                let i = position_of(self.tiles@, id@);
                if i >= 0 {
                    r matches Some(t) && *t == self.tiles@[i]
                } else {
                    r is None
                }
            }),
    {
        let key = id.to_string();
        match self.find(&key) {
            Some(i) => Some(&self.tiles[i]),
            None => None,
        }
    }

    /// The tiles, in store order, that lie in room `room_id`, have type
    /// `tile_type` and importance at least `min_importance` (each filter
    /// applying only when given).
    pub fn query(&self, room_id: Option<&str>, tile_type: Option<&TileType>, min_importance: Option<i64>) -> (r: Vec<
        &MemoryTile,
    >)
        ensures
            deref_tiles(r@) == self.tiles@.filter(
                |t: MemoryTile| passes(t, opt_str_view(room_id), opt_type(tile_type), min_importance),
            ),
            deref_tiles(r@) == self.tiles@.filter(query_pred(opt_str_view(room_id), opt_type(tile_type), min_importance)),
    {
        let room: Option<String> = match room_id {
            Some(x) => Some(x.to_string()),
            None => None,
        };
        let ghost rv = opt_str_view(room_id);
        let ghost tv = opt_type(tile_type);
        let ghost pred = query_pred(opt_str_view(room_id), opt_type(tile_type), min_importance);
        proof {
            assert(pred =~= (|t: MemoryTile| passes(t, opt_str_view(room_id), opt_type(tile_type), min_importance)));
        }
        let mut r: Vec<&MemoryTile> = Vec::new();
        let mut i: usize = 0;
        while i < self.tiles.len()
            invariant
                i <= self.tiles@.len(),
                pred == query_pred(opt_str_view(room_id), opt_type(tile_type), min_importance),
                pred == (|t: MemoryTile| passes(t, opt_str_view(room_id), opt_type(tile_type), min_importance)),
                rv == opt_str_view(room_id),
                tv == opt_type(tile_type),
                match room {
                    Some(x) => rv == Some(x@),
                    None => rv is None,
                },
                match tile_type {
                    Some(x) => tv == Some(*x),
                    None => tv is None,
                },
                deref_tiles(r@) == self.tiles@.take(i as int).filter(pred),
            decreases self.tiles@.len() - i,
        {
            proof {
                self.tiles@.lemma_take_succ_push(i as int);
                self.tiles@.take(i as int).lemma_filter_push(self.tiles@[i as int], pred);
            }
            let t = &self.tiles[i];
            let mut ok = true;
            match &room {
                Some(x) => {
                    if t.room_id != *x {
                        ok = false;
                    }
                },
                None => {},
            }
            match tile_type {
                Some(tt) => {
                    if !(t.tile_type == *tt) {
                        ok = false;
                    }
                },
                None => {},
            }
            match min_importance {
                Some(m) => {
                    if t.importance < m {
                        ok = false;
                    }
                },
                None => {},
            }
            proof {
                assert(ok == pred(*t));
            }
            let ghost before = r@;
            if ok {
                r.push(t);
                proof {
                    assert(deref_tiles(r@) =~= deref_tiles(before).push(*t));
                }
            }
            i = i + 1;
        }
        proof {
            assert(self.tiles@.take(i as int) =~= self.tiles@);
        }
        r
    }

    /// References to the tiles listed by `order`, at most the first `n`.
    fn pick<'a>(&'a self, order: &Vec<usize>, n: usize) -> (r: Vec<&'a MemoryTile>)
        requires
            forall|k: int| 0 <= k < order@.len() ==> #[trigger] order@[k] < self.tiles@.len(),
        ensures
            deref_tiles(r@) == first_in_order(self.tiles@, order@, n as nat),
    {
        let m = if n < order.len() {
            n
        } else {
            order.len()
        };
        let mut r: Vec<&MemoryTile> = Vec::new();
        let mut k: usize = 0;
        while k < m
            invariant
                k <= m,
                m <= order@.len(),
                m == (if n < order@.len() { n as int } else { order@.len() as int }),
                forall|k: int| 0 <= k < order@.len() ==> #[trigger] order@[k] < self.tiles@.len(),
                deref_tiles(r@) == order@.take(k as int).map_values(|i: usize| self.tiles@[i as int]),
            decreases m - k,
        {
            let ghost before = r@;
            r.push(&self.tiles[order[k]]);
            proof {
                assert(deref_tiles(r@) =~= deref_tiles(before).push(self.tiles@[order@[k as int] as int]));
                assert(order@.take(k + 1) =~= order@.take(k as int).push(order@[k as int]));
                assert(order@.take(k + 1).map_values(|i: usize| self.tiles@[i as int]) =~= order@.take(
                    k as int,
                ).map_values(|i: usize| self.tiles@[i as int]).push(self.tiles@[order@[k as int] as int]));
            }
            k = k + 1;
        }
        r
    }

    /// The `n` most recently created tiles, newest first (ties in store
    /// order).
    pub fn recent(&self, n: usize) -> (r: Vec<&MemoryTile>)
        ensures
            exists|order: Seq<usize>|
                is_rank_order(created_keys(self.tiles@), order) && deref_tiles(r@) == first_in_order(
                    self.tiles@,
                    order,
                    n as nat,
                ),
    {
        let mut keys: Vec<i128> = Vec::new();
        let mut i: usize = 0;
        while i < self.tiles.len()
            invariant
                i <= self.tiles@.len(),
                keys@ == created_keys(self.tiles@).take(i as int),
            decreases self.tiles@.len() - i,
        {
            keys.push(self.tiles[i].created_at as i128);
            proof {
                assert(keys@ =~= created_keys(self.tiles@).take(i + 1));
            }
            i = i + 1;
        }
        proof {
            assert(keys@ =~= created_keys(self.tiles@));
        }
        let order = rank_order(&keys);
        self.pick(&order, n)
    }

    /// The `n` most important tiles, most important first (ties in store
    /// order).
    pub fn important(&self, n: usize) -> (r: Vec<&MemoryTile>)
        ensures
            exists|order: Seq<usize>|
                is_rank_order(importance_keys(self.tiles@), order) && deref_tiles(r@) == first_in_order(
                    self.tiles@,
                    order,
                    n as nat,
                ),
    {
        let mut keys: Vec<i128> = Vec::new();
        let mut i: usize = 0;
        while i < self.tiles.len()
            invariant
                i <= self.tiles@.len(),
                keys@ == importance_keys(self.tiles@).take(i as int),
            decreases self.tiles@.len() - i,
        {
            keys.push(self.tiles[i].importance as i128);
            proof {
                assert(keys@ =~= importance_keys(self.tiles@).take(i + 1));
            }
            i = i + 1;
        }
        proof {
            assert(keys@ =~= importance_keys(self.tiles@));
        }
        let order = rank_order(&keys);
        self.pick(&order, n)
    }

    /// Decay every tile by `rate`.
    pub fn decay_all(&mut self, rate: i64)
        requires
            old(self).wf(),
        ensures
            final(self).wf(),
            final(self).max_tiles == old(self).max_tiles,
            final(self).tiles@ == old(self).tiles@.map_values(
                |t: MemoryTile| MemoryTile { importance: decayed(t.importance, rate), ..t },
            ),
    {
        let ghost s0 = self.tiles@;
        let mut i: usize = 0;
        while i < self.tiles.len()
            invariant
                i <= self.tiles@.len(),
                self.tiles@.len() == s0.len(),
                self.max_tiles == old(self).max_tiles,
                s0 == old(self).tiles@,
                forall|k: int| 0 <= k < i ==> self.tiles@[k] == (MemoryTile { importance: decayed(s0[k].importance, rate), ..s0[k] }),
                forall|k: int| i <= k < s0.len() ==> self.tiles@[k] == s0[k],
            decreases s0.len() - i,
        {
            self.tiles[i].decay(rate);
            i = i + 1;
        }
        proof {
            assert(self.tiles@ =~= s0.map_values(|t: MemoryTile| MemoryTile { importance: decayed(t.importance, rate), ..t }));
            lemma_same_ids_distinct(s0, self.tiles@);
            assert forall|k: int| 0 <= k < self.tiles@.len() implies (#[trigger] self.tiles@[k]).wf() by {
                assert(self.tiles@[k].metadata == s0[k].metadata);
            }
        }
    }

    /// Basic consolidation: tiles that were never accessed decay by
    /// `UNTOUCHED_DECAY`.
    pub fn consolidate(&mut self)
        requires
            old(self).wf(),
        ensures
            final(self).wf(),
            final(self).max_tiles == old(self).max_tiles,
            final(self).tiles@ == old(self).tiles@.map_values(
                |t: MemoryTile|
                    if t.access_count == 0 {
                        MemoryTile { importance: decayed(t.importance, UNTOUCHED_DECAY), ..t }
                    } else {
                        t
                    },
            ),
    {
        let ghost s0 = self.tiles@;
        let mut i: usize = 0;
        while i < self.tiles.len()
            invariant
                i <= self.tiles@.len(),
                self.tiles@.len() == s0.len(),
                self.max_tiles == old(self).max_tiles,
                s0 == old(self).tiles@,
                forall|k: int| 0 <= k < i ==> self.tiles@[k] == (if s0[k].access_count == 0 {
                    MemoryTile { importance: decayed(s0[k].importance, UNTOUCHED_DECAY), ..s0[k] }
                } else {
                    s0[k]
                }),
                forall|k: int| i <= k < s0.len() ==> self.tiles@[k] == s0[k],
            decreases s0.len() - i,
        {
            if self.tiles[i].access_count == 0 {
                self.tiles[i].decay(UNTOUCHED_DECAY);
            }
            i = i + 1;
        }
        proof {
            assert(self.tiles@ =~= s0.map_values(
                |t: MemoryTile|
                    if t.access_count == 0 {
                        MemoryTile { importance: decayed(t.importance, UNTOUCHED_DECAY), ..t }
                    } else {
                        t
                    },
            ));
            lemma_same_ids_distinct(s0, self.tiles@);
            assert forall|k: int| 0 <= k < self.tiles@.len() implies (#[trigger] self.tiles@[k]).wf() by {
                assert(self.tiles@[k].metadata == s0[k].metadata);
            }
        }
    }

    /// Remove the tiles whose importance is below `min_importance`.
    pub fn prune(&mut self, min_importance: i64)
        requires
            old(self).wf(),
        ensures
            final(self).wf(),
            final(self).max_tiles == old(self).max_tiles,
            final(self).tiles@ == old(self).tiles@.filter(|t: MemoryTile| t.importance >= min_importance),
    {
        let ghost s0 = self.tiles@;
        let ghost pred = |t: MemoryTile| t.importance >= min_importance;
        let mut i: usize = self.tiles.len();
        while i > 0
            invariant
                i <= s0.len(),
                s0 == old(self).tiles@,
                self.max_tiles == old(self).max_tiles,
                pred == (|t: MemoryTile| t.importance >= min_importance),
                self.tiles@ == s0.take(i as int) + s0.skip(i as int).filter(pred),
            decreases i,
        {
            proof {
                lemma_prune_step(s0, pred, i as int);
            }
            if self.tiles[i - 1].importance < min_importance {
                let _ = self.tiles.remove(i - 1);
            }
            i = i - 1;
        }
        proof {
            assert(s0.take(0) + s0.skip(0).filter(pred) =~= s0.filter(pred));
            lemma_filter_keeps_wf(s0, pred);
        }
    }

    /// Number of tiles in the store.
    pub fn tile_count(&self) -> (r: usize)
        ensures
            r == self.tiles@.len(),
    {
        self.tiles.len()
    }

    /// Memory pressure, tile count over capacity as a fixed-point fraction
    /// rounded down (`UNIT` when the capacity is 0).
    pub fn memory_pressure(&self) -> (r: i64)
        ensures
            r == pressure_of(self.tiles@.len(), self.max_tiles as nat),
    {
        if self.max_tiles == 0 {
            return UNIT;
        }
        let num: u128 = self.tiles.len() as u128 * (UNIT as u128);
        let q: u128 = num / (self.max_tiles as u128);
        if q > i64::MAX as u128 {
            i64::MAX
        } else {
            q as i64
        }
    }

    /// Remove the tile with id `id` and return it.
    pub fn remove(&mut self, id: &str) -> (r: Option<MemoryTile>)
        requires
            old(self).wf(),
        ensures
            final(self).wf(),
            final(self).max_tiles == old(self).max_tiles,
            ({
                let i = position_of(old(self).tiles@, id@);
                if i >= 0 {
                    &&& r == Some(old(self).tiles@[i])
                    &&& final(self).tiles@ == old(self).tiles@.remove(i)
                } else {
                    &&& r is None
                    &&& final(self).tiles@ == old(self).tiles@
                }
            }),
    {
        let key = id.to_string();
        match self.find(&key) {
            Some(i) => {
                let ghost before = self.tiles@;
                let t = self.tiles.remove(i);
                proof {
                    lemma_remove_keeps_wf(before, i as int);
                }
                Some(t)
            },
            None => None,
        }
    }
}

} // verus!
