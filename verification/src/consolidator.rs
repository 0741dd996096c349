//! The dream phase: similar tiles are merged into dream tiles.
use vstd::prelude::*;

use crate::clock::now_millis;
use crate::fixed::{clamp, trunc_div, UNIT};
use crate::graph::contains_string;
use crate::search::clone_strings;
use crate::store::{tile_views, view_after_store, view_position, MemoryStore};
use crate::text::{contains_str, decimal, decimal_string, occurs_in};
use crate::tile::{connected_view, decayed_view, string_views, MemoryTile, TileView};
use crate::tile_type::{display_of, same_kind, TileType};

verus! {

broadcast use vstd::seq_lib::group_seq_properties;

/// The default decay of consolidated tiles (one fifth of `UNIT`).
pub const DEFAULT_CONSOLIDATION_DECAY: i64 = 200_000_000;

/// Two tiles are similar: the same kind of tile type, and either some
/// metadata key with the same value in both, or the content of one occurring
/// in the content of the other.
pub open spec fn similar(a: TileView, b: TileView) -> bool {
    &&& same_kind(a.tile_type, b.tile_type)
    &&& {
        ||| exists|k: Seq<char>|
            a.metadata.dom().contains(k) && b.metadata.dom().contains(k) && a.metadata[k] == b.metadata[k]
        ||| occurs_in(b.content, a.content)
        ||| occurs_in(a.content, b.content)
    }
}

/// The parts joined with `sep` between each two.
pub open spec fn join(parts: Seq<Seq<char>>, sep: Seq<char>) -> Seq<char>
    decreases parts.len(),
{
    if parts.len() == 0 {
        Seq::empty()
    } else if parts.len() == 1 {
        parts[0]
    } else {
        join(parts.drop_last(), sep) + sep + parts.last()
    }
}

/// The view of the tile with id `id`.
pub open spec fn tile_of(tiles: Seq<TileView>, id: Seq<char>) -> TileView {
    tiles[view_position(tiles, id)]
}

/// The id names a tile of `tiles`.
pub open spec fn is_present(tiles: Seq<TileView>) -> spec_fn(Seq<char>) -> bool {
    |m: Seq<char>| view_position(tiles, m) >= 0
}

/// The contents of the members whose tile is present, in order.
pub open spec fn present_contents(tiles: Seq<TileView>, members: Seq<Seq<char>>) -> Seq<Seq<char>> {
    members.filter(is_present(tiles)).map_values(|m: Seq<char>| tile_of(tiles, m).content)
}

/// The content of a dream tile: for up to three members, the contents of
/// those present joined with ` + `; otherwise a count and the type of the
/// first.
pub open spec fn dream_summary(tiles: Seq<TileView>, members: Seq<Seq<char>>) -> Seq<char> {
    if members.len() <= 3 {
        join(present_contents(tiles, members), " + "@)
    } else {
        "Consolidation of "@ + decimal(members.len()) + " "@ + display_of(tile_of(tiles, members[0]).tile_type)
            + " tiles"@
    }
}

/// The sum of the importance of the members whose tile is present.
pub open spec fn importance_total(tiles: Seq<TileView>, members: Seq<Seq<char>>) -> int
    decreases members.len(),
{
    if members.len() == 0 {
        0
    } else {
        importance_total(tiles, members.drop_last()) + if view_position(tiles, members.last()) >= 0 {
            tile_of(tiles, members.last()).importance as int
        } else {
            0
        }
    }
}

/// The importance of a dream tile: the sum over the members present divided
/// by the number of members (rounded toward zero), clamped into `[0, UNIT]`.
pub open spec fn dream_importance(tiles: Seq<TileView>, members: Seq<Seq<char>>) -> i64 {
    clamp(trunc_div(importance_total(tiles, members), members.len() as int), 0, UNIT as int) as i64
}

/// Connections after connecting to each of `ids` in turn.
pub open spec fn connect_all(conns: Seq<Seq<char>>, ids: Seq<Seq<char>>) -> Seq<Seq<char>>
    decreases ids.len(),
{
    if ids.len() == 0 {
        conns
    } else {
        let c = connect_all(conns, ids.drop_last());
        if c.contains(ids.last()) {
            c
        } else {
            c.push(ids.last())
        }
    }
}

/// The id of a dream tile created at time `now`.
pub open spec fn dream_id(now: u64) -> Seq<char> {
    "dream_"@ + decimal(now as nat)
}

/// The id `dream_<now>_<k>`, used when `dream_<now>` is taken.
pub open spec fn numbered_dream_id(now: u64, k: nat) -> Seq<char> {
    dream_id(now) + "_"@ + decimal(k)
}

/// The first `j` from `k` on for which `dream_<now>_<j>` is not in `taken`,
/// looking at most `fuel` steps ahead (`k + fuel` when all of them are taken).
pub open spec fn first_free(now: u64, taken: Seq<Seq<char>>, k: nat, fuel: nat) -> nat
    decreases fuel,
{
    if fuel == 0 || !taken.contains(numbered_dream_id(now, k)) {
        k
    } else {
        first_free(now, taken, k + 1, (fuel - 1) as nat)
    }
}

/// The id of a dream created at time `now` while the ids in `taken` are in
/// use: `dream_<now>` when it is free, otherwise `dream_<now>_<k>` for the
/// least `k >= 1` for which that is free.
pub open spec fn fresh_dream_id(now: u64, taken: Seq<Seq<char>>) -> Seq<char> {
    if !taken.contains(dream_id(now)) {
        dream_id(now)
    } else {
        numbered_dream_id(now, first_free(now, taken, 1, taken.len()))
    }
}

/// Different numbers give different numbered dream ids.
proof fn lemma_numbered_dream_id_injective(now: u64, a: nat, b: nat)
    requires
        numbered_dream_id(now, a) == numbered_dream_id(now, b),
    ensures
        a == b,
{
    let pre = dream_id(now) + "_"@;
    assert(numbered_dream_id(now, a).skip(pre.len() as int) =~= decimal(a));
    assert(numbered_dream_id(now, b).skip(pre.len() as int) =~= decimal(b));
    crate::text::lemma_decimal_injective(a, b);
}

/// What `first_free` finds: every numbered id it passes over is taken, and
/// the one it stops at is free unless it ran out of steps.
proof fn lemma_first_free(now: u64, taken: Seq<Seq<char>>, k: nat, fuel: nat)
    ensures
        k <= first_free(now, taken, k, fuel) <= k + fuel,
        forall|j: nat| k <= j < first_free(now, taken, k, fuel) ==> taken.contains(#[trigger] numbered_dream_id(now, j)),
        first_free(now, taken, k, fuel) < k + fuel ==> !taken.contains(
            numbered_dream_id(now, first_free(now, taken, k, fuel)),
        ),
    decreases fuel,
{
    if fuel > 0 && taken.contains(numbered_dream_id(now, k)) {
        lemma_first_free(now, taken, k + 1, (fuel - 1) as nat);
    }
}

/// A fresh dream id is not among the ids in use.
pub proof fn lemma_fresh_dream_id(now: u64, taken: Seq<Seq<char>>)
    ensures
        !taken.contains(fresh_dream_id(now, taken)),
{
    if taken.contains(dream_id(now)) {
        let n = taken.len();
        let f = first_free(now, taken, 1, n);
        lemma_first_free(now, taken, 1, n);
        if taken.contains(numbered_dream_id(now, f)) {
            // Then `dream_<now>_1` .. `dream_<now>_<n + 1>` are n + 1 distinct ids in use.
            assert(f == n + 1);
            let c = Seq::new(n + 1, |i: int| numbered_dream_id(now, (i + 1) as nat));
            assert(c.no_duplicates()) by {
                assert forall|i: int, j: int| 0 <= i < c.len() && 0 <= j < c.len() && i != j implies c[i] != c[j] by {
                    if c[i] == c[j] {
                        lemma_numbered_dream_id_injective(now, (i + 1) as nat, (j + 1) as nat);
                    }
                }
            }
            assert forall|x: Seq<char>| c.contains(x) implies taken.to_set().contains(x) by {
                let i = choose|i: int| 0 <= i < c.len() && c[i] == x;
                let j = (i + 1) as nat;
                if j < f {
                    assert(taken.contains(numbered_dream_id(now, j)));
                }
            }
            taken.lemma_cardinality_of_set();
            crate::order::lemma_no_dup_subset_len(c, taken.to_set());
        }
    }
}

/// The dream tile with id `id` that summarizes `members`, created at time
/// `now`, before it is stored.
pub open spec fn dream_view(tiles: Seq<TileView>, members: Seq<Seq<char>>, now: u64, id: Seq<char>) -> TileView {
    let first = tile_of(tiles, members[0]);
    TileView {
        id,
        room_id: first.room_id,
        agent_id: first.agent_id,
        tile_type: TileType::Dream,
        content: dream_summary(tiles, members),
        importance: dream_importance(tiles, members),
        access_count: 0,
        created_at: now,
        last_accessed: now,
        embeddings: Seq::empty(),
        connections: connect_all(Seq::empty(), members),
        metadata: Map::empty(),
    }
}

/// The tiles after each member still present decays by `rate` and connects
/// to the dream `did`.
pub open spec fn apply_members(tiles: Seq<TileView>, members: Seq<Seq<char>>, did: Seq<char>, rate: i64) -> Seq<
    TileView,
>
    decreases members.len(),
{
    if members.len() == 0 {
        tiles
    } else {
        let t = apply_members(tiles, members.drop_last(), did, rate);
        let p = view_position(t, members.last());
        if p >= 0 {
            t.update(p, connected_view(decayed_view(t[p], rate), did))
        } else {
            t
        }
    }
}

/// The state of a consolidation run: the tiles, the ids already merged into
/// a dream, the ids of the dreams created, and how many clock readings were
/// taken.
pub ghost struct Consolidation {
    pub tiles: Seq<TileView>,
    pub clustered: Set<Seq<char>>,
    pub created: Seq<Seq<char>>,
    pub used: nat,
}

/// An id joins the cluster around `key`: it is another id, not yet merged,
/// whose tile is present and similar to `tile`.
pub open spec fn joins_cluster(st: Consolidation, key: Seq<char>, tile: TileView) -> spec_fn(Seq<char>) -> bool {
    |o: Seq<char>|
        o != key && !st.clustered.contains(o) && view_position(st.tiles, o) >= 0 && similar(
            tile,
            st.tiles[view_position(st.tiles, o)],
        )
}

/// The cluster around `key`: `key` followed, in the order of `ids`, by every
/// id that joins it.
pub open spec fn cluster_of(ids: Seq<Seq<char>>, st: Consolidation, key: Seq<char>, tile: TileView) -> Seq<Seq<char>> {
    seq![key] + ids.filter(joins_cluster(st, key, tile))
}

/// One step of consolidation, for the id `key`: when `key` is not yet merged
/// and its tile is present, and its cluster has at least `min` members, a
/// dream tile is created with the next clock reading, under an id that no
/// tile and no dream of the run has yet, stored (touched with the reading
/// after it) in a store of capacity `max`, and every member still present
/// decays by `rate` and connects to the dream.
pub open spec fn consolidation_step(
    min: nat,
    rate: i64,
    max: nat,
    ids: Seq<Seq<char>>,
    clock: spec_fn(nat) -> u64,
    st: Consolidation,
    key: Seq<char>,
) -> Consolidation {
    let p = view_position(st.tiles, key);
    if st.clustered.contains(key) || p < 0 {
        st
    } else {
        let members = cluster_of(ids, st, key, st.tiles[p]);
        if members.len() >= min {
            let now = clock(st.used);
            let d = dream_view(st.tiles, members, now, fresh_dream_id(now, view_ids(st.tiles) + st.created));
            let stored = view_after_store(st.tiles, max, d, clock(st.used + 1));
            Consolidation {
                tiles: apply_members(stored, members, d.id, rate),
                clustered: st.clustered + members.to_set(),
                created: st.created.push(d.id),
                used: st.used + 2,
            }
        } else {
            st
        }
    }
}

/// Consolidation over the first `k` ids, starting from `tiles`.
pub open spec fn consolidation_run(
    min: nat,
    rate: i64,
    max: nat,
    ids: Seq<Seq<char>>,
    clock: spec_fn(nat) -> u64,
    tiles: Seq<TileView>,
    k: nat,
) -> Consolidation
    decreases k,
{
    if k == 0 {
        Consolidation { tiles, clustered: Set::empty(), created: Seq::empty(), used: 0 }
    } else {
        consolidation_step(
            min,
            rate,
            max,
            ids,
            clock,
            consolidation_run(min, rate, max, ids, clock, tiles, (k - 1) as nat),
            ids[k - 1],
        )
    }
}

/// The ids of the tiles, in order.
pub open spec fn view_ids(tiles: Seq<TileView>) -> Seq<Seq<char>> {
    tiles.map_values(|t: TileView| t.id)
}

/// A consolidation run takes at least as many clock readings over more ids.
pub proof fn lemma_run_used_grows(
    min: nat,
    rate: i64,
    max: nat,
    ids: Seq<Seq<char>>,
    clock: spec_fn(nat) -> u64,
    tiles: Seq<TileView>,
    k: nat,
)
    requires
        k > 0,
    ensures
        consolidation_run(min, rate, max, ids, clock, tiles, (k - 1) as nat).used <= consolidation_run(
            min,
            rate,
            max,
            ids,
            clock,
            tiles,
            k,
        ).used,
{
}

/// A consolidation run depends only on the clock readings it takes.
pub proof fn lemma_run_clock_agree(
    min: nat,
    rate: i64,
    max: nat,
    ids: Seq<Seq<char>>,
    c1: spec_fn(nat) -> u64,
    c2: spec_fn(nat) -> u64,
    tiles: Seq<TileView>,
    k: nat,
)
    requires
        forall|i: nat| i < consolidation_run(min, rate, max, ids, c1, tiles, k).used ==> #[trigger] c1(i) == c2(i),
    ensures
        consolidation_run(min, rate, max, ids, c1, tiles, k) == consolidation_run(min, rate, max, ids, c2, tiles, k),
    decreases k,
{
    if k > 0 {
        lemma_run_used_grows(min, rate, max, ids, c1, tiles, k);
        lemma_run_clock_agree(min, rate, max, ids, c1, c2, tiles, (k - 1) as nat);
        let st = consolidation_run(min, rate, max, ids, c1, tiles, (k - 1) as nat);
        let out = consolidation_run(min, rate, max, ids, c1, tiles, k);
        if out.used == st.used + 2 {
            assert(c1(st.used) == c2(st.used));
            assert(c1(st.used + 1) == c2(st.used + 1));
        }
    }
}

/// Every dream of a run gets its own id, different from the ids of the
/// tiles in the store when it is created.
pub proof fn lemma_run_ids_distinct(
    min: nat,
    rate: i64,
    max: nat,
    ids: Seq<Seq<char>>,
    clock: spec_fn(nat) -> u64,
    tiles: Seq<TileView>,
    k: nat,
)
    ensures
        consolidation_run(min, rate, max, ids, clock, tiles, k).created.no_duplicates(),
    decreases k,
{
    if k > 0 {
        lemma_run_ids_distinct(min, rate, max, ids, clock, tiles, (k - 1) as nat);
        let st = consolidation_run(min, rate, max, ids, clock, tiles, (k - 1) as nat);
        let out = consolidation_run(min, rate, max, ids, clock, tiles, k);
        if out.created != st.created {
            let now = clock(st.used);
            let taken = view_ids(st.tiles) + st.created;
            let d = fresh_dream_id(now, taken);
            lemma_fresh_dream_id(now, taken);
            assert(out.created == st.created.push(d));
            assert forall|i: int| 0 <= i < st.created.len() implies st.created[i] != d by {
                assert(taken[view_ids(st.tiles).len() + i] == st.created[i]);
            }
        }
    }
}

/// A clock reading: the fixed time when one is given, the system clock
/// otherwise.
fn read_clock(fixed: Option<u64>) -> (r: u64)
    ensures
        fixed matches Some(t) ==> r == t,
{
    match fixed {
        Some(t) => t,
        None => now_millis(),
    }
}

/// Whether `id` is in use: the id of a tile of the store, or one of `created`.
fn id_taken(store: &MemoryStore, created: &Vec<String>, id: &String) -> (r: bool)
    requires
        store.wf(),
    ensures
        r == (view_ids(tile_views(store.tiles@)) + string_views(created@)).contains(id@),
{
    let in_store = match store.find(id) {
        Some(_) => true,
        None => false,
    };
    let in_created = contains_string(created.as_slice(), id);
    proof {
        let ids = view_ids(tile_views(store.tiles@));
        let cs = string_views(created@);
        let t = ids + cs;
        crate::store::lemma_position_of(store.tiles@, id@);
        if in_store {
            let p = crate::store::position_of(store.tiles@, id@);
            assert(ids[p] == id@);
            assert(t[p] == id@);
        }
        if in_created {
            let k = choose|k: int| 0 <= k < cs.len() && cs[k] == id@;
            assert(t[ids.len() + k] == id@);
        }
        if t.contains(id@) {
            let j = choose|j: int| 0 <= j < t.len() && t[j] == id@;
            if j < ids.len() {
                assert(store.tiles@[j].id@ == id@);
            } else {
                assert(cs[j - ids.len()] == id@);
                assert(cs.contains(id@));
            }
        }
    }
    in_store || in_created
}

/// The id for a dream created at time `now`: `dream_<now>`, or, when that is
/// in use, `dream_<now>_<k>` for the least `k >= 1` not in use (see
/// `fresh_dream_id`).
fn fresh_id(store: &MemoryStore, created: &Vec<String>, now: u64) -> (r: String)
    requires
        store.wf(),
    ensures
        r@ == fresh_dream_id(now, view_ids(tile_views(store.tiles@)) + string_views(created@)),
{
    let ghost taken = view_ids(tile_views(store.tiles@)) + string_views(created@);
    let mut base = "dream_".to_string();
    base.append(decimal_string(now as u128).as_str());
    if !id_taken(store, created, &base) {
        return base;
    }
    let ghost f = first_free(now, taken, 1, taken.len());
    let n_tiles = store.tiles.len();
    let n_created = created.len();
    proof {
        lemma_first_free(now, taken, 1, taken.len());
        lemma_fresh_dream_id(now, taken);
        assert(taken.len() == n_tiles + n_created);
    }
    let mut k: u128 = 1;
    loop
        invariant
            1 <= k <= f,
            f <= taken.len() + 1,
            taken.len() <= 2 * usize::MAX,
            store.wf(),
            taken == view_ids(tile_views(store.tiles@)) + string_views(created@),
            base@ == dream_id(now),
            taken.contains(dream_id(now)),
            f == first_free(now, taken, 1, taken.len()),
            !taken.contains(numbered_dream_id(now, f)),
            forall|j: nat| 1 <= j < f ==> taken.contains(#[trigger] numbered_dream_id(now, j)),
        decreases f - k,
    {
        let mut cand = base.clone();
        cand.append("_");
        cand.append(decimal_string(k).as_str());
        if !id_taken(store, created, &cand) {
            proof {
                assert(cand@ == numbered_dream_id(now, k as nat));
                if k < f {
                    assert(taken.contains(numbered_dream_id(now, k as nat)));
                }
            }
            return cand;
        }
        proof {
            assert(cand@ == numbered_dream_id(now, k as nat));
        }
        k = k + 1;
    }
}

/// The consolidator: runs the dream phase that merges similar tiles.
#[derive(Debug, Clone)]
pub struct MemoryConsolidator {
    /// Minimum number of tiles to form a cluster for consolidation.
    pub min_cluster_size: usize,
    /// How much to reduce original tile importance after consolidation
    /// (fixed-point).
    pub consolidation_decay: i64,
}

impl Default for MemoryConsolidator {
    fn default() -> (r: MemoryConsolidator)
        ensures
            r.min_cluster_size == 2,
            r.consolidation_decay == DEFAULT_CONSOLIDATION_DECAY,
    {
        MemoryConsolidator { min_cluster_size: 2, consolidation_decay: DEFAULT_CONSOLIDATION_DECAY }
    }
}

impl MemoryConsolidator {
    /// A consolidator with the given cluster size and decay.
    pub fn new(min_cluster_size: usize, consolidation_decay: i64) -> (r: MemoryConsolidator)
        ensures
            r.min_cluster_size == min_cluster_size,
            r.consolidation_decay == consolidation_decay,
    {
        MemoryConsolidator { min_cluster_size, consolidation_decay }
    }

    /// Whether two tiles are similar (see `similar`).
    fn are_similar(&self, a: &MemoryTile, b: &MemoryTile) -> (r: bool)
        requires
            a.wf(),
            b.wf(),
        ensures
            r == similar(a@, b@),
    {
        if !a.tile_type.same_kind_as(&b.tile_type) {
            return false;
        }
        let shared = a.metadata.shares_entry_with(&b.metadata);
        let content_similar = contains_str(a.content.as_str(), b.content.as_str()) || contains_str(
            b.content.as_str(),
            a.content.as_str(),
        );
        proof {
            assert(a@.metadata == a.metadata@ && b@.metadata == b.metadata@);
            assert(a@.content == a.content@ && b@.content == b.content@);
            assert(same_kind(a@.tile_type, b@.tile_type));
            if shared {
                let k = choose|k: Seq<char>|
                    a.metadata@.dom().contains(k) && b.metadata@.dom().contains(k) && a.metadata@[k]
                        == b.metadata@[k];
                assert(a@.metadata.dom().contains(k) && b@.metadata.dom().contains(k) && a@.metadata[k]
                    == b@.metadata[k]);
            }
        }
        shared || content_similar
    }

    /// Create the dream tile that summarizes `members` at time `created`,
    /// under an id in use by no tile of the store and none of `made` (see
    /// `fresh_dream_id`), connect it to the members, and store it, touched at
    /// time `stored`. Returns the dream's id.
    fn create_dream_tile(
        &self,
        store: &mut MemoryStore,
        members: &Vec<String>,
        made: &Vec<String>,
        created: u64,
        stored: u64,
    ) -> (r: String)
        requires
            old(store).wf(),
            members@.len() >= 1,
            view_position(tile_views(old(store).tiles@), members@[0]@) >= 0,
        ensures
            final(store).wf(),
            final(store).max_tiles == old(store).max_tiles,
            r@ == fresh_dream_id(created, view_ids(tile_views(old(store).tiles@)) + string_views(made@)),
            tile_views(final(store).tiles@) == view_after_store(
                tile_views(old(store).tiles@),
                old(store).max_tiles as nat,
                dream_view(tile_views(old(store).tiles@), string_views(members@), created, r@),
                stored,
            ),
    {
        let ghost vs = tile_views(store.tiles@);
        let ghost ms = string_views(members@);
        let ghost pres = is_present(vs);
        let n = members.len();
        // The first member.
        proof {
            crate::store::lemma_view_positions(store.tiles@, members@[0]@);
            crate::store::lemma_position_range(store.tiles@, members@[0]@);
        }
        let q0: usize = match store.find(&members[0]) {
            Some(q) => q,
            None => {
                proof {
                    assert(false);
                }
                0
            },
        };
        proof {
            assert(vs[q0 as int] == tile_of(vs, ms[0]));
        }
        // The summary.
        let summary: String = if n <= 3 {
            let mut text = String::new();
            let mut count: usize = 0;
            let mut k: usize = 0;
            proof {
                assert(ms.take(0) =~= Seq::<Seq<char>>::empty());
                reveal(Seq::filter);
                assert(ms.take(0).filter(pres) =~= Seq::<Seq<char>>::empty());
                assert(present_contents(vs, ms.take(0)) =~= Seq::<Seq<char>>::empty());
            }
            while k < n
                invariant
                    n == members@.len(),
                    n == ms.len(),
                    n <= 3,
                    k <= n,
                    store.wf(),
                    vs == tile_views(store.tiles@),
                    ms == string_views(members@),
                    pres == is_present(vs),
                    count == present_contents(vs, ms.take(k as int)).len(),
                    count <= k,
                    text@ == join(present_contents(vs, ms.take(k as int)), " + "@),
                decreases n - k,
            {
                let ghost before = present_contents(vs, ms.take(k as int));
                proof {
                    assert(ms.take(k + 1) =~= ms.take(k as int).push(ms[k as int]));
                    ms.take(k as int).lemma_filter_push(ms[k as int], pres);
                    crate::store::lemma_view_positions(store.tiles@, members@[k as int]@);
                    crate::store::lemma_position_range(store.tiles@, members@[k as int]@);
                }
                match store.find(&members[k]) {
                    Some(q) => {
                        proof {
                            reveal_strlit(" + ");
                            assert(pres(ms[k as int]));
                            assert(present_contents(vs, ms.take(k + 1)) =~= before.push(vs[q as int].content));
                        }
                        if count > 0 {
                            text.append(" + ");
                        }
                        text.append(store.tiles[q].content.as_str());
                        proof {
                            let after = before.push(vs[q as int].content);
                            if count == 0 {
                                assert(after.len() == 1);
                                assert(text@ =~= after[0]);
                            } else {
                                assert(after.drop_last() =~= before);
                                assert(text@ =~= join(before, " + "@) + " + "@ + after.last());
                            }
                        }
                        count = count + 1;
                    },
                    None => {
                        proof {
                            assert(!pres(ms[k as int]));
                            assert(present_contents(vs, ms.take(k + 1)) =~= before);
                        }
                    },
                }
                k = k + 1;
            }
            proof {
                assert(ms.take(n as int) =~= ms);
                assert(text@ == dream_summary(vs, ms));
            }
            text
        } else {
            let mut text = "Consolidation of ".to_string();
            text.append(decimal_string(n as u128).as_str());
            text.append(" ");
            text.append(store.tiles[q0].tile_type.to_string().as_str());
            text.append(" tiles");
            proof {
                assert(vs[q0 as int].tile_type == store.tiles@[q0 as int].tile_type);
                assert((n as u128) as nat == ms.len());
                assert(text@ == dream_summary(vs, ms));
            }
            text
        };
        // The average importance.
        let mut total: i128 = 0;
        let mut k: usize = 0;
        while k < n
            invariant
                n == members@.len(),
                n == ms.len(),
                k <= n,
                store.wf(),
                vs == tile_views(store.tiles@),
                ms == string_views(members@),
                total == importance_total(vs, ms.take(k as int)),
                -0x8000_0000_0000_0000 * k <= total <= 0x7fff_ffff_ffff_ffff * k,
            decreases n - k,
        {
            proof {
                assert(ms.take(k + 1).drop_last() =~= ms.take(k as int));
                assert(ms.take(k + 1).last() == ms[k as int]);
                crate::store::lemma_view_positions(store.tiles@, members@[k as int]@);
                crate::store::lemma_position_range(store.tiles@, members@[k as int]@);
            }
            let x: i128 = match store.find(&members[k]) {
                Some(q) => {
                    proof {
                        assert(vs[q as int] == tile_of(vs, ms[k as int]));
                    }
                    store.tiles[q].importance as i128
                },
                None => 0,
            };
            proof {
                let kk = k as int;
                let xx = x as int;
                assert(-0x8000_0000_0000_0000 <= xx <= 0x7fff_ffff_ffff_ffff);
                assert(-0x8000_0000_0000_0000 * (kk + 1) <= total + xx <= 0x7fff_ffff_ffff_ffff * (kk + 1)) by (nonlinear_arith)
                    requires
                        -0x8000_0000_0000_0000 * kk <= total <= 0x7fff_ffff_ffff_ffff * kk,
                        -0x8000_0000_0000_0000 <= xx <= 0x7fff_ffff_ffff_ffff,
                ;
                assert(kk + 1 <= 0xffff_ffff_ffff_ffff);
                assert(0x7fff_ffff_ffff_ffff * (kk + 1) <= 0x7fff_ffff_ffff_ffff * 0xffff_ffff_ffff_ffff) by (nonlinear_arith)
                    requires
                        kk + 1 <= 0xffff_ffff_ffff_ffff,
                ;
                assert(-0x8000_0000_0000_0000 * (kk + 1) >= -0x8000_0000_0000_0000 * 0xffff_ffff_ffff_ffff) by (nonlinear_arith)
                    requires
                        kk + 1 <= 0xffff_ffff_ffff_ffff,
                ;
            }
            total = total + x;
            k = k + 1;
        }
        proof {
            assert(ms.take(n as int) =~= ms);
            let c = n as int;
            let t = total as int;
            if total >= 0 {
                assert(t / c <= 0x7fff_ffff_ffff_ffff) by (nonlinear_arith)
                    requires
                        0 <= t <= 0x7fff_ffff_ffff_ffff * c,
                        c > 0,
                ;
                assert(t / c >= 0) by (nonlinear_arith)
                    requires
                        0 <= t,
                        c > 0,
                ;
            } else {
                assert((-t) / c <= 0x8000_0000_0000_0000) by (nonlinear_arith)
                    requires
                        0 <= -t <= 0x8000_0000_0000_0000 * c,
                        c > 0,
                ;
                assert((-t) / c >= 0) by (nonlinear_arith)
                    requires
                        0 <= -t,
                        c > 0,
                ;
            }
        }
        let avg: i128 = if total >= 0 {
            total / (n as i128)
        } else {
            -((-total) / (n as i128))
        };
        proof {
            assert(avg == trunc_div(importance_total(vs, ms), ms.len() as int));
            assert(clamp(avg as int, 0, UNIT as int) == dream_importance(vs, ms));
        }
        // The dream tile.
        let id = fresh_id(store, made, created);
        let room = store.tiles[q0].room_id.clone();
        let agent = store.tiles[q0].agent_id.clone();
        let mut dream = MemoryTile::new_at(room.as_str(), agent.as_str(), TileType::Dream, summary.as_str(), created)
            .with_id(id.as_str())
            .with_importance(avg as i64)
            .with_timestamps(created, created);
        let ghost d0 = dream;
        let mut k: usize = 0;
        while k < n
            invariant
                n == members@.len(),
                n == ms.len(),
                k <= n,
                ms == string_views(members@),
                dream == (MemoryTile { connections: dream.connections, ..d0 }),
                string_views(dream.connections@) == connect_all(Seq::empty(), ms.take(k as int)),
                dream.wf(),
                dream.access_count == 0,
            decreases n - k,
        {
            proof {
                assert(ms.take(k + 1).drop_last() =~= ms.take(k as int));
            }
            dream.connect_to(members[k].as_str());
            k = k + 1;
        }
        proof {
            assert(ms.take(n as int) =~= ms);
            assert(ms.take(0) =~= Seq::<Seq<char>>::empty());
            let d = dream_view(vs, ms, created, id@);
            assert(dream@.content == d.content);
            assert(dream@.importance == d.importance);
            assert(dream@.connections == d.connections);
            assert(dream@.id == d.id);
            assert(dream@.metadata =~= d.metadata);
            assert(dream@.embeddings =~= d.embeddings);
            assert(dream@ == d);
            crate::store::lemma_view_after_store(store.tiles@, store.max_tiles as nat, dream, stored);
        }
        let did = dream.id.clone();
        store.store_at(dream, stored);
        did
    }

    /// The cluster around `key`, whose tile is at `p` (see `cluster_of`).
    fn collect_cluster(
        &self,
        store: &MemoryStore,
        tile_ids: &Vec<String>,
        clustered: &Vec<String>,
        key: &String,
        p: usize,
        Ghost(ids): Ghost<Seq<Seq<char>>>,
        Ghost(st): Ghost<Consolidation>,
    ) -> (members: Vec<String>)
        requires
            store.wf(),
            tile_views(store.tiles@) == st.tiles,
            string_views(clustered@).to_set() == st.clustered,
            string_views(tile_ids@) == ids,
            p < store.tiles@.len(),
            p == view_position(st.tiles, key@),
        ensures
            string_views(members@) == cluster_of(ids, st, key@, st.tiles[p as int]),
            members@.len() >= 1,
            forall|j: int| 0 <= j < members@.len() ==> view_position(st.tiles, #[trigger] members@[j]@) >= 0,
    {
        let n = tile_ids.len();
        let ghost pred = joins_cluster(st, key@, st.tiles[p as int]);
        let mut members: Vec<String> = Vec::new();
        members.push(key.clone());
        proof {
            assert(string_views(members@) =~= seq![key@] + ids.take(0).filter(pred));
        }
        let mut o: usize = 0;
        while o < n
            invariant
                n == ids.len(),
                o <= n,
                p < store.tiles@.len(),
                p == view_position(st.tiles, key@),
                store.wf(),
                tile_views(store.tiles@) == st.tiles,
                string_views(clustered@).to_set() == st.clustered,
                string_views(tile_ids@) == ids,
                pred == joins_cluster(st, key@, st.tiles[p as int]),
                string_views(members@) == seq![key@] + ids.take(o as int).filter(pred),
            decreases n - o,
        {
            proof {
                ids.lemma_take_succ_push(o as int);
                ids.take(o as int).lemma_filter_push(ids[o as int], pred);
            }
            let other = &tile_ids[o];
            let ghost before = string_views(members@);
            let mut add = false;
            let cl = clustered.as_slice();
            let in_clustered = contains_string(cl, other);
            proof {
                assert(cl@ == clustered@);
                assert(string_views(clustered@).to_set().contains(other@) == string_views(clustered@).contains(other@));
            }
            if !(*other == *key) && !in_clustered {
                proof {
                    crate::store::lemma_view_positions(store.tiles@, other@);
                    crate::store::lemma_position_range(store.tiles@, other@);
                    assert(string_views(clustered@).to_set().contains(other@) == string_views(clustered@).contains(other@));
                }
                match store.find(other) {
                    Some(q) => {
                        if self.are_similar(&store.tiles[p], &store.tiles[q]) {
                            add = true;
                        }
                        proof {
                            assert(store.tiles@[p as int]@ == st.tiles[p as int]);
                            assert(store.tiles@[q as int]@ == st.tiles[q as int]);
                        }
                    },
                    None => {},
                }
            }
            proof {
                assert(other@ == ids[o as int]);
                assert(add == pred(ids[o as int]));
            }
            if add {
                members.push(other.clone());
                proof {
                    assert(string_views(members@) =~= before.push(other@));
                }
            }
            o = o + 1;
        }
        proof {
            assert(ids.take(n as int) =~= ids);
            let ms = string_views(members@);
            assert forall|j: int| 0 <= j < members@.len() implies view_position(st.tiles, #[trigger] members@[j]@) >= 0 by {
                assert(ms[j] == members@[j]@);
                if j > 0 {
                    let f = ids.filter(pred);
                    assert(ms[j] == f[j - 1]);
                    ids.lemma_filter_pred(pred, j - 1);
                }
            }
        }
        members
    }

    /// Decay every member still present and connect it to the dream `did`;
    /// record every member as merged.
    fn merge_members(
        &self,
        store: &mut MemoryStore,
        members: &Vec<String>,
        did: &String,
        clustered: &mut Vec<String>,
        Ghost(before): Ghost<Set<Seq<char>>>,
    )
        requires
            old(store).wf(),
            string_views(old(clustered)@).to_set() == before,
        ensures
            final(store).wf(),
            final(store).max_tiles == old(store).max_tiles,
            tile_views(final(store).tiles@) == apply_members(
                tile_views(old(store).tiles@),
                string_views(members@),
                did@,
                self.consolidation_decay,
            ),
            string_views(final(clustered)@).to_set() == before + string_views(members@).to_set(),
    {
        let ghost ms = string_views(members@);
        let ghost stored = tile_views(store.tiles@);
        let ghost max = store.max_tiles;
        let rate = self.consolidation_decay;
        proof {
            assert(ms.take(0).to_set() =~= Set::<Seq<char>>::empty());
            assert(before + ms.take(0).to_set() =~= before);
            assert(ms.take(0) =~= Seq::<Seq<char>>::empty());
        }
        let mut j: usize = 0;
        while j < members.len()
            invariant
                j <= members@.len(),
                ms == string_views(members@),
                rate == self.consolidation_decay,
                store.wf(),
                store.max_tiles == max,
                tile_views(store.tiles@) == apply_members(stored, ms.take(j as int), did@, rate),
                string_views(clustered@).to_set() == before + ms.take(j as int).to_set(),
            decreases members@.len() - j,
        {
            proof {
                assert(ms.take(j + 1).drop_last() =~= ms.take(j as int));
                crate::store::lemma_view_positions(store.tiles@, members@[j as int]@);
                crate::store::lemma_position_range(store.tiles@, members@[j as int]@);
            }
            let ghost cv = string_views(clustered@);
            clustered.push(members[j].clone());
            proof {
                let a1 = ms.take(j + 1);
                let a0 = ms.take(j as int);
                let cw = string_views(clustered@);
                assert(cw =~= cv.push(ms[j as int]));
                assert(a1 =~= a0.push(ms[j as int]));
                assert forall|x: Seq<char>| #[trigger] cw.to_set().contains(x) <==> (before + a1.to_set()).contains(x) by {
                    assert(cw.to_set().contains(x) <==> cw.contains(x));
                    assert(cv.to_set().contains(x) <==> cv.contains(x));
                    assert(a1.to_set().contains(x) <==> a1.contains(x));
                    assert(a0.to_set().contains(x) <==> a0.contains(x));
                    assert(cw.contains(x) <==> (cv.contains(x) || x == ms[j as int])) by {
                        if cw.contains(x) && x != ms[j as int] {
                            let w = choose|w: int| 0 <= w < cw.len() && cw[w] == x;
                            assert(cv[w] == x);
                        }
                        if cv.contains(x) {
                            let w = choose|w: int| 0 <= w < cv.len() && cv[w] == x;
                            assert(cw[w] == x);
                        }
                        if x == ms[j as int] {
                            assert(cw[cw.len() - 1] == x);
                        }
                    }
                    assert(a1.contains(x) <==> (a0.contains(x) || x == ms[j as int])) by {
                        if a1.contains(x) && x != ms[j as int] {
                            let w = choose|w: int| 0 <= w < a1.len() && a1[w] == x;
                            assert(a0[w] == x);
                        }
                        if a0.contains(x) {
                            let w = choose|w: int| 0 <= w < a0.len() && a0[w] == x;
                            assert(a1[w] == x);
                        }
                        if x == ms[j as int] {
                            assert(a1[a1.len() - 1] == x);
                        }
                    }
                }
                assert(cw.to_set() =~= before + a1.to_set());
            }
            match store.find(&members[j]) {
                Some(q) => {
                    let ghost sv = tile_views(store.tiles@);
                    let ghost s0 = store.tiles@;
                    store.tiles[q].decay(rate);
                    store.tiles[q].connect_to(did.as_str());
                    proof {
                        assert(tile_views(store.tiles@) =~= sv.update(q as int, connected_view(decayed_view(sv[q as int], rate), did@)));
                        assert forall|a: int, b: int| 0 <= a < b < store.tiles@.len() implies (#[trigger] store.tiles@[a]).id@ != (#[trigger] store.tiles@[b]).id@ by {
                            assert(store.tiles@[a].id == s0[a].id && store.tiles@[b].id == s0[b].id);
                        }
                        assert forall|w: int| 0 <= w < store.tiles@.len() implies (#[trigger] store.tiles@[w]).wf() by {
                            assert(store.tiles@[w].metadata == s0[w].metadata);
                        }
                    }
                },
                None => {},
            }
            j = j + 1;
        }
        proof {
            assert(ms.take(members@.len() as int) =~= ms);
        }
    }

    /// Consolidation, with every clock reading equal to `fixed` when given
    /// and taken from the system clock otherwise. Also returns the readings.
    fn consolidate_with(&self, store: &mut MemoryStore, fixed: Option<u64>) -> (r: (Vec<String>, Ghost<Seq<u64>>))
        requires
            old(store).wf(),
        ensures
            final(store).wf(),
            final(store).max_tiles == old(store).max_tiles,
            fixed matches Some(t) ==> forall|i: int| 0 <= i < r.1@.len() ==> r.1@[i] == t,
            ({
                let out = consolidation_run(
                    self.min_cluster_size as nat,
                    self.consolidation_decay,
                    old(store).max_tiles as nat,
                    view_ids(tile_views(old(store).tiles@)),
                    |i: nat| r.1@[i as int],
                    tile_views(old(store).tiles@),
                    old(store).tiles@.len(),
                );
                &&& tile_views(final(store).tiles@) == out.tiles
                &&& string_views(r.0@) == out.created
                &&& out.used == r.1@.len()
            }),
    {
        let ghost v0 = tile_views(store.tiles@);
        let ghost ids = view_ids(v0);
        let ghost max = store.max_tiles as nat;
        let ghost min = self.min_cluster_size as nat;
        let rate = self.consolidation_decay;
        let n = store.tiles.len();
        let mut tile_ids: Vec<String> = Vec::new();
        let mut i: usize = 0;
        while i < n
            invariant
                n == store.tiles@.len(),
                n == ids.len(),
                i <= n,
                v0 == tile_views(store.tiles@),
                ids == view_ids(v0),
                string_views(tile_ids@) == ids.take(i as int),
            decreases n - i,
        {
            let ghost tv = string_views(tile_ids@);
            tile_ids.push(store.tiles[i].id.clone());
            proof {
                assert(ids[i as int] == store.tiles@[i as int].id@);
                assert(string_views(tile_ids@) =~= tv.push(ids[i as int]));
                assert(string_views(tile_ids@) =~= ids.take(i + 1));
            }
            i = i + 1;
        }
        proof {
            assert(ids.take(n as int) =~= ids);
        }
        let mut clustered: Vec<String> = Vec::new();
        let mut created: Vec<String> = Vec::new();
        let ghost mut times: Seq<u64> = Seq::empty();
        proof {
            assert(string_views(clustered@).to_set() =~= Set::<Seq<char>>::empty());
            assert(string_views(created@) =~= Seq::<Seq<char>>::empty());
        }
        let mut k: usize = 0;
        while k < n
            invariant
                n == ids.len(),
                k <= n,
                store.wf(),
                store.max_tiles == max,
                min == self.min_cluster_size,
                rate == self.consolidation_decay,
                string_views(tile_ids@) == ids,
                fixed matches Some(t) ==> forall|j: int| 0 <= j < times.len() ==> times[j] == t,
                ({
                    let st = consolidation_run(min, rate, max, ids, |j: nat| times[j as int], v0, k as nat);
                    &&& tile_views(store.tiles@) == st.tiles
                    &&& string_views(clustered@).to_set() == st.clustered
                    &&& string_views(created@) == st.created
                    &&& st.used == times.len()
                }),
            decreases n - k,
        {
            let ghost t0 = times;
            let ghost st = consolidation_run(min, rate, max, ids, |j: nat| times[j as int], v0, k as nat);
            let key = &tile_ids[k];
            proof {
                assert(key@ == ids[k as int]);
                crate::store::lemma_view_positions(store.tiles@, key@);
                crate::store::lemma_position_range(store.tiles@, key@);
            }
            if !contains_string(clustered.as_slice(), key) {
                proof {
                    assert(!st.clustered.contains(key@));
                }
                match store.find(key) {
                    None => {},
                    Some(p) => {
                        let members = self.collect_cluster(store, &tile_ids, &clustered, key, p, Ghost(ids), Ghost(st));
                        if members.len() >= self.min_cluster_size {
                            let ghost ms = string_views(members@);
                            let t1 = read_clock(fixed);
                            let t2 = read_clock(fixed);
                            proof {
                                times = times.push(t1).push(t2);
                            }
                            let did = self.create_dream_tile(store, &members, &created, t1, t2);
                            let ghost stored = tile_views(store.tiles@);
                            created.push(did.clone());
                            self.merge_members(store, &members, &did, &mut clustered, Ghost(st.clustered));
                            proof {
                                let c1 = |x: nat| t0[x as int];
                                let c2 = |x: nat| times[x as int];
                                lemma_run_clock_agree(min, rate, max, ids, c1, c2, v0, k as nat);
                            }
                        }
                    },
                }
            }
            proof {
                let c1 = |x: nat| t0[x as int];
                let c2 = |x: nat| times[x as int];
                if times == t0 {
                    assert(c1 == c2);
                }
                lemma_run_clock_agree(min, rate, max, ids, c1, c2, v0, k as nat);
                assert(ids[k as int] == key@);
            }
            k = k + 1;
        }
        (created, Ghost(times))
    }

    /// Run the dream phase on the store, reading the system clock for dream
    /// ids and timestamps. Every id of the store, in store order, is
    /// considered in turn (see `consolidation_step`); the result lists the
    /// ids of the dreams created, one per cluster, no two alike.
    pub fn consolidate(&self, store: &mut MemoryStore) -> (r: Vec<String>)
        requires
            old(store).wf(),
        ensures
            final(store).wf(),
            final(store).max_tiles == old(store).max_tiles,
            exists|clock: spec_fn(nat) -> u64|
                {
                    let out = #[trigger] consolidation_run(
                        self.min_cluster_size as nat,
                        self.consolidation_decay,
                        old(store).max_tiles as nat,
                        view_ids(tile_views(old(store).tiles@)),
                        clock,
                        tile_views(old(store).tiles@),
                        old(store).tiles@.len(),
                    );
                    &&& tile_views(final(store).tiles@) == out.tiles
                    &&& string_views(r@) == out.created
                },
            string_views(r@).no_duplicates(),
    {
        let (r, Ghost(times)) = self.consolidate_with(store, None);
        proof {
            lemma_run_ids_distinct(
                self.min_cluster_size as nat,
                self.consolidation_decay,
                old(store).max_tiles as nat,
                view_ids(tile_views(old(store).tiles@)),
                |i: nat| times[i as int],
                tile_views(old(store).tiles@),
                old(store).tiles@.len(),
            );
            let clock = |i: nat| times[i as int];
            assert(tile_views(store.tiles@) == consolidation_run(
                self.min_cluster_size as nat,
                self.consolidation_decay,
                old(store).max_tiles as nat,
                view_ids(tile_views(old(store).tiles@)),
                clock,
                tile_views(old(store).tiles@),
                old(store).tiles@.len(),
            ).tiles);
        }
        r
    }

    /// Run the dream phase with every clock reading equal to `now`. Dreams
    /// created in the same run still get distinct ids (see `fresh_dream_id`).
    pub fn consolidate_at(&self, store: &mut MemoryStore, now: u64) -> (r: Vec<String>)
        requires
            old(store).wf(),
        ensures
            final(store).wf(),
            final(store).max_tiles == old(store).max_tiles,
            ({
                let out = consolidation_run(
                    self.min_cluster_size as nat,
                    self.consolidation_decay,
                    old(store).max_tiles as nat,
                    view_ids(tile_views(old(store).tiles@)),
                    |i: nat| now,
                    tile_views(old(store).tiles@),
                    old(store).tiles@.len(),
                );
                &&& tile_views(final(store).tiles@) == out.tiles
                &&& string_views(r@) == out.created
            }),
            string_views(r@).no_duplicates(),
    {
        let (r, Ghost(times)) = self.consolidate_with(store, Some(now));
        proof {
            lemma_run_ids_distinct(
                self.min_cluster_size as nat,
                self.consolidation_decay,
                old(store).max_tiles as nat,
                view_ids(tile_views(old(store).tiles@)),
                |i: nat| now,
                tile_views(old(store).tiles@),
                old(store).tiles@.len(),
            );
            let c1 = |i: nat| times[i as int];
            let c2 = |i: nat| now;
            lemma_run_clock_agree(
                self.min_cluster_size as nat,
                self.consolidation_decay,
                old(store).max_tiles as nat,
                view_ids(tile_views(old(store).tiles@)),
                c1,
                c2,
                tile_views(old(store).tiles@),
                old(store).tiles@.len(),
            );
        }
        r
    }
}

} // verus!
