//! A single memory entry: one tile in an agent's memory mosaic.
use vstd::prelude::*;

use crate::clock::now_millis;
use crate::fixed::{clamp, clamp_i64, UNIT};
use crate::metadata::Metadata;
use crate::text::{decimal, decimal_string};
use crate::tile_type::TileType;

verus! {

/// The views of a list of strings.
pub open spec fn string_views(s: Seq<String>) -> Seq<Seq<char>> {
    s.map_values(|x: String| x@)
}

/// The identifier that a tile created at time `now` receives.
pub open spec fn tile_id_at(now: u64) -> Seq<char> {
    "tile_"@ + decimal(now as nat)
}

/// Importance after decaying by `rate`: it drops by `rate` and never below 0.
pub open spec fn decayed(importance: i64, rate: i64) -> i64 {
    let x = clamp_i64(importance - rate);
    (if x < 0 { 0 } else { x }) as i64
}

/// Importance after reinforcing by `amount`: it rises by `amount` and never
/// above `UNIT`.
pub open spec fn reinforced(importance: i64, amount: i64) -> i64 {
    let x = clamp_i64(importance + amount);
    (if x > UNIT { UNIT as int } else { x }) as i64
}

/// What a tile holds, with strings seen as sequences of characters.
pub ghost struct TileView {
    pub id: Seq<char>,
    pub room_id: Seq<char>,
    pub agent_id: Seq<char>,
    pub tile_type: TileType,
    pub content: Seq<char>,
    pub importance: i64,
    pub access_count: u64,
    pub created_at: u64,
    pub last_accessed: u64,
    pub embeddings: Seq<u64>,
    pub connections: Seq<Seq<char>>,
    pub metadata: Map<Seq<char>, Seq<char>>,
}

/// The view after decaying importance by `rate`.
pub open spec fn decayed_view(v: TileView, rate: i64) -> TileView {
    TileView { importance: decayed(v.importance, rate), ..v }
}

/// The view after connecting to `id` (unless already connected).
pub open spec fn connected_view(v: TileView, id: Seq<char>) -> TileView {
    if v.connections.contains(id) {
        v
    } else {
        TileView { connections: v.connections.push(id), ..v }
    }
}

/// The view after one access at time `now`.
pub open spec fn touched_view(v: TileView, now: u64) -> TileView {
    TileView { access_count: (v.access_count + 1) as u64, last_accessed: now, ..v }
}

/// A single memory entry.
///
/// `importance` is a fixed-point score, `UNIT` standing for 1.0; the
/// builders keep it in `[0, UNIT]`. `embeddings` holds the IEEE-754 bit
/// patterns of the embedding vector's components.
#[derive(Debug, Clone)]
pub struct MemoryTile {
    pub id: String,
    pub room_id: String,
    pub agent_id: String,
    pub tile_type: TileType,
    pub content: String,
    /// Importance score, fixed-point in `[0, UNIT]`.
    pub importance: i64,
    /// How many times this tile has been accessed.
    pub access_count: u64,
    /// Unix epoch millis when created.
    pub created_at: u64,
    /// Unix epoch millis when last accessed.
    pub last_accessed: u64,
    /// Optional semantic embedding vector, as IEEE-754 bit patterns.
    pub embeddings: Vec<u64>,
    /// IDs of related tiles.
    pub connections: Vec<String>,
    /// Arbitrary key-value metadata.
    pub metadata: Metadata,
}

impl View for MemoryTile {
    type V = TileView;

    open spec fn view(&self) -> TileView {
        TileView {
            id: self.id@,
            room_id: self.room_id@,
            agent_id: self.agent_id@,
            tile_type: self.tile_type,
            content: self.content@,
            importance: self.importance,
            access_count: self.access_count,
            created_at: self.created_at,
            last_accessed: self.last_accessed,
            embeddings: self.embeddings@,
            connections: string_views(self.connections@),
            metadata: self.metadata@,
        }
    }
}

impl MemoryTile {
    /// The tile is well formed: its metadata holds no key twice.
    pub open spec fn wf(&self) -> bool {
        self.metadata.wf()
    }

    /// Create a tile at time `now`: its id is `tile_` followed by `now` in
    /// decimal, importance one half, never accessed, created and last
    /// accessed at `now`, with no embeddings, connections or metadata.
    pub fn new_at(room_id: &str, agent_id: &str, tile_type: TileType, content: &str, now: u64) -> (r:
        MemoryTile)
        ensures
            r.wf(),
            r.id@ == tile_id_at(now),
            r.room_id@ == room_id@,
            r.agent_id@ == agent_id@,
            r.tile_type == tile_type,
            r.content@ == content@,
            r.importance == UNIT / 2,
            r.access_count == 0,
            r.created_at == now,
            r.last_accessed == now,
            r.embeddings@.len() == 0,
            r.connections@.len() == 0,
            r.metadata@ == Map::<Seq<char>, Seq<char>>::empty(),
    {
        let mut id = "tile_".to_string();
        let digits = decimal_string(now as u128);
        id.append(digits.as_str());
        MemoryTile {
            id,
            room_id: room_id.to_string(),
            agent_id: agent_id.to_string(),
            tile_type,
            content: content.to_string(),
            importance: UNIT / 2,
            access_count: 0,
            created_at: now,
            last_accessed: now,
            embeddings: Vec::new(),
            connections: Vec::new(),
            metadata: Metadata::new(),
        }
    }

    /// Create a tile stamped with the current time (see `new_at`).
    pub fn new(room_id: &str, agent_id: &str, tile_type: TileType, content: &str) -> (r: MemoryTile)
        ensures
            r.wf(),
            r.id@ == tile_id_at(r.created_at),
            r.room_id@ == room_id@,
            r.agent_id@ == agent_id@,
            r.tile_type == tile_type,
            r.content@ == content@,
            r.importance == UNIT / 2,
            r.access_count == 0,
            r.last_accessed == r.created_at,
            r.embeddings@.len() == 0,
            r.connections@.len() == 0,
            r.metadata@ == Map::<Seq<char>, Seq<char>>::empty(),
    {
        let now = now_millis();
        Self::new_at(room_id, agent_id, tile_type, content, now)
    }

    /// The same tile with id `id`.
    pub fn with_id(self, id: &str) -> (r: MemoryTile)
        ensures
            r.id@ == id@,
            r == (MemoryTile { id: r.id, ..self }),
    {
        let mut t = self;
        t.id = id.to_string();
        t
    }

    /// The same tile with importance `importance` clamped into `[0, UNIT]`.
    pub fn with_importance(self, importance: i64) -> (r: MemoryTile)
        ensures
            r.importance == clamp(importance as int, 0, UNIT as int),
            r == (MemoryTile { importance: r.importance, ..self }),
    {
        let mut t = self;
        t.importance = if importance < 0 {
            0
        } else if importance > UNIT {
            UNIT
        } else {
            importance
        };
        t
    }

    /// The same tile with the given timestamps.
    pub fn with_timestamps(self, created_at: u64, last_accessed: u64) -> (r: MemoryTile)
        ensures
            r == (MemoryTile { created_at, last_accessed, ..self }),
    {
        let mut t = self;
        t.created_at = created_at;
        t.last_accessed = last_accessed;
        t
    }

    /// The same tile with `key` set to `value` in its metadata.
    pub fn with_metadata(self, key: &str, value: &str) -> (r: MemoryTile)
        requires
            self.wf(),
        ensures
            r.wf(),
            r.metadata@ == self.metadata@.insert(key@, value@),
            r == (MemoryTile { metadata: r.metadata, ..self }),
    {
        let mut t = self;
        t.metadata.insert(key, value);
        t
    }

    /// The same tile with the given embeddings (IEEE-754 bit patterns).
    pub fn with_embeddings(self, embeddings: Vec<u64>) -> (r: MemoryTile)
        ensures
            r == (MemoryTile { embeddings, ..self }),
    {
        let mut t = self;
        t.embeddings = embeddings;
        t
    }

    /// Touch at time `now`: one more access, last accessed at `now`.
    pub fn touch_at(&mut self, now: u64)
        requires
            old(self).access_count < u64::MAX,
        ensures
            *final(self) == (MemoryTile {
                access_count: (old(self).access_count + 1) as u64,
                last_accessed: now,
                ..*old(self)
            }),
    {
        self.access_count = self.access_count + 1;
        self.last_accessed = now;
    }

    /// Touch at the current time (see `touch_at`).
    pub fn touch(&mut self)
        requires
            old(self).access_count < u64::MAX,
        ensures
            *final(self) == (MemoryTile {
                access_count: (old(self).access_count + 1) as u64,
                last_accessed: final(self).last_accessed,
                ..*old(self)
            }),
    {
        let now = now_millis();
        self.touch_at(now);
    }

    /// Decay importance by `rate`, never below 0.
    pub fn decay(&mut self, rate: i64)
        ensures
            *final(self) == (MemoryTile {
                importance: decayed(old(self).importance, rate),
                ..*old(self)
            }),
    {
        let x = crate::fixed::saturate_i64(self.importance as i128 - rate as i128);
        self.importance = if x < 0 { 0 } else { x };
    }

    /// Reinforce importance by `amount`, never above `UNIT`.
    pub fn reinforce(&mut self, amount: i64)
        ensures
            *final(self) == (MemoryTile {
                importance: reinforced(old(self).importance, amount),
                ..*old(self)
            }),
    {
        let x = crate::fixed::saturate_i64(self.importance as i128 + amount as i128);
        self.importance = if x > UNIT { UNIT } else { x };
    }

    /// Connect this tile to the tile `other_id`, unless it already is.
    pub fn connect_to(&mut self, other_id: &str)
        ensures
            string_views(final(self).connections@) == if string_views(
                old(self).connections@,
            ).contains(other_id@) {
                string_views(old(self).connections@)
            } else {
                string_views(old(self).connections@).push(other_id@)
            },
            *final(self) == (MemoryTile { connections: final(self).connections, ..*old(self) }),
    {
        let other = other_id.to_string();
        let mut i: usize = 0;
        while i < self.connections.len()
            invariant
                i <= self.connections@.len(),
                other@ == other_id@,
                forall|j: int| 0 <= j < i ==> self.connections@[j]@ != other_id@,
            decreases self.connections@.len() - i,
        {
            if self.connections[i] == other {
                proof {
                    assert(string_views(self.connections@)[i as int] == other_id@);
                }
                return;
            }
            i = i + 1;
        }
        proof {
            assert(!string_views(self.connections@).contains(other_id@)) by {
                if string_views(self.connections@).contains(other_id@) {
                    let j = choose|j: int|
                        0 <= j < self.connections@.len() && string_views(self.connections@)[j]
                            == other_id@;
                }
            }
        }
        let ghost before = self.connections@;
        self.connections.push(other);
        proof {
            assert(string_views(self.connections@) =~= string_views(before).push(other_id@));
        }
    }

    /// Age of the tile at time `now` in milliseconds (0 if `now` is earlier
    /// than its creation).
    pub fn age(&self, now: u64) -> (r: u64)
        ensures
            r == if now >= self.created_at { (now - self.created_at) as u64 } else { 0 },
    {
        if now >= self.created_at {
            now - self.created_at
        } else {
            0
        }
    }

    /// True when the tile is at most `threshold_ms` old at time `now`.
    pub fn is_fresh(&self, now: u64, threshold_ms: u64) -> (r: bool)
        ensures
            r == (self.age_spec(now) <= threshold_ms),
    {
        self.age(now) <= threshold_ms
    }

    /// Age of the tile at time `now` in milliseconds.
    pub open spec fn age_spec(&self, now: u64) -> int {
        if now >= self.created_at {
            now - self.created_at
        } else {
            0
        }
    }
}

} // verus!
