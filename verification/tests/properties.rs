use memory_tiles::{MemoryConsolidator, MemoryGraph, MemoryQuery, MemoryStore, MemoryTile, TileType, UNIT};

fn fx(x: f64) -> i64 {
    (x * UNIT as f64).round() as i64
}

fn tile(id: &str, tile_type: TileType, content: &str, importance: f64) -> MemoryTile {
    MemoryTile::new_at("room1", "agent1", tile_type, content, 1).with_id(id).with_importance(fx(importance))
}

#[test]
fn new_at_gives_decimal_id() {
    let t = MemoryTile::new_at("r", "a", TileType::Thought, "c", 42);
    assert_eq!(t.id, "tile_42");
    assert_eq!(t.created_at, 42);
    assert_eq!(t.last_accessed, 42);
    assert_eq!(t.importance, UNIT / 2);
    let t0 = MemoryTile::new_at("r", "a", TileType::Thought, "c", 0);
    assert_eq!(t0.id, "tile_0");
    let big = MemoryTile::new_at("r", "a", TileType::Thought, "c", 18_446_744_073_709_551_615);
    assert_eq!(big.id, "tile_18446744073709551615");
}

#[test]
fn new_reads_the_clock_into_the_id() {
    let t = MemoryTile::new("r", "a", TileType::Signal, "ping");
    assert_eq!(t.id, format!("tile_{}", t.created_at));
}

#[test]
fn repeated_decay_is_linear_with_floor() {
    let mut t = tile("t", TileType::Observation, "x", 0.5);
    t.decay(fx(0.2));
    assert_eq!(t.importance, fx(0.3));
    t.decay(fx(0.2));
    assert_eq!(t.importance, fx(0.1));
    t.decay(fx(0.2));
    assert_eq!(t.importance, 0);
}

#[test]
fn importance_stays_in_range() {
    let mut t = tile("t", TileType::Observation, "x", 0.95);
    t.reinforce(fx(0.2));
    assert_eq!(t.importance, UNIT);
    t.decay(UNIT * 3);
    assert_eq!(t.importance, 0);
    t.decay(i64::MAX);
    assert_eq!(t.importance, 0);
    t.reinforce(i64::MAX);
    assert_eq!(t.importance, UNIT);
}

#[test]
fn metadata_overwrites_a_key() {
    let t = tile("t", TileType::Observation, "x", 0.5).with_metadata("k", "v1").with_metadata("k", "v2");
    assert_eq!(t.metadata.len(), 1);
    assert_eq!(t.metadata.get("k").unwrap(), "v2");
    assert!(t.metadata.get("other").is_none());
}

#[test]
fn custom_types_share_a_kind() {
    assert!(TileType::Custom("a".into()).same_kind_as(&TileType::Custom("b".into())));
    assert!(!TileType::Custom("a".into()).same_kind_as(&TileType::Dream));
    assert!(!TileType::Error.is_observable() && !TileType::Error.is_internal());
    assert!(!TileType::Custom("x".into()).is_observable() && !TileType::Custom("x".into()).is_internal());
}

#[test]
fn store_at_touches_with_the_given_time() {
    let mut store = MemoryStore::new(5);
    store.store_at(tile("t1", TileType::Observation, "x", 0.5), 77);
    let t = store.get_untouched("t1").unwrap();
    assert_eq!(t.access_count, 1);
    assert_eq!(t.last_accessed, 77);
}

#[test]
fn get_at_reinforces_by_one_hundredth() {
    let mut store = MemoryStore::new(5);
    store.store_at(tile("t1", TileType::Observation, "x", 0.5), 1);
    let got = store.get_at("t1", 9).unwrap();
    assert_eq!(got.importance, fx(0.51));
    assert_eq!(got.access_count, 2);
    assert_eq!(got.last_accessed, 9);
    assert!(store.get_at("missing", 9).is_none());
    assert_eq!(store.tile_count(), 1);
}

#[test]
fn eviction_takes_first_of_equal_lowest() {
    let mut store = MemoryStore::new(3);
    store.store_at(tile("a", TileType::Observation, "x", 0.4), 1);
    store.store_at(tile("b", TileType::Observation, "x", 0.2), 1);
    store.store_at(tile("c", TileType::Observation, "x", 0.2), 1);
    store.store_at(tile("d", TileType::Observation, "x", 0.9), 1);
    assert!(store.get_untouched("b").is_none());
    assert!(store.get_untouched("c").is_some());
    let ids: Vec<&str> = store.tiles.iter().map(|t| t.id.as_str()).collect();
    assert_eq!(ids, vec!["a", "c", "d"]);
}

#[test]
fn overwrite_at_capacity_does_not_evict() {
    let mut store = MemoryStore::new(2);
    store.store_at(tile("a", TileType::Observation, "x", 0.1), 1);
    store.store_at(tile("b", TileType::Observation, "y", 0.9), 1);
    store.store_at(tile("a", TileType::Action, "z", 0.3), 2);
    assert_eq!(store.tile_count(), 2);
    assert_eq!(store.get_untouched("a").unwrap().content, "z");
    assert_eq!(store.get_untouched("b").unwrap().content, "y");
}

#[test]
fn zero_capacity_store_still_takes_a_tile() {
    let mut store = MemoryStore::new(0);
    store.store_at(tile("a", TileType::Observation, "x", 0.1), 1);
    assert_eq!(store.tile_count(), 1);
    assert_eq!(store.memory_pressure(), UNIT);
}

#[test]
fn pressure_at_capacity_is_one() {
    let mut store = MemoryStore::new(2);
    store.store_at(tile("a", TileType::Observation, "x", 0.1), 1);
    store.store_at(tile("b", TileType::Observation, "x", 0.1), 1);
    assert_eq!(store.memory_pressure(), UNIT);
}

#[test]
fn consolidate_decays_only_untouched() {
    let mut store = MemoryStore::new(5);
    store.tiles.push(tile("fresh", TileType::Observation, "x", 0.5));
    store.store_at(tile("seen", TileType::Observation, "y", 0.5), 1);
    store.consolidate();
    assert_eq!(store.get_untouched("fresh").unwrap().importance, fx(0.45));
    assert_eq!(store.get_untouched("seen").unwrap().importance, fx(0.5));
}

#[test]
fn prune_keeps_order_and_threshold() {
    let mut store = MemoryStore::new(10);
    store.store_at(tile("a", TileType::Observation, "x", 0.5), 1);
    store.store_at(tile("b", TileType::Observation, "x", 0.1), 1);
    store.store_at(tile("c", TileType::Observation, "x", 0.2), 1);
    store.store_at(tile("d", TileType::Observation, "x", 0.7), 1);
    store.prune(fx(0.2));
    let ids: Vec<&str> = store.tiles.iter().map(|t| t.id.as_str()).collect();
    assert_eq!(ids, vec!["a", "c", "d"]);
}

#[test]
fn remove_returns_the_tile() {
    let mut store = MemoryStore::new(10);
    store.store_at(tile("a", TileType::Observation, "alpha", 0.5), 1);
    let t = store.remove("a").unwrap();
    assert_eq!(t.content, "alpha");
    assert_eq!(store.tile_count(), 0);
}

#[test]
fn ranking_ties_keep_store_order() {
    let mut store = MemoryStore::new(10);
    store.store_at(tile("a", TileType::Observation, "x", 0.5).with_timestamps(10, 10), 1);
    store.store_at(tile("b", TileType::Observation, "x", 0.9).with_timestamps(20, 20), 1);
    store.store_at(tile("c", TileType::Observation, "x", 0.5).with_timestamps(20, 20), 1);
    let top: Vec<&str> = store.important(3).iter().map(|t| t.id.as_str()).collect();
    assert_eq!(top, vec!["b", "a", "c"]);
    let recent: Vec<&str> = store.recent(10).iter().map(|t| t.id.as_str()).collect();
    assert_eq!(recent, vec!["b", "c", "a"]);
    assert!(store.recent(0).is_empty());
}

#[test]
fn query_results_are_sorted_and_limited() {
    let mut store = MemoryStore::new(10);
    store.store_at(tile("a", TileType::Observation, "one", 0.2), 1);
    store.store_at(tile("b", TileType::Observation, "two", 0.8), 1);
    store.store_at(tile("c", TileType::Observation, "three", 0.5), 1);
    let all: Vec<&str> = MemoryQuery::new().execute(&store).iter().map(|t| t.id.as_str()).collect();
    assert_eq!(all, vec!["b", "c", "a"]);
    let empty_needle = MemoryQuery::new().content_contains("").execute(&store);
    assert_eq!(empty_needle.len(), 3);
    let limited = MemoryQuery::new().limit(0).execute(&store);
    assert!(limited.is_empty());
    let inner = MemoryQuery::new().content_contains("hre").execute(&store);
    assert_eq!(inner.len(), 1);
    assert_eq!(inner[0].id, "c");
    let too_long = MemoryQuery::new().content_contains("threes").execute(&store);
    assert!(too_long.is_empty());
}

#[test]
fn connections_of_reports_other_ends() {
    let mut graph = MemoryGraph::new();
    graph.connect("a", "b", 5);
    graph.connect("c", "a", 7);
    graph.connect("d", "e", 9);
    let conns: Vec<(String, i64)> = graph.connections_of("a").iter().map(|(n, s)| ((*n).clone(), **s)).collect();
    assert_eq!(conns, vec![("b".to_string(), 5), ("c".to_string(), 7)]);
}

#[test]
fn disconnect_is_directional() {
    let mut graph = MemoryGraph::new();
    graph.connect("a", "b", 5);
    graph.connect("b", "a", 6);
    graph.disconnect("a", "b");
    assert_eq!(graph.edge_count(), 1);
    assert_eq!(graph.edges[0].0, "b");
}

#[test]
fn path_search_is_undirected() {
    let mut graph = MemoryGraph::new();
    graph.connect("a", "b", fx(0.9));
    graph.connect("b", "c", fx(0.9));
    assert_eq!(graph.strongest_path("c", "a").unwrap(), vec!["c", "b", "a"]);
    assert!(graph.strongest_path("z", "a").is_none());
}

#[test]
fn path_search_handles_cycles() {
    let mut graph = MemoryGraph::new();
    graph.connect("a", "b", fx(0.5));
    graph.connect("b", "c", fx(0.5));
    graph.connect("c", "a", fx(0.5));
    graph.connect("c", "d", fx(0.9));
    let path = graph.strongest_path("a", "d").unwrap();
    assert_eq!(path, vec!["a", "c", "d"]);
}

#[test]
fn path_search_improves_recorded_paths() {
    let mut graph = MemoryGraph::new();
    graph.connect("a", "b", fx(0.5));
    graph.connect("a", "c", fx(0.9));
    graph.connect("c", "b", fx(0.9));
    graph.connect("b", "d", fx(0.9));
    let path = graph.strongest_path("a", "d").unwrap();
    assert_eq!(path, vec!["a", "c", "b", "d"]);
}

#[test]
fn cluster_rounds_toward_zero() {
    let mut graph = MemoryGraph::new();
    graph.connect("a", "b", -1);
    graph.connect("b", "a", -2);
    graph.connect("a", "z", 100);
    assert_eq!(graph.cluster(&["a".to_string(), "b".to_string()]), -1);
}

#[test]
fn consolidate_at_builds_the_dream() {
    let mut store = MemoryStore::new(10);
    store.store_at(tile("t1", TileType::Observation, "a bird", 0.8).with_metadata("k", "v"), 1);
    store.store_at(tile("t2", TileType::Observation, "a cat", 0.6).with_metadata("k", "v"), 1);
    store.store_at(tile("t3", TileType::Action, "a bird", 0.6), 1);
    let c = MemoryConsolidator::new(2, fx(0.2));
    let created = c.consolidate_at(&mut store, 1234);
    assert_eq!(created, vec!["dream_1234"]);
    let dream = store.get_untouched("dream_1234").unwrap();
    assert_eq!(dream.content, "a bird + a cat");
    assert_eq!(dream.importance, fx(0.7));
    assert_eq!(dream.tile_type, TileType::Dream);
    assert_eq!(dream.access_count, 1);
    assert_eq!(dream.created_at, 1234);
    assert_eq!(dream.connections, vec!["t1", "t2"]);
    let t1 = store.get_untouched("t1").unwrap();
    assert_eq!(t1.importance, fx(0.6));
    assert_eq!(t1.connections, vec!["dream_1234"]);
    let t3 = store.get_untouched("t3").unwrap();
    assert_eq!(t3.importance, fx(0.6));
    assert!(t3.connections.is_empty());
}

#[test]
fn consolidate_summarizes_large_clusters() {
    let mut store = MemoryStore::new(10);
    for i in 0..4 {
        store.store_at(tile(&format!("t{i}"), TileType::Signal, &format!("ping {i}"), 0.4).with_metadata("src", "s"), 1);
    }
    let created = MemoryConsolidator::default().consolidate_at(&mut store, 5);
    assert_eq!(created.len(), 1);
    let dream = store.get_untouched(&created[0]).unwrap();
    assert_eq!(dream.content, "Consolidation of 4 signal tiles");
    assert_eq!(dream.importance, fx(0.4));
}

#[test]
fn consolidate_with_full_store_evicts_for_the_dream() {
    let mut store = MemoryStore::new(2);
    store.store_at(tile("t1", TileType::Thought, "hm", 0.3), 1);
    store.store_at(tile("t2", TileType::Thought, "hm", 0.5), 1);
    let created = MemoryConsolidator::new(2, fx(0.1)).consolidate_at(&mut store, 9);
    assert_eq!(created, vec!["dream_9"]);
    assert_eq!(store.tile_count(), 2);
    assert!(store.get_untouched("t1").is_none());
    let t2 = store.get_untouched("t2").unwrap();
    assert_eq!(t2.importance, fx(0.4));
    assert_eq!(t2.connections, vec!["dream_9"]);
}

#[test]
fn consolidate_gives_each_cluster_its_own_dream() {
    let mut store = MemoryStore::new(10);
    store.store_at(tile("t1", TileType::Observation, "a bird", 0.8).with_metadata("k", "v"), 1);
    store.store_at(tile("t2", TileType::Observation, "a cat", 0.6).with_metadata("k", "v"), 1);
    store.store_at(tile("t3", TileType::Thought, "idea", 0.4), 1);
    store.store_at(tile("t4", TileType::Thought, "idea", 0.2), 1);
    let created = MemoryConsolidator::default().consolidate_at(&mut store, 7);
    assert_eq!(created, vec!["dream_7", "dream_7_1"]);
    assert_eq!(store.tile_count(), 6);
    let first = store.get_untouched("dream_7").unwrap();
    assert_eq!(first.connections, vec!["t1", "t2"]);
    assert_eq!(first.content, "a bird + a cat");
    let second = store.get_untouched("dream_7_1").unwrap();
    assert_eq!(second.tile_type, TileType::Dream);
    assert_eq!(second.connections, vec!["t3", "t4"]);
    assert_eq!(second.content, "idea + idea");
    assert_eq!(second.importance, fx(0.3));
    assert_eq!(store.get_untouched("t1").unwrap().connections, vec!["dream_7"]);
    assert_eq!(store.get_untouched("t4").unwrap().connections, vec!["dream_7_1"]);
}

#[test]
fn dream_ids_avoid_ids_in_use() {
    let mut store = MemoryStore::new(10);
    store.store_at(tile("dream_3", TileType::Action, "x", 0.5), 1);
    store.store_at(tile("dream_3_1", TileType::Decision, "y", 0.5), 1);
    store.store_at(tile("t1", TileType::Observation, "a bird", 0.8).with_metadata("k", "v"), 1);
    store.store_at(tile("t2", TileType::Observation, "a cat", 0.6).with_metadata("k", "v"), 1);
    let created = MemoryConsolidator::default().consolidate_at(&mut store, 3);
    assert_eq!(created, vec!["dream_3_2"]);
    assert_eq!(store.get_untouched("dream_3").unwrap().tile_type, TileType::Action);
    assert_eq!(store.get_untouched("dream_3_1").unwrap().tile_type, TileType::Decision);
    assert_eq!(store.get_untouched("dream_3_2").unwrap().tile_type, TileType::Dream);
}

#[test]
fn path_search_keeps_first_of_equal_paths() {
    let mut graph = MemoryGraph::new();
    graph.connect("a", "b", fx(0.5));
    graph.connect("a", "c", fx(0.5));
    graph.connect("b", "d", fx(0.5));
    graph.connect("c", "d", fx(0.5));
    assert_eq!(graph.strongest_path("a", "d").unwrap(), vec!["a", "b", "d"]);
}
