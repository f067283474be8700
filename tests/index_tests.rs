use block_index::{BlockResult, BlockResultIndex};

fn block(id: &str, hash: &str, timestamp: u64) -> BlockResult {
    BlockResult {
        id: id.to_string(),
        hash: hash.to_string(),
        timestamp,
        data: vec![1, 2, 3],
        metadata: None,
    }
}

fn ids(found: &[&BlockResult]) -> Vec<String> {
    found.iter().map(|b| b.id.clone()).collect()
}

fn scenario_b() -> BlockResultIndex {
    BlockResultIndex::new(vec![
        block("block1", "hash1", 100),
        block("block2", "hash2", 100),
        block("block3", "hash3", 200),
    ])
}

#[test]
fn two_records_by_id() {
    let index = BlockResultIndex::new(vec![
        block("block1", "hash1", 100),
        block("block2", "hash2", 200),
    ]);
    assert_eq!(index.get_by_id("block1").unwrap().hash, "hash1");
    assert_eq!(index.get_by_id("block2").unwrap().hash, "hash2");
    assert_eq!(index.get_by_hash("hash2").unwrap().id, "block2");
    assert!(index.get_by_id("block3").is_none());
}

#[test]
fn records_grouped_by_timestamp() {
    let index = scenario_b();
    assert_eq!(ids(&index.get_by_timestamp(100)), vec!["block1", "block2"]);
    assert_eq!(ids(&index.get_by_timestamp(200)), vec!["block3"]);
    assert!(index.get_by_timestamp(150).is_empty());
}

#[test]
fn last_hash_writer_wins() {
    let index = BlockResultIndex::new(vec![block("block1", "dup", 1), block("block2", "dup", 2)]);
    assert_eq!(index.get_by_hash("dup").unwrap().id, "block2");
    assert_eq!(index.get_by_id("block1").unwrap().hash, "dup");
}

#[test]
fn range_over_grouped_records() {
    let index = scenario_b();
    assert_eq!(ids(&index.get_in_timestamp_range(50, 150)), vec!["block1", "block2"]);
    assert!(index.get_in_timestamp_range(300, 400).is_empty());
}

#[test]
fn range_is_ordered_by_timestamp() {
    let index = BlockResultIndex::new(vec![
        block("c", "hc", 30),
        block("a", "ha", 10),
        block("b", "hb", 20),
        block("d", "hd", 10),
    ]);
    assert_eq!(ids(&index.get_in_timestamp_range(0, u64::MAX)), vec!["a", "d", "b", "c"]);
    assert_eq!(ids(&index.get_in_timestamp_range(10, 20)), vec!["a", "d", "b"]);
    assert_eq!(ids(&index.get_in_timestamp_range(20, 20)), vec!["b"]);
}

#[test]
fn range_equals_union_of_points() {
    let index = BlockResultIndex::new(vec![
        block("a", "ha", 3),
        block("b", "hb", 5),
        block("c", "hc", 3),
        block("d", "hd", 8),
    ]);
    let mut union = Vec::new();
    for t in 2..=6 {
        union.extend(ids(&index.get_by_timestamp(t)));
    }
    assert_eq!(ids(&index.get_in_timestamp_range(2, 6)), union);
    assert_eq!(union, vec!["a", "c", "b"]);
}

#[test]
fn reversed_range_is_empty() {
    let index = scenario_b();
    assert!(index.get_in_timestamp_range(200, 100).is_empty());
}

#[test]
fn range_at_the_largest_timestamp() {
    let index = BlockResultIndex::new(vec![block("top", "h", u64::MAX), block("low", "l", 0)]);
    assert_eq!(ids(&index.get_in_timestamp_range(u64::MAX, u64::MAX)), vec!["top"]);
    assert_eq!(ids(&index.get_in_timestamp_range(0, 0)), vec!["low"]);
}

#[test]
fn empty_batch_answers_nothing() {
    let index = BlockResultIndex::new(Vec::new());
    assert!(index.get_by_id("block1").is_none());
    assert!(index.get_by_hash("hash1").is_none());
    assert!(index.get_by_timestamp(100).is_empty());
    assert!(index.get_in_timestamp_range(0, u64::MAX).is_empty());
}

#[test]
fn unknown_keys_miss() {
    let index = scenario_b();
    assert!(index.get_by_id("nope").is_none());
    assert!(index.get_by_hash("nope").is_none());
    assert!(index.get_by_timestamp(101).is_empty());
    assert!(index.get_in_timestamp_range(101, 199).is_empty());
}

#[test]
fn duplicate_id_keeps_last_record() {
    let index = BlockResultIndex::new(vec![
        block("x", "h1", 1),
        block("y", "h2", 2),
        block("x", "h3", 3),
    ]);
    let x = index.get_by_id("x").unwrap();
    assert_eq!(x.hash, "h3");
    assert_eq!(x.timestamp, 3);
    // the earlier entries of the replaced record still resolve to the current one
    assert_eq!(index.get_by_hash("h1").unwrap().hash, "h3");
    assert_eq!(index.get_by_timestamp(1)[0].timestamp, 3);
    assert_eq!(ids(&index.get_by_timestamp(3)), vec!["x"]);
}

#[test]
fn every_record_found_by_id_and_hash() {
    let batch = vec![
        block("a", "ha", 7),
        block("b", "hb", 7),
        block("c", "hc", 9),
        block("d", "hd", 1),
    ];
    let index = BlockResultIndex::new(batch.clone());
    for r in &batch {
        assert_eq!(index.get_by_id(&r.id).unwrap().hash, r.hash);
        assert_eq!(index.get_by_hash(&r.hash).unwrap().id, r.id);
    }
    assert_eq!(ids(&index.get_by_timestamp(7)), vec!["a", "b"]);
}

#[test]
fn only_present_timestamps_have_groups() {
    let index = scenario_b();
    for t in [0u64, 99, 100, 101, 150, 199, 200, 201, u64::MAX] {
        assert_eq!(!index.get_by_timestamp(t).is_empty(), t == 100 || t == 200);
    }
}

#[test]
fn repeated_id_at_same_timestamp_is_filed_once() {
    let index = BlockResultIndex::new(vec![
        block("a", "h1", 1),
        block("b", "h2", 1),
        block("a", "h3", 1),
    ]);
    let found = index.get_by_timestamp(1);
    assert_eq!(ids(&found), vec!["a", "b"]);
    assert_eq!(found[0].hash, "h3");
    assert_eq!(ids(&index.get_in_timestamp_range(0, 5)), vec!["a", "b"]);
}
