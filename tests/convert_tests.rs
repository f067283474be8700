use block_index::{
    convert_results_to_map, convert_results_to_map_with_options, convert_to_map, group_results_by,
    BlockMetadata, BlockResult,
};

fn block(id: &str, hash: &str, timestamp: u64, data: Vec<u8>) -> BlockResult {
    BlockResult {
        id: id.to_string(),
        hash: hash.to_string(),
        timestamp,
        data,
        metadata: None,
    }
}

#[test]
fn test_convert_results_to_map() {
    let results = vec![
        BlockResult {
            id: "block1".to_string(),
            hash: "hash1".to_string(),
            timestamp: 100,
            data: vec![1, 2, 3],
            metadata: None,
        },
        BlockResult {
            id: "block2".to_string(),
            hash: "hash2".to_string(),
            timestamp: 200,
            data: vec![4, 5, 6],
            metadata: None,
        },
    ];

    let map = convert_results_to_map(results.clone());

    assert_eq!(map.len(), 2);
    assert_eq!(map.get("block1").unwrap().hash, "hash1");
    assert_eq!(map.get("block2").unwrap().hash, "hash2");
}

#[test]
fn test_group_results_by() {
    let results = vec![
        BlockResult {
            id: "block1".to_string(),
            hash: "hash1".to_string(),
            timestamp: 100,
            data: vec![1, 2, 3],
            metadata: None,
        },
        BlockResult {
            id: "block2".to_string(),
            hash: "hash2".to_string(),
            timestamp: 100,
            data: vec![4, 5, 6],
            metadata: None,
        },
        BlockResult {
            id: "block3".to_string(),
            hash: "hash3".to_string(),
            timestamp: 200,
            data: vec![7, 8, 9],
            metadata: None,
        },
    ];

    let groups = group_results_by(&results, |r| r.timestamp);

    assert_eq!(groups.len(), 2);
    assert_eq!(groups.get(&100).unwrap().len(), 2);
    assert_eq!(groups.get(&200).unwrap().len(), 1);
}

#[test]
fn group_keeps_batch_order_and_copies_payload() {
    let results = vec![
        block("a", "h1", 5, vec![1]),
        block("b", "h2", 6, vec![2]),
        block("c", "h3", 5, vec![3, 4]),
    ];
    let groups = group_results_by(&results, |r| r.timestamp);
    let five = groups.get(&5).unwrap();
    assert_eq!(five[0].id, "a");
    assert_eq!(five[1].id, "c");
    assert_eq!(five[1].data, vec![3, 4]);
    assert!(groups.get(&7).is_none());
}

#[test]
fn group_of_empty_batch_is_empty() {
    let results: Vec<BlockResult> = Vec::new();
    let groups = group_results_by(&results, |r| r.hash.clone());
    assert_eq!(groups.len(), 0);
}

#[test]
fn convert_map_last_record_wins() {
    let map = convert_results_to_map(vec![
        block("x", "first", 1, vec![]),
        block("y", "other", 2, vec![]),
        block("x", "second", 3, vec![]),
    ]);
    assert_eq!(map.len(), 2);
    assert_eq!(map.get("x").unwrap().hash, "second");
    assert_eq!(map.get("x").unwrap().timestamp, 3);
    assert!(map.get("z").is_none());
}

#[test]
fn convert_map_of_empty_batch() {
    let map = convert_results_to_map(Vec::new());
    assert_eq!(map.len(), 0);
    assert!(map.get("block1").is_none());
}

#[test]
fn convert_to_map_uses_extracted_keys() {
    let items = vec![(1u32, "one".to_string()), (2, "two".to_string()), (3, "one".to_string())];
    let map = convert_to_map(items, |p| p.1.clone());
    assert_eq!(map.len(), 2);
    assert_eq!(map.get("one").unwrap().0, 3);
    assert_eq!(map.get("two").unwrap().0, 2);
    assert!(map.get("three").is_none());
}

#[test]
fn options_validator_drops_rejected_records() {
    let results = vec![
        block("a", "h1", 10, vec![]),
        block("b", "h2", 0, vec![]),
        block("c", "h3", 30, vec![]),
    ];
    let map = convert_results_to_map_with_options(
        results,
        Some(|r: &BlockResult| r.timestamp > 0),
        None::<fn(BlockResult) -> BlockResult>,
    );
    assert_eq!(map.len(), 2);
    assert!(map.get("a").is_some());
    assert!(map.get("b").is_none());
    assert!(map.get("c").is_some());
}

#[test]
fn options_transformer_rewrites_records() {
    let results = vec![block("a", "h1", 10, vec![]), block("b", "h2", 20, vec![])];
    let map = convert_results_to_map_with_options(
        results,
        None::<fn(&BlockResult) -> bool>,
        Some(|mut r: BlockResult| {
            r.timestamp += 1;
            r.metadata = Some(BlockMetadata {
                author: "me".to_string(),
                version: "1".to_string(),
                transactions_count: 7,
            });
            r
        }),
    );
    assert_eq!(map.get("a").unwrap().timestamp, 11);
    assert_eq!(map.get("b").unwrap().timestamp, 21);
    assert_eq!(map.get("b").unwrap().metadata.as_ref().unwrap().transactions_count, 7);
}

#[test]
fn options_transformer_can_rekey_records() {
    let results = vec![block("a", "h1", 10, vec![]), block("b", "h2", 20, vec![])];
    let map = convert_results_to_map_with_options(
        results,
        Some(|r: &BlockResult| r.id != "b"),
        Some(|mut r: BlockResult| {
            r.id = format!("{}-x", r.id);
            r
        }),
    );
    assert_eq!(map.len(), 1);
    assert!(map.get("a").is_none());
    assert_eq!(map.get("a-x").unwrap().hash, "h1");
}

#[test]
fn options_without_validator_or_transformer() {
    let results = vec![block("a", "h1", 10, vec![9]), block("a", "h2", 20, vec![8])];
    let map = convert_results_to_map_with_options(
        results,
        None::<fn(&BlockResult) -> bool>,
        None::<fn(BlockResult) -> BlockResult>,
    );
    assert_eq!(map.len(), 1);
    assert_eq!(map.get("a").unwrap().hash, "h2");
}

#[test]
fn duplicate_copies_every_field() {
    let mut b = block("a", "h", 4, vec![1, 2, 3]);
    b.metadata = Some(BlockMetadata {
        author: "ann".to_string(),
        version: "v2".to_string(),
        transactions_count: 12,
    });
    let c = b.duplicate();
    assert_eq!(c.id, "a");
    assert_eq!(c.hash, "h");
    assert_eq!(c.timestamp, 4);
    assert_eq!(c.data, vec![1, 2, 3]);
    let m = c.metadata.unwrap();
    assert_eq!(m.author, "ann");
    assert_eq!(m.version, "v2");
    assert_eq!(m.transactions_count, 12);
}
