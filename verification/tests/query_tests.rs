use chain_demo::block::{Attribute, IndexConfig, IndexConfigs, Parameter, Transaction,
    TransactionValue};
use chain_demo::digest::Digest;
use chain_demo::manager::{build_block, build_inter_index, index_build};
use chain_demo::query::{historical_query, QueryCounters, QueryParam};
use chain_demo::store::{MemStore, ReadInterface, WriteInterface};

fn tx(id: u64, block_id: u64, addr: &str, value: u64, ts: u64) -> Transaction {
    Transaction {
        id,
        block_id,
        value: TransactionValue {
            address: addr.as_bytes().to_vec(),
            trans_value: value,
            time_stamp: ts,
        },
    }
}

fn param(start: u64, count: u64) -> Parameter {
    Parameter {
        error_bounds_num: 0,
        error_bounds_den: 1,
        inter_index: true,
        intra_index: true,
        start_block_id: start,
        block_count: count,
        inter_index_timestamps: Vec::new(),
    }
}

fn one_block_store() -> MemStore {
    let mut store = MemStore::new(param(0, 1));
    let addrs = ["alpha", "beech", "cedar", "delta", "elm", "fir", "ginkgo", "hazel", "iris", "juniper"];
    let txs: Vec<Transaction> = (0..10u64)
        .map(|i| tx(i, 0, addrs[i as usize], i * 100, 10))
        .collect();
    build_block(0, Digest(Vec::new()), txs, &mut store).unwrap();
    store
}

fn ids_of(result: &chain_demo::query::OverallResult) -> Vec<u64> {
    let mut ids: Vec<u64> = Vec::new();
    for entry in result.res_txs.0.iter() {
        for t in entry.txs.iter() {
            ids.push(t.id);
        }
    }
    ids.sort();
    ids
}

fn conj_query(intra: bool, bloom: bool) -> QueryParam {
    QueryParam {
        key: vec!["id".to_string(), "address".to_string()],
        value: vec![
            (Some("5".to_string()), Some("9".to_string())),
            (Some("a".to_string()), Some("m".to_string())),
        ],
        bloom_filter: bloom,
        intra_index: intra,
    }
}

#[test]
fn conjunction_matches_hand_computed_set() {
    // ids 5..9 whose address lies in ["a", "m"): fir, ginkgo, hazel,
    // iris all qualify; juniper (id 9) is out of the id range.
    let mut store = one_block_store();
    let mut counters = QueryCounters::new();
    // Materialize the id and address maps.
    index_build(
        &vec![Attribute::Id, Attribute::Address],
        &vec![0u64],
        &mut store,
    )
    .unwrap();
    let with_intra = historical_query(&conj_query(true, false), &mut store, &mut counters).unwrap();
    assert_eq!(ids_of(&with_intra), vec![5, 6, 7, 8]);
    let without = historical_query(&conj_query(false, false), &mut store, &mut counters).unwrap();
    assert_eq!(ids_of(&without), vec![5, 6, 7, 8]);
}

#[test]
fn bloom_pruning_keeps_matching_blocks() {
    let mut store = one_block_store();
    let mut counters = QueryCounters::new();
    let pruned = historical_query(&conj_query(false, true), &mut store, &mut counters).unwrap();
    assert_eq!(ids_of(&pruned), vec![5, 6, 7, 8]);
}

#[test]
fn timestamp_window_uses_learned_index() {
    let mut store = MemStore::new(param(0, 5));
    let mut headers = Vec::new();
    for b in 0..5u64 {
        let txs: Vec<Transaction> = (0..3u64)
            .map(|i| tx(b * 10 + i, b, "addr", i, (b + 1) * 10))
            .collect();
        headers.push(build_block(b, Digest(Vec::new()), txs, &mut store).unwrap());
    }
    build_inter_index(&headers, &mut store).unwrap();
    let q = QueryParam {
        key: vec!["timestamp".to_string(), "value".to_string()],
        value: vec![
            (Some("30".to_string()), Some("31".to_string())),
            (Some("0".to_string()), Some("100".to_string())),
        ],
        bloom_filter: false,
        intra_index: false,
    };
    let mut counters = QueryCounters::new();
    let res = historical_query(&q, &mut store, &mut counters).unwrap();
    // Only block 2 carries timestamp 30.
    assert_eq!(res.res_txs.0.len(), 1);
    assert_eq!(res.res_txs.0[0].block_id, 2);
    assert_eq!(res.res_txs.0[0].txs.len(), 3);
}

#[test]
fn malformed_query_is_refused() {
    let mut store = one_block_store();
    let mut counters = QueryCounters::new();
    let q = QueryParam {
        key: vec!["id".to_string()],
        value: Vec::new(),
        bloom_filter: false,
        intra_index: false,
    };
    match historical_query(&q, &mut store, &mut counters) {
        Err(e) => assert_eq!(e, chain_demo::errors::ChainError::MalformedQuery),
        Ok(_) => panic!("malformed query accepted"),
    }
    let q2 = QueryParam {
        key: vec!["id".to_string()],
        value: vec![(Some("x".to_string()), None)],
        bloom_filter: false,
        intra_index: false,
    };
    match historical_query(&q2, &mut store, &mut counters) {
        Err(e) => assert_eq!(e, chain_demo::errors::ChainError::BadRangeBound),
        Ok(_) => panic!("bad bound accepted"),
    }
    let q3 = QueryParam {
        key: vec!["owner".to_string()],
        value: vec![(None, None)],
        bloom_filter: false,
        intra_index: false,
    };
    match historical_query(&q3, &mut store, &mut counters) {
        Err(e) => assert_eq!(e, chain_demo::errors::ChainError::UnknownAttribute),
        Ok(_) => panic!("unknown attribute accepted"),
    }
}

#[test]
fn hundredth_query_runs_the_manager() {
    let mut store = one_block_store();
    // Persist candidates so the manager has arms to choose from.
    let candidates = IndexConfigs {
        attribute: Attribute::Id,
        config: vec![IndexConfig {
            performance: 1000,
            storage_cost: 512,
            block_height: 0,
            attribute: Attribute::Id,
        }],
    };
    store.write_index_config(candidates).unwrap();
    let mut counters = QueryCounters::new();
    let q = conj_query(false, false);
    for _ in 0..99 {
        historical_query(&q, &mut store, &mut counters).unwrap();
    }
    assert_eq!(counters.query_counter, 99);
    assert!(counters.key_usage.len() > 0);
    historical_query(&q, &mut store, &mut counters).unwrap();
    // The hook fired: the counter reset and the key usage was cleared.
    assert_eq!(counters.query_counter, 0);
    assert_eq!(counters.key_usage.len(), 0);
    // The persisted set matches the bandit's only affordable choice.
    let family = store.read_intra_index(0).unwrap();
    assert_eq!(family.index.len(), 1);
    assert!(matches!(family.index[0].0, Attribute::Id));
}

#[test]
fn query_results_satisfy_every_predicate() {
    let mut store = one_block_store();
    let mut counters = QueryCounters::new();
    let res = historical_query(&conj_query(false, false), &mut store, &mut counters).unwrap();
    for entry in res.res_txs.0.iter() {
        for t in entry.txs.iter() {
            assert!(t.id >= 5 && t.id < 9);
            assert!(t.value.address.as_slice() >= b"a".as_slice());
            assert!(t.value.address.as_slice() < b"m".as_slice());
        }
    }
}

#[test]
fn key_usage_counts_each_occurrence() {
    let q = QueryParam {
        key: vec!["id".to_string(), "address".to_string(), "id".to_string()],
        value: vec![
            (Some("1".to_string()), Some("5".to_string())),
            (Some("a".to_string()), Some("b".to_string())),
            (Some("2".to_string()), Some("6".to_string())),
        ],
        bloom_filter: false,
        intra_index: false,
    };
    let mut counters = QueryCounters::new();
    let reqs = chain_demo::query::extract_request(&q, &mut counters).unwrap();
    assert_eq!(reqs.len(), 3);
    let mut id_count = 0u64;
    let mut addr_count = 0u64;
    for (a, n) in counters.key_usage.iter() {
        match a {
            Attribute::Id => id_count = *n,
            Attribute::Address => addr_count = *n,
            _ => {}
        }
    }
    assert_eq!(id_count, 2);
    assert_eq!(addr_count, 1);
}

#[test]
fn scanned_blocks_are_counted_once_per_offset() {
    let mut store = one_block_store();
    let mut counters = QueryCounters::new();
    let q = conj_query(false, false);
    historical_query(&q, &mut store, &mut counters).unwrap();
    // One block scanned: the current row holds a single access at
    // offset zero.
    assert_eq!(counters.block_access.len(), 1);
    assert_eq!(counters.block_access[0], vec![1]);
    historical_query(&q, &mut store, &mut counters).unwrap();
    assert_eq!(counters.block_access[0], vec![2]);
}
