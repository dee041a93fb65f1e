use chain_demo::block::{Attribute, BlockData, BlockHeader, IndexConfig, IndexConfigs,
    InterIndex, Parameter, Transaction, TransactionValue};
use chain_demo::bloom::{BloomFilter, SeededBloomFilter};
use chain_demo::codec;
use chain_demo::digest::Digest;
use chain_demo::intra::{create_btree, IntraIndex};

fn tx(id: u64, block_id: u64, addr: &str, value: u64, ts: u64) -> Transaction {
    Transaction {
        id,
        block_id,
        value: TransactionValue {
            address: addr.as_bytes().to_vec(),
            trans_value: value,
            time_stamp: ts,
        },
    }
}

fn sample_data() -> BlockData {
    let txs = vec![
        tx(1, 7, "alice", 10, 99),
        tx(2, 7, "bob", 20, 99),
        tx(3, 7, "carol", 30, 99),
    ];
    BlockData {
        block_id: 7,
        tx_ids: txs.iter().map(|t| t.id).collect(),
        txs,
    }
}

#[test]
fn inter_index_round_trip() {
    let s = InterIndex { start_timestamp: 42, a_num: -35, b_num: 170, den: 100 };
    let bytes = codec::encode_inter(&s);
    let back = codec::decode_inter(&bytes).unwrap();
    assert_eq!(back.start_timestamp, s.start_timestamp);
    assert_eq!(back.a_num, s.a_num);
    assert_eq!(back.b_num, s.b_num);
    assert_eq!(back.den, s.den);
}

#[test]
fn index_configs_round_trip() {
    let c = IndexConfigs {
        attribute: Attribute::Address,
        config: vec![
            IndexConfig { performance: 5, storage_cost: 6, block_height: 7, attribute: Attribute::Address },
            IndexConfig { performance: 8, storage_cost: 9, block_height: 10, attribute: Attribute::Id },
        ],
    };
    let bytes = codec::encode_index_configs(&c);
    let back = codec::decode_index_configs(&bytes).unwrap();
    assert!(matches!(back.attribute, Attribute::Address));
    assert_eq!(back.config.len(), 2);
    assert_eq!(back.config[0].performance, 5);
    assert_eq!(back.config[1].block_height, 10);
    assert!(matches!(back.config[1].attribute, Attribute::Id));
}

#[test]
fn block_data_round_trip() {
    let d = sample_data();
    let bytes = codec::encode_block_data(&d);
    let back = codec::decode_block_data(&bytes).unwrap();
    assert_eq!(back.block_id, d.block_id);
    assert_eq!(back.tx_ids, d.tx_ids);
    assert_eq!(back.txs.len(), d.txs.len());
    for (a, b) in back.txs.iter().zip(d.txs.iter()) {
        assert_eq!(a.id, b.id);
        assert_eq!(a.block_id, b.block_id);
        assert_eq!(a.value.address, b.value.address);
        assert_eq!(a.value.trans_value, b.value.trans_value);
        assert_eq!(a.value.time_stamp, b.value.time_stamp);
    }
}

#[test]
fn block_header_round_trip() {
    let mut bloom = SeededBloomFilter::new(1000, 1, 100).unwrap();
    bloom.insert(&b"alice".to_vec());
    bloom.insert(&7u64.to_le_bytes().to_vec());
    let h = BlockHeader {
        block_id: 7,
        pre_hash: Digest(vec![1, 2, 3, 4]),
        time_stamp: 99,
        bmt_root: bloom,
        rmt_root: Digest(vec![9, 9, 9]),
    };
    let bytes = codec::encode_block_header(&h);
    let back = codec::decode_block_header(&bytes).unwrap();
    assert_eq!(back.block_id, h.block_id);
    assert_eq!(back.pre_hash.0, h.pre_hash.0);
    assert_eq!(back.time_stamp, h.time_stamp);
    assert_eq!(back.rmt_root.0, h.rmt_root.0);
    assert!(back.bmt_root.eq_configuration(&h.bmt_root));
    assert!(back.bmt_root.contains(&b"alice".to_vec()));
    assert!(back.bmt_root.contains(&7u64.to_le_bytes().to_vec()));
    assert_eq!(back.bmt_root.to_bytes(), h.bmt_root.to_bytes());
}

#[test]
fn intra_index_round_trip() {
    let d = sample_data();
    let id_map = create_btree(Attribute::Id, &d).unwrap();
    let addr_map = create_btree(Attribute::Address, &d).unwrap();
    let x = IntraIndex { block_id: 7, index: vec![(Attribute::Id, id_map), (Attribute::Address, addr_map)] };
    let bytes = codec::encode_intra_index(&x);
    let back = codec::decode_intra_index(&bytes).unwrap();
    assert_eq!(back.block_id, 7);
    assert_eq!(back.index.len(), 2);
    let re = codec::encode_intra_index(&back);
    assert_eq!(re, bytes);
}

#[test]
fn parameter_survives_codec_of_its_segments() {
    let p = Parameter {
        error_bounds_num: 1,
        error_bounds_den: 2,
        inter_index: true,
        intra_index: false,
        start_block_id: 0,
        block_count: 5,
        inter_index_timestamps: vec![10, 1000],
    };
    assert_eq!(p.inter_index_timestamps.len(), 2);
}

#[test]
fn corrupt_bytes_are_refused() {
    let s = InterIndex { start_timestamp: 42, a_num: 1, b_num: 1, den: 1 };
    let mut bytes = codec::encode_inter(&s);
    bytes.pop();
    assert!(codec::decode_inter(&bytes).is_none());
    let garbage: Vec<u8> = vec![250, 1, 2];
    assert!(codec::decode_index_configs(&garbage).is_none());
    assert!(codec::decode_block_data(&garbage).is_none());
}
