//! The block model: transactions, block data and headers, the per-block
//! ordered index shapes, the inter-block index segments, and the engine
//! parameters.  Every type has a mathematical model that the storage and
//! codec contracts are stated over.

use vstd::prelude::*;
use crate::bloom::BloomFilter;
use crate::bloom::SeededBloomFilter;
use crate::digest::{Digest, copy_bytes};
use crate::errors::ChainError;

verus! {

/// The attributes a query or an index can name.
#[derive(Clone, Copy, Debug, PartialEq, Eq, Structural)]
pub enum Attribute {
    Id,
    Address,
    Value,
    Timestamp,
}

/// The canonical byte spelling of each attribute.
pub open spec fn attribute_bytes(a: Attribute) -> Seq<u8> {
    match a {
        Attribute::Id => seq![105u8, 100u8],
        Attribute::Address => seq![97u8, 100u8, 100u8, 114u8, 101u8, 115u8, 115u8],
        Attribute::Value => seq![118u8, 97u8, 108u8, 117u8, 101u8],
        Attribute::Timestamp => seq![
            116u8, 105u8, 109u8, 101u8, 115u8, 116u8, 97u8, 109u8, 112u8,
        ],
    }
}

/// The canonical byte spelling, as a fresh vector.
pub fn attribute_name_bytes(a: Attribute) -> (r: Vec<u8>)
    ensures r@ == attribute_bytes(a),
{
    let mut v: Vec<u8> = Vec::new();
    match a {
        Attribute::Id => {
            v.push(105u8);
            v.push(100u8);
        },
        Attribute::Address => {
            v.push(97u8);
            v.push(100u8);
            v.push(100u8);
            v.push(114u8);
            v.push(101u8);
            v.push(115u8);
            v.push(115u8);
        },
        Attribute::Value => {
            v.push(118u8);
            v.push(97u8);
            v.push(108u8);
            v.push(117u8);
            v.push(101u8);
        },
        Attribute::Timestamp => {
            v.push(116u8);
            v.push(105u8);
            v.push(109u8);
            v.push(101u8);
            v.push(115u8);
            v.push(116u8);
            v.push(97u8);
            v.push(109u8);
            v.push(112u8);
        },
    }
    proof {
        assert(v@ =~= attribute_bytes(a));
    }
    v
}

/// What parsing a name yields.
pub open spec fn spec_parse_attribute(name: Seq<u8>) -> Result<Attribute, ChainError> {
    if name == attribute_bytes(Attribute::Id) {
        Ok(Attribute::Id)
    } else if name == attribute_bytes(Attribute::Address) {
        Ok(Attribute::Address)
    } else if name == attribute_bytes(Attribute::Value) {
        Ok(Attribute::Value)
    } else if name == attribute_bytes(Attribute::Timestamp) {
        Ok(Attribute::Timestamp)
    } else {
        Err(ChainError::UnknownAttribute)
    }
}

/// Parse an attribute name; anything outside the fixed set is refused.
pub fn parse_attribute(name: &Vec<u8>) -> (r: Result<Attribute, ChainError>)
    ensures r == spec_parse_attribute(name@),
{
    let id_name = attribute_name_bytes(Attribute::Id);
    let address_name = attribute_name_bytes(Attribute::Address);
    let value_name = attribute_name_bytes(Attribute::Value);
    let timestamp_name = attribute_name_bytes(Attribute::Timestamp);
    if crate::digest::compare_bytes(name, &id_name) {
        Ok(Attribute::Id)
    } else if crate::digest::compare_bytes(name, &address_name) {
        Ok(Attribute::Address)
    } else if crate::digest::compare_bytes(name, &value_name) {
        Ok(Attribute::Value)
    } else if crate::digest::compare_bytes(name, &timestamp_name) {
        Ok(Attribute::Timestamp)
    } else {
        Err(ChainError::UnknownAttribute)
    }
}

/// The payload of a transaction.
#[derive(Clone, Debug)]
pub struct TransactionValue {
    pub address: Vec<u8>,
    pub trans_value: u64,
    pub time_stamp: u64,
}

/// One ledger transaction.
#[derive(Clone, Debug)]
pub struct Transaction {
    pub id: u64,
    pub block_id: u64,
    pub value: TransactionValue,
}

/// The model of a transaction: its fields with byte strings as sequences.
pub struct TxModel {
    pub id: u64,
    pub block_id: u64,
    pub address: Seq<u8>,
    pub trans_value: u64,
    pub time_stamp: u64,
}

/// The model of a transaction value.
pub open spec fn tx_model(t: Transaction) -> TxModel {
    TxModel {
        id: t.id,
        block_id: t.block_id,
        address: t.value.address@,
        trans_value: t.value.trans_value,
        time_stamp: t.value.time_stamp,
    }
}

/// A fresh transaction with the same model.
pub fn copy_tx(t: &Transaction) -> (r: Transaction)
    ensures tx_model(r) == tx_model(*t),
{
    Transaction {
        id: t.id,
        block_id: t.block_id,
        value: TransactionValue {
            address: copy_bytes(&t.value.address),
            trans_value: t.value.trans_value,
            time_stamp: t.value.time_stamp,
        },
    }
}

/// The ordered transactions of one block, ids and bodies in step.
#[derive(Clone, Debug)]
pub struct BlockData {
    pub block_id: u64,
    pub tx_ids: Vec<u64>,
    pub txs: Vec<Transaction>,
}

/// The model of block data.
pub struct BlockDataModel {
    pub block_id: u64,
    pub tx_ids: Seq<u64>,
    pub txs: Seq<TxModel>,
}

/// The model of block data.
pub open spec fn block_data_model(d: BlockData) -> BlockDataModel {
    BlockDataModel {
        block_id: d.block_id,
        tx_ids: d.tx_ids@,
        txs: d.txs@.map_values(|t: Transaction| tx_model(t)),
    }
}

/// Soundness of block data: id list and transaction list run in step,
/// every transaction carries this block's id, and transaction ids are
/// unique.
pub open spec fn block_data_wf(d: BlockDataModel) -> bool {
    &&& d.tx_ids.len() == d.txs.len()
    &&& forall|i: int| 0 <= i < d.txs.len() ==> (#[trigger] d.txs[i]).id == d.tx_ids[i]
    &&& forall|i: int| 0 <= i < d.txs.len() ==> (#[trigger] d.txs[i]).block_id == d.block_id
    &&& forall|i: int, j: int| 0 <= i < j < d.txs.len()
        ==> (#[trigger] d.txs[i]).id != (#[trigger] d.txs[j]).id
}

/// One block header: its id, the digest of the previous header, the
/// common timestamp of its transactions, the block-level Bloom filter,
/// and an auxiliary root digest.
#[derive(Clone, Debug)]
pub struct BlockHeader {
    pub block_id: u64,
    pub pre_hash: Digest,
    pub time_stamp: u64,
    pub bmt_root: SeededBloomFilter,
    pub rmt_root: Digest,
}

/// The model of a Bloom filter: its configuration and packed words.
pub struct BloomModel {
    pub k: nat,
    pub m: nat,
    pub words: Seq<u64>,
}

/// The model of a filter value.
pub open spec fn bloom_model(f: SeededBloomFilter) -> BloomModel {
    BloomModel { k: f.k(), m: f.m(), words: f.words() }
}

/// The model of a header.
pub struct HeaderModel {
    pub block_id: u64,
    pub pre_hash: Seq<u8>,
    pub time_stamp: u64,
    pub bmt_root: BloomModel,
    pub rmt_root: Seq<u8>,
}

/// The model of a header value.
pub open spec fn header_model(h: BlockHeader) -> HeaderModel {
    HeaderModel {
        block_id: h.block_id,
        pre_hash: h.pre_hash.0@,
        time_stamp: h.time_stamp,
        bmt_root: bloom_model(h.bmt_root),
        rmt_root: h.rmt_root.0@,
    }
}

/// The canonical bytes fed to the header digest: id, previous digest,
/// timestamp.
pub open spec fn header_digest_bytes(h: HeaderModel) -> Seq<u8> {
    vstd::bytes::spec_u64_to_le_bytes(h.block_id) + h.pre_hash + vstd::bytes::spec_u64_to_le_bytes(
        h.time_stamp,
    )
}

impl BlockHeader {
    /// The digest of this header under the canonical encoding.
    pub fn to_digest(&self) -> (r: Digest)
        ensures r.0@ == crate::digest::sha256_of(header_digest_bytes(header_model(*self))),
    {
        let mut data: Vec<u8> = Vec::new();
        let id_bytes = vstd::bytes::u64_to_le_bytes(self.block_id);
        crate::digest::append_bytes(&mut data, &id_bytes);
        crate::digest::append_bytes(&mut data, &self.pre_hash.0);
        let ts_bytes = vstd::bytes::u64_to_le_bytes(self.time_stamp);
        crate::digest::append_bytes(&mut data, &ts_bytes);
        proof {
            assert(data@ =~= header_digest_bytes(header_model(*self)));
        }
        let bytes = crate::digest::hash_bytes(crate::digest::HashAlgo::Sha256, data.as_slice());
        Digest(bytes)
    }
}

/// One segment of the piecewise-linear inter-block index: from
/// `start_timestamp` on, block ids are predicted by the exact rational
/// line (a_num/den) * t + (b_num/den).
#[derive(Clone, Copy, Debug)]
pub struct InterIndex {
    pub start_timestamp: u64,
    pub a_num: i128,
    pub b_num: i128,
    pub den: i128,
}

/// A segment's line has a positive denominator.
pub open spec fn inter_index_wf(s: InterIndex) -> bool {
    s.den >= 1
}

/// The engine parameters: the error bound of the learned index as an
/// exact fraction, which index kinds are enabled, the block id range,
/// and the segment start timestamps.
#[derive(Clone, Debug)]
pub struct Parameter {
    pub error_bounds_num: u64,
    pub error_bounds_den: u64,
    pub inter_index: bool,
    pub intra_index: bool,
    pub start_block_id: u64,
    pub block_count: u64,
    pub inter_index_timestamps: Vec<u64>,
}

/// The model of the parameters.
pub struct ParameterModel {
    pub error_bounds_num: u64,
    pub error_bounds_den: u64,
    pub inter_index: bool,
    pub intra_index: bool,
    pub start_block_id: u64,
    pub block_count: u64,
    pub inter_index_timestamps: Seq<u64>,
}

/// The model of a parameter value.
pub open spec fn parameter_model(p: Parameter) -> ParameterModel {
    ParameterModel {
        error_bounds_num: p.error_bounds_num,
        error_bounds_den: p.error_bounds_den,
        inter_index: p.inter_index,
        intra_index: p.intra_index,
        start_block_id: p.start_block_id,
        block_count: p.block_count,
        inter_index_timestamps: p.inter_index_timestamps@,
    }
}

/// A fresh parameter value with the same model.
pub fn copy_parameter(p: &Parameter) -> (r: Parameter)
    ensures parameter_model(r) == parameter_model(*p),
{
    let mut ts: Vec<u64> = Vec::new();
    let mut i: usize = 0;
    while i < p.inter_index_timestamps.len()
        invariant
            i <= p.inter_index_timestamps@.len(),
            ts@ =~= p.inter_index_timestamps@.subrange(0, i as int),
        decreases p.inter_index_timestamps@.len() - i,
    {
        ts.push(p.inter_index_timestamps[i]);
        i += 1;
        proof {
            assert(ts@ =~= p.inter_index_timestamps@.subrange(0, i as int));
        }
    }
    proof {
        assert(ts@ =~= p.inter_index_timestamps@);
    }
    Parameter {
        error_bounds_num: p.error_bounds_num,
        error_bounds_den: p.error_bounds_den,
        inter_index: p.inter_index,
        intra_index: p.intra_index,
        start_block_id: p.start_block_id,
        block_count: p.block_count,
        inter_index_timestamps: ts,
    }
}

/// One candidate index: the attribute and block it would serve, its
/// measured build cost, and the byte size it would occupy.
#[derive(Clone, Copy, Debug)]
pub struct IndexConfig {
    pub performance: u64,
    pub storage_cost: u64,
    pub block_height: u64,
    pub attribute: Attribute,
}

/// The candidate list persisted for one attribute.
#[derive(Clone, Debug)]
pub struct IndexConfigs {
    pub attribute: Attribute,
    pub config: Vec<IndexConfig>,
}

/// The model of a candidate list.
pub struct IndexConfigsModel {
    pub attribute: Attribute,
    pub config: Seq<IndexConfig>,
}

/// The model of a candidate list value.
pub open spec fn index_configs_model(c: IndexConfigs) -> IndexConfigsModel {
    IndexConfigsModel { attribute: c.attribute, config: c.config@ }
}

} // verus!
