//! The storage contract the engine runs against, and a verified
//! in-memory store implementing it.  A read returns exactly what was
//! last written under the key; the durable backing of a deployment sits
//! outside the engine and hands values through these shapes.

use vstd::prelude::*;
use crate::block::{Attribute, BlockData, BlockDataModel, BlockHeader, HeaderModel, IndexConfig,
    IndexConfigs, InterIndex, Parameter, ParameterModel, Transaction, TxModel, block_data_model,
    block_data_wf, header_model, parameter_model, tx_model, copy_parameter, copy_tx};
use crate::bloom::BloomFilter;
use crate::digest::Digest;
use crate::intra::{BTreeEnum, IntraIndex, TextIndexMap, U64IndexMap, text_map_model,
    u64_map_model};
use crate::errors::ChainError;

verus! {

/// What was last written under a key, scanning from the newest entry.
pub open spec fn assoc_get<K, V>(s: Seq<(K, V)>, k: K) -> Option<V>
    decreases s.len(),
{
    if s.len() == 0 {
        None
    } else if s.last().0 == k {
        Some(s.last().1)
    } else {
        assoc_get(s.drop_last(), k)
    }
}

/// The model of a per-attribute map.
pub enum BTreeModel {
    U64(Seq<(u64, TxModel)>),
    Text(Seq<(Seq<u8>, TxModel)>),
}

/// The model of a map value.
pub open spec fn btree_model(b: BTreeEnum) -> BTreeModel {
    match b {
        BTreeEnum::U64(m) => BTreeModel::U64(u64_map_model(m)),
        BTreeEnum::Text(m) => BTreeModel::Text(text_map_model(m)),
    }
}

/// The model of one block's materialized maps.
pub open spec fn intra_entries_model(x: IntraIndex) -> Seq<(Attribute, BTreeModel)> {
    x.index@.map_values(|e: (Attribute, BTreeEnum)| (e.0, btree_model(e.1)))
}

/// Everything a store holds, as last-written association lists.
pub struct StoreModel {
    pub parameter: ParameterModel,
    pub headers: Seq<(u64, HeaderModel)>,
    pub datas: Seq<(u64, BlockDataModel)>,
    pub txs: Seq<(u64, TxModel)>,
    pub inter: Seq<(u64, InterIndex)>,
    pub intra: Seq<(u64, Seq<(Attribute, BTreeModel)>)>,
    pub configs: Seq<(Attribute, Seq<IndexConfig>)>,
}

/// The read half of the storage contract.
pub trait ReadInterface: Sized {
    spec fn inv(&self) -> bool;

    spec fn sview(&self) -> StoreModel;

    /// The engine parameters.
    fn get_parameter(&self) -> (r: Result<Parameter, ChainError>)
        requires self.inv(),
        ensures
            r is Ok,
            match r {
                Ok(p) => parameter_model(p) == self.sview().parameter,
                Err(_) => false,
            };

    /// The header written for a block id, owed whenever one was written.
    fn read_block_header(&self, id: u64) -> (r: Result<BlockHeader, ChainError>)
        requires self.inv(),
        ensures
            r is Ok <==> assoc_get(self.sview().headers, id) is Some,
            match r {
                Ok(h) => Some(header_model(h)) == assoc_get(self.sview().headers, id),
                Err(e) => e == ChainError::StorageUnavailable,
            };

    /// The data written for a block id, owed whenever one was written;
    /// stored block data is always sound.
    fn read_block_data(&self, id: u64) -> (r: Result<BlockData, ChainError>)
        requires self.inv(),
        ensures
            r is Ok <==> assoc_get(self.sview().datas, id) is Some,
            match r {
                Ok(d) => Some(block_data_model(d)) == assoc_get(self.sview().datas, id)
                    && block_data_wf(block_data_model(d)),
                Err(e) => e == ChainError::StorageUnavailable,
            };

    /// The materialized maps of a block; a block nothing was written
    /// for has the empty family.
    fn read_intra_index(&self, id: u64) -> (r: Result<IntraIndex, ChainError>)
        requires self.inv(),
        ensures
            match r {
                Ok(x) => x.block_id == id && intra_entries_model(x) == (
                match assoc_get(self.sview().intra, id) {
                    Some(m) => m,
                    None => Seq::<(Attribute, BTreeModel)>::empty(),
                }),
                Err(_) => false,
            };

    /// The transaction written under an id, owed whenever one was
    /// written.
    fn read_transaction(&self, id: u64) -> (r: Result<Transaction, ChainError>)
        requires self.inv(),
        ensures
            r is Ok <==> assoc_get(self.sview().txs, id) is Some,
            match r {
                Ok(t) => Some(tx_model(t)) == assoc_get(self.sview().txs, id),
                Err(e) => e == ChainError::StorageUnavailable,
            };

    /// The segment written under a start timestamp, owed whenever one
    /// was written.
    fn read_inter_index(&self, timestamp: u64) -> (r: Result<InterIndex, ChainError>)
        requires self.inv(),
        ensures
            r is Ok <==> assoc_get(self.sview().inter, timestamp) is Some,
            match r {
                Ok(s) => Some(s) == assoc_get(self.sview().inter, timestamp),
                Err(e) => e == ChainError::StorageUnavailable,
            };

    /// All segments named by the parameters, in parameter order; owed
    /// when every named segment was written.
    fn read_inter_indexs(&self) -> (r: Result<Vec<InterIndex>, ChainError>)
        requires self.inv(),
        ensures
            r is Ok <==> (forall|i: int|
                0 <= i < self.sview().parameter.inter_index_timestamps.len()
                    ==> assoc_get(
                    self.sview().inter,
                    #[trigger] self.sview().parameter.inter_index_timestamps[i],
                ) is Some),
            match r {
                Ok(v) => v@.len() == self.sview().parameter.inter_index_timestamps.len()
                    && forall|i: int| 0 <= i < v@.len() ==> Some(#[trigger] v@[i]) == assoc_get(
                    self.sview().inter,
                    self.sview().parameter.inter_index_timestamps[i],
                ),
                Err(e) => e == ChainError::StorageUnavailable,
            };

    /// The candidate list written for an attribute, owed whenever one
    /// was written.
    fn read_index_config(&self, attribute: Attribute) -> (r: Result<IndexConfigs, ChainError>)
        requires self.inv(),
        ensures
            r is Ok <==> assoc_get(self.sview().configs, attribute) is Some,
            match r {
                Ok(c) => c.attribute == attribute && Some(c.config@) == assoc_get(
                    self.sview().configs,
                    attribute,
                ),
                Err(e) => e == ChainError::StorageUnavailable,
            };
}

/// The write half of the storage contract: each write lands under its
/// key and disturbs nothing else.
pub trait WriteInterface: Sized + ReadInterface {
    fn set_parameter(&mut self, param: Parameter) -> (r: Result<(), ChainError>)
        requires old(self).inv(),
        ensures
            final(self).inv(),
            r is Ok,
            final(self).sview() == (StoreModel {
                parameter: parameter_model(param),
                ..old(self).sview()
            });

    fn write_block_header(&mut self, header: BlockHeader) -> (r: Result<(), ChainError>)
        requires old(self).inv(),
        ensures
            final(self).inv(),
            r is Ok,
            final(self).sview() == (StoreModel {
                headers: old(self).sview().headers.push(
                    (header.block_id, header_model(header)),
                ),
                ..old(self).sview()
            });

    fn write_block_data(&mut self, data: BlockData) -> (r: Result<(), ChainError>)
        requires
            old(self).inv(),
            block_data_wf(block_data_model(data)),
        ensures
            final(self).inv(),
            r is Ok,
            final(self).sview() == (StoreModel {
                datas: old(self).sview().datas.push((data.block_id, block_data_model(data))),
                ..old(self).sview()
            });

    fn write_intra_index(&mut self, index: IntraIndex) -> (r: Result<(), ChainError>)
        requires old(self).inv(),
        ensures
            final(self).inv(),
            r is Ok,
            final(self).sview() == (StoreModel {
                intra: old(self).sview().intra.push(
                    (index.block_id, intra_entries_model(index)),
                ),
                ..old(self).sview()
            });

    /// Replace the whole family of materialized maps at once.
    fn update_intra_index(&mut self, indexs: Vec<IntraIndex>) -> (r: Result<(), ChainError>)
        requires old(self).inv(),
        ensures
            final(self).inv(),
            r is Ok,
            final(self).sview() == (StoreModel {
                intra: indexs@.map_values(
                    |x: IntraIndex| (x.block_id, intra_entries_model(x)),
                ),
                ..old(self).sview()
            });

    fn write_transaction(&mut self, tx: Transaction) -> (r: Result<(), ChainError>)
        requires old(self).inv(),
        ensures
            final(self).inv(),
            r is Ok,
            final(self).sview() == (StoreModel {
                txs: old(self).sview().txs.push((tx.id, tx_model(tx))),
                ..old(self).sview()
            });

    fn write_inter_index(&mut self, index: InterIndex) -> (r: Result<(), ChainError>)
        requires old(self).inv(),
        ensures
            final(self).inv(),
            r is Ok,
            final(self).sview() == (StoreModel {
                inter: old(self).sview().inter.push((index.start_timestamp, index)),
                ..old(self).sview()
            });

    fn write_index_config(&mut self, config: IndexConfigs) -> (r: Result<(), ChainError>)
        requires old(self).inv(),
        ensures
            final(self).inv(),
            r is Ok,
            final(self).sview() == (StoreModel {
                configs: old(self).sview().configs.push((config.attribute, config.config@)),
                ..old(self).sview()
            });
}


/// A fresh header with the same model.
pub fn copy_header(h: &BlockHeader) -> (r: BlockHeader)
    ensures header_model(r) == header_model(*h),
{
    BlockHeader {
        block_id: h.block_id,
        pre_hash: Digest(crate::digest::copy_bytes(&h.pre_hash.0)),
        time_stamp: h.time_stamp,
        bmt_root: h.bmt_root.duplicate(),
        rmt_root: Digest(crate::digest::copy_bytes(&h.rmt_root.0)),
    }
}

/// A fresh block data value with the same model.
pub fn copy_block_data(d: &BlockData) -> (r: BlockData)
    ensures block_data_model(r) == block_data_model(*d),
{
    let mut tx_ids: Vec<u64> = Vec::new();
    let mut i: usize = 0;
    while i < d.tx_ids.len()
        invariant
            i <= d.tx_ids@.len(),
            tx_ids@ =~= d.tx_ids@.subrange(0, i as int),
        decreases d.tx_ids@.len() - i,
    {
        tx_ids.push(d.tx_ids[i]);
        i += 1;
        proof {
            assert(tx_ids@ =~= d.tx_ids@.subrange(0, i as int));
        }
    }
    let mut txs: Vec<Transaction> = Vec::new();
    let mut j: usize = 0;
    while j < d.txs.len()
        invariant
            j <= d.txs@.len(),
            txs@.map_values(|t: Transaction| tx_model(t)) =~= d.txs@.subrange(
                0,
                j as int,
            ).map_values(|t: Transaction| tx_model(t)),
        decreases d.txs@.len() - j,
    {
        let ghost pre = txs@.map_values(|t: Transaction| tx_model(t));
        let c = copy_tx(&d.txs[j]);
        let ghost cm = tx_model(c);
        txs.push(c);
        j += 1;
        proof {
            assert(txs@.map_values(|t: Transaction| tx_model(t)) =~= pre.push(cm));
            assert(cm == tx_model(d.txs@[j - 1]));
            assert(txs@.map_values(|t: Transaction| tx_model(t)) =~= d.txs@.subrange(
                0,
                j as int,
            ).map_values(|t: Transaction| tx_model(t)));
        }
    }
    let r = BlockData { block_id: d.block_id, tx_ids, txs };
    proof {
        assert(d.tx_ids@.subrange(0, d.tx_ids@.len() as int) =~= d.tx_ids@);
        assert(d.txs@.subrange(0, d.txs@.len() as int) =~= d.txs@);
        assert(block_data_model(r) == block_data_model(*d));
    }
    r
}

/// A fresh per-attribute map with the same model.
pub fn copy_btree(b: &BTreeEnum) -> (r: BTreeEnum)
    ensures btree_model(r) == btree_model(*b),
{
    match b {
        BTreeEnum::U64(m) => {
            let mut entries: Vec<(u64, Transaction)> = Vec::new();
            let mut i: usize = 0;
            while i < m.entries.len()
                invariant
                    i <= m.entries@.len(),
                    entries@.map_values(|e: (u64, Transaction)| (e.0, tx_model(e.1)))
                        =~= m.entries@.subrange(0, i as int).map_values(
                        |e: (u64, Transaction)| (e.0, tx_model(e.1)),
                    ),
                decreases m.entries@.len() - i,
            {
                let ghost pre = entries@.map_values(
                    |e: (u64, Transaction)| (e.0, tx_model(e.1)),
                );
                let k = m.entries[i].0;
                let c = copy_tx(&m.entries[i].1);
                let ghost cm = tx_model(c);
                entries.push((k, c));
                i += 1;
                proof {
                    assert(entries@.map_values(|e: (u64, Transaction)| (e.0, tx_model(e.1)))
                        =~= pre.push((k, cm)));
                    assert(cm == tx_model(m.entries@[i - 1].1));
                    assert(entries@.map_values(|e: (u64, Transaction)| (e.0, tx_model(e.1)))
                        =~= m.entries@.subrange(0, i as int).map_values(
                        |e: (u64, Transaction)| (e.0, tx_model(e.1)),
                    ));
                }
            }
            proof {
                assert(m.entries@.subrange(0, m.entries@.len() as int) =~= m.entries@);
            }
            BTreeEnum::U64(U64IndexMap { entries })
        },
        BTreeEnum::Text(m) => {
            let mut entries: Vec<(Vec<u8>, Transaction)> = Vec::new();
            let mut i: usize = 0;
            while i < m.entries.len()
                invariant
                    i <= m.entries@.len(),
                    entries@.map_values(|e: (Vec<u8>, Transaction)| (e.0@, tx_model(e.1)))
                        =~= m.entries@.subrange(0, i as int).map_values(
                        |e: (Vec<u8>, Transaction)| (e.0@, tx_model(e.1)),
                    ),
                decreases m.entries@.len() - i,
            {
                let ghost pre = entries@.map_values(
                    |e: (Vec<u8>, Transaction)| (e.0@, tx_model(e.1)),
                );
                let kb = crate::digest::copy_bytes(&m.entries[i].0);
                let ghost kv = kb@;
                let c = copy_tx(&m.entries[i].1);
                let ghost cm = tx_model(c);
                entries.push((kb, c));
                i += 1;
                proof {
                    assert(entries@.map_values(
                        |e: (Vec<u8>, Transaction)| (e.0@, tx_model(e.1)),
                    ) =~= pre.push((kv, cm)));
                    assert(kv == m.entries@[i - 1].0@);
                    assert(cm == tx_model(m.entries@[i - 1].1));
                    assert(entries@.map_values(
                        |e: (Vec<u8>, Transaction)| (e.0@, tx_model(e.1)),
                    ) =~= m.entries@.subrange(0, i as int).map_values(
                        |e: (Vec<u8>, Transaction)| (e.0@, tx_model(e.1)),
                    ));
                }
            }
            proof {
                assert(m.entries@.subrange(0, m.entries@.len() as int) =~= m.entries@);
            }
            BTreeEnum::Text(TextIndexMap { entries })
        },
    }
}

/// A fresh per-block index family with the same model.
pub fn copy_intra(x: &IntraIndex) -> (r: IntraIndex)
    ensures
        r.block_id == x.block_id,
        intra_entries_model(r) == intra_entries_model(*x),
{
    let mut index: Vec<(Attribute, BTreeEnum)> = Vec::new();
    let mut i: usize = 0;
    while i < x.index.len()
        invariant
            i <= x.index@.len(),
            index@.map_values(|e: (Attribute, BTreeEnum)| (e.0, btree_model(e.1)))
                =~= x.index@.subrange(0, i as int).map_values(
                |e: (Attribute, BTreeEnum)| (e.0, btree_model(e.1)),
            ),
        decreases x.index@.len() - i,
    {
        let ghost pre = index@.map_values(|e: (Attribute, BTreeEnum)| (e.0, btree_model(e.1)));
        let a = x.index[i].0;
        let b = copy_btree(&x.index[i].1);
        let ghost bm = btree_model(b);
        index.push((a, b));
        i += 1;
        proof {
            assert(index@.map_values(|e: (Attribute, BTreeEnum)| (e.0, btree_model(e.1)))
                =~= pre.push((a, bm)));
            assert(bm == btree_model(x.index@[i - 1].1));
            assert(index@.map_values(|e: (Attribute, BTreeEnum)| (e.0, btree_model(e.1)))
                =~= x.index@.subrange(0, i as int).map_values(
                |e: (Attribute, BTreeEnum)| (e.0, btree_model(e.1)),
            ));
        }
    }
    proof {
        assert(x.index@.subrange(0, x.index@.len() as int) =~= x.index@);
    }
    IntraIndex { block_id: x.block_id, index }
}

/// The verified in-memory store: association lists, newest entry last.
pub struct MemStore {
    param: Parameter,
    headers: Vec<(u64, BlockHeader)>,
    datas: Vec<(u64, BlockData)>,
    txs: Vec<(u64, Transaction)>,
    inter: Vec<(u64, InterIndex)>,
    intra: Vec<(u64, IntraIndex)>,
    configs: Vec<(Attribute, IndexConfigs)>,
}

impl MemStore {
    /// A fresh store holding only the given parameters.
    pub fn new(param: Parameter) -> (r: MemStore)
        ensures
            r.inv(),
            r.sview() == (StoreModel {
                parameter: parameter_model(param),
                headers: Seq::empty(),
                datas: Seq::empty(),
                txs: Seq::empty(),
                inter: Seq::empty(),
                intra: Seq::empty(),
                configs: Seq::empty(),
            }),
    {
        let r = MemStore {
            param,
            headers: Vec::new(),
            datas: Vec::new(),
            txs: Vec::new(),
            inter: Vec::new(),
            intra: Vec::new(),
            configs: Vec::new(),
        };
        proof {
            assert(r.sview().headers =~= Seq::<(u64, HeaderModel)>::empty());
            assert(r.sview().datas =~= Seq::<(u64, BlockDataModel)>::empty());
            assert(r.sview().txs =~= Seq::<(u64, TxModel)>::empty());
            assert(r.sview().inter =~= Seq::<(u64, InterIndex)>::empty());
            assert(r.sview().intra =~= Seq::<(u64, Seq<(Attribute, BTreeModel)>)>::empty());
            assert(r.sview().configs =~= Seq::<(Attribute, Seq<IndexConfig>)>::empty());
        }
        r
    }
}

impl ReadInterface for MemStore {
    closed spec fn inv(&self) -> bool {
        &&& forall|i: int| 0 <= i < self.datas@.len()
            ==> block_data_wf(block_data_model((#[trigger] self.datas@[i]).1))
        &&& forall|i: int| 0 <= i < self.intra@.len()
            ==> (#[trigger] self.intra@[i]).1.block_id == self.intra@[i].0
    }

    closed spec fn sview(&self) -> StoreModel {
        StoreModel {
            parameter: parameter_model(self.param),
            headers: self.headers@.map_values(
                |e: (u64, BlockHeader)| (e.0, header_model(e.1)),
            ),
            datas: self.datas@.map_values(
                |e: (u64, BlockData)| (e.0, block_data_model(e.1)),
            ),
            txs: self.txs@.map_values(|e: (u64, Transaction)| (e.0, tx_model(e.1))),
            inter: self.inter@.map_values(|e: (u64, InterIndex)| e),
            intra: self.intra@.map_values(
                |e: (u64, IntraIndex)| (e.0, intra_entries_model(e.1)),
            ),
            configs: self.configs@.map_values(
                |e: (Attribute, IndexConfigs)| (e.0, e.1.config@),
            ),
        }
    }

    fn get_parameter(&self) -> (r: Result<Parameter, ChainError>) {
        Ok(copy_parameter(&self.param))
    }

    fn read_block_header(&self, id: u64) -> (r: Result<BlockHeader, ChainError>) {
        let ghost model = self.sview().headers;
        let mut i: usize = self.headers.len();
        proof {
            assert(model.take(i as int) =~= model);
        }
        while i > 0
            invariant
                i <= self.headers@.len(),
                model == self.sview().headers,
                assoc_get(model, id) == assoc_get(model.take(i as int), id),
            decreases i,
        {
            i -= 1;
            proof {
                let pre = model.take(i + 1);
                assert(pre.last() == model[i as int]);
                assert(pre.drop_last() =~= model.take(i as int));
                assert(model[i as int].0 == self.headers@[i as int].0);
            }
            if self.headers[i].0 == id {
                proof {
                    assert(assoc_get(model, id) == Some(model[i as int].1));
                    assert(model[i as int].1 == header_model(self.headers@[i as int].1));
                }
                return Ok(copy_header(&self.headers[i].1));
            }
        }
        proof {
            assert(model.take(0) =~= Seq::<(u64, HeaderModel)>::empty());
        }
        Err(ChainError::StorageUnavailable)
    }

    fn read_block_data(&self, id: u64) -> (r: Result<BlockData, ChainError>) {
        let ghost model = self.sview().datas;
        let mut i: usize = self.datas.len();
        proof {
            assert(model.take(i as int) =~= model);
        }
        while i > 0
            invariant
                i <= self.datas@.len(),
                self.inv(),
                model == self.sview().datas,
                assoc_get(model, id) == assoc_get(model.take(i as int), id),
            decreases i,
        {
            i -= 1;
            proof {
                let pre = model.take(i + 1);
                assert(pre.last() == model[i as int]);
                assert(pre.drop_last() =~= model.take(i as int));
                assert(model[i as int].0 == self.datas@[i as int].0);
            }
            if self.datas[i].0 == id {
                proof {
                    assert(assoc_get(model, id) == Some(model[i as int].1));
                    assert(model[i as int].1 == block_data_model(self.datas@[i as int].1));
                }
                return Ok(copy_block_data(&self.datas[i].1));
            }
        }
        proof {
            assert(model.take(0) =~= Seq::<(u64, BlockDataModel)>::empty());
        }
        Err(ChainError::StorageUnavailable)
    }

    fn read_intra_index(&self, id: u64) -> (r: Result<IntraIndex, ChainError>) {
        let ghost model = self.sview().intra;
        let mut i: usize = self.intra.len();
        proof {
            assert(model.take(i as int) =~= model);
        }
        while i > 0
            invariant
                i <= self.intra@.len(),
                self.inv(),
                model == self.sview().intra,
                assoc_get(model, id) == assoc_get(model.take(i as int), id),
            decreases i,
        {
            i -= 1;
            proof {
                let pre = model.take(i + 1);
                assert(pre.last() == model[i as int]);
                assert(pre.drop_last() =~= model.take(i as int));
                assert(model[i as int].0 == self.intra@[i as int].0);
            }
            if self.intra[i].0 == id {
                proof {
                    assert(assoc_get(model, id) == Some(model[i as int].1));
                    assert(model[i as int].1 == intra_entries_model(self.intra@[i as int].1));
                    assert(self.intra@[i as int].1.block_id == id);
                }
                return Ok(copy_intra(&self.intra[i].1));
            }
        }
        proof {
            assert(model.take(0) =~= Seq::<(u64, Seq<(Attribute, BTreeModel)>)>::empty());
        }
        let empty = IntraIndex { block_id: id, index: Vec::new() };
        proof {
            assert(intra_entries_model(empty) =~= Seq::<(Attribute, BTreeModel)>::empty());
        }
        Ok(empty)
    }

    fn read_transaction(&self, id: u64) -> (r: Result<Transaction, ChainError>) {
        let ghost model = self.sview().txs;
        let mut i: usize = self.txs.len();
        proof {
            assert(model.take(i as int) =~= model);
        }
        while i > 0
            invariant
                i <= self.txs@.len(),
                model == self.sview().txs,
                assoc_get(model, id) == assoc_get(model.take(i as int), id),
            decreases i,
        {
            i -= 1;
            proof {
                let pre = model.take(i + 1);
                assert(pre.last() == model[i as int]);
                assert(pre.drop_last() =~= model.take(i as int));
                assert(model[i as int].0 == self.txs@[i as int].0);
            }
            if self.txs[i].0 == id {
                proof {
                    assert(assoc_get(model, id) == Some(model[i as int].1));
                    assert(model[i as int].1 == tx_model(self.txs@[i as int].1));
                }
                return Ok(copy_tx(&self.txs[i].1));
            }
        }
        proof {
            assert(model.take(0) =~= Seq::<(u64, TxModel)>::empty());
        }
        Err(ChainError::StorageUnavailable)
    }

    fn read_inter_index(&self, timestamp: u64) -> (r: Result<InterIndex, ChainError>) {
        let ghost model = self.sview().inter;
        let mut i: usize = self.inter.len();
        proof {
            assert(model.take(i as int) =~= model);
        }
        while i > 0
            invariant
                i <= self.inter@.len(),
                model == self.sview().inter,
                assoc_get(model, timestamp) == assoc_get(model.take(i as int), timestamp),
            decreases i,
        {
            i -= 1;
            proof {
                let pre = model.take(i + 1);
                assert(pre.last() == model[i as int]);
                assert(pre.drop_last() =~= model.take(i as int));
                assert(model[i as int] == self.inter@[i as int]);
            }
            if self.inter[i].0 == timestamp {
                return Ok(self.inter[i].1);
            }
        }
        proof {
            assert(model.take(0) =~= Seq::<(u64, InterIndex)>::empty());
        }
        Err(ChainError::StorageUnavailable)
    }

    fn read_inter_indexs(&self) -> (r: Result<Vec<InterIndex>, ChainError>) {
        let mut out: Vec<InterIndex> = Vec::new();
        let mut i: usize = 0;
        while i < self.param.inter_index_timestamps.len()
            invariant
                i <= self.param.inter_index_timestamps@.len(),
                self.inv(),
                self.sview().parameter.inter_index_timestamps
                    == self.param.inter_index_timestamps@,
                out@.len() == i,
                forall|j: int| 0 <= j < i ==> Some(#[trigger] out@[j]) == assoc_get(
                    self.sview().inter,
                    self.sview().parameter.inter_index_timestamps[j],
                ),
            decreases self.param.inter_index_timestamps@.len() - i,
        {
            let ts = self.param.inter_index_timestamps[i];
            match self.read_inter_index(ts) {
                Ok(s) => {
                    out.push(s);
                },
                Err(_) => {
                    proof {
                        assert(assoc_get(
                            self.sview().inter,
                            self.sview().parameter.inter_index_timestamps[i as int],
                        ) is None);
                    }
                    return Err(ChainError::StorageUnavailable);
                },
            }
            i += 1;
        }
        proof {
            assert forall|q: int| 0 <= q < self.sview().parameter.inter_index_timestamps.len()
                implies assoc_get(
                self.sview().inter,
                #[trigger] self.sview().parameter.inter_index_timestamps[q],
            ) is Some by {
                assert(Some(out@[q]) == assoc_get(
                    self.sview().inter,
                    self.sview().parameter.inter_index_timestamps[q],
                ));
            }
        }
        Ok(out)
    }

    fn read_index_config(&self, attribute: Attribute) -> (r: Result<IndexConfigs, ChainError>) {
        let ghost model = self.sview().configs;
        let mut i: usize = self.configs.len();
        proof {
            assert(model.take(i as int) =~= model);
        }
        while i > 0
            invariant
                i <= self.configs@.len(),
                model == self.sview().configs,
                assoc_get(model, attribute) == assoc_get(model.take(i as int), attribute),
            decreases i,
        {
            i -= 1;
            proof {
                let pre = model.take(i + 1);
                assert(pre.last() == model[i as int]);
                assert(pre.drop_last() =~= model.take(i as int));
                assert(model[i as int].0 == self.configs@[i as int].0);
            }
            if attribute_eq(self.configs[i].0, attribute) {
                let src = &self.configs[i].1;
                let mut config: Vec<IndexConfig> = Vec::new();
                let mut j: usize = 0;
                while j < src.config.len()
                    invariant
                        j <= src.config@.len(),
                        config@ =~= src.config@.subrange(0, j as int),
                    decreases src.config@.len() - j,
                {
                    config.push(src.config[j]);
                    j += 1;
                    proof {
                        assert(config@ =~= src.config@.subrange(0, j as int));
                    }
                }
                proof {
                    assert(config@ =~= src.config@);
                    assert(assoc_get(model, attribute) == Some(model[i as int].1));
                }
                return Ok(IndexConfigs { attribute, config });
            }
        }
        proof {
            assert(model.take(0) =~= Seq::<(Attribute, Seq<IndexConfig>)>::empty());
        }
        Err(ChainError::StorageUnavailable)
    }
}

/// Compare two attributes.
pub fn attribute_eq(a: Attribute, b: Attribute) -> (r: bool)
    ensures r == (a == b),
{
    match (a, b) {
        (Attribute::Id, Attribute::Id) => true,
        (Attribute::Address, Attribute::Address) => true,
        (Attribute::Value, Attribute::Value) => true,
        (Attribute::Timestamp, Attribute::Timestamp) => true,
        _ => false,
    }
}

impl WriteInterface for MemStore {
    fn set_parameter(&mut self, param: Parameter) -> (r: Result<(), ChainError>) {
        self.param = param;
        Ok(())
    }

    fn write_block_header(&mut self, header: BlockHeader) -> (r: Result<(), ChainError>) {
        let ghost pre = self.sview().headers;
        let ghost hm = header_model(header);
        let id = header.block_id;
        self.headers.push((id, header));
        proof {
            assert(self.sview().headers =~= pre.push((id, hm)));
        }
        Ok(())
    }

    fn write_block_data(&mut self, data: BlockData) -> (r: Result<(), ChainError>) {
        let ghost pre = self.sview().datas;
        let ghost dm = block_data_model(data);
        let id = data.block_id;
        self.datas.push((id, data));
        proof {
            assert(self.sview().datas =~= pre.push((id, dm)));
        }
        Ok(())
    }

    fn write_intra_index(&mut self, index: IntraIndex) -> (r: Result<(), ChainError>) {
        let ghost pre = self.sview().intra;
        let ghost im = intra_entries_model(index);
        let id = index.block_id;
        self.intra.push((id, index));
        proof {
            assert(self.sview().intra =~= pre.push((id, im)));
        }
        Ok(())
    }

    fn update_intra_index(&mut self, indexs: Vec<IntraIndex>) -> (r: Result<(), ChainError>) {
        let mut fresh: Vec<(u64, IntraIndex)> = Vec::new();
        let mut i: usize = 0;
        while i < indexs.len()
            invariant
                i <= indexs@.len(),
                fresh@.map_values(|e: (u64, IntraIndex)| (e.0, intra_entries_model(e.1)))
                    =~= indexs@.subrange(0, i as int).map_values(
                    |x: IntraIndex| (x.block_id, intra_entries_model(x)),
                ),
                forall|j: int| 0 <= j < fresh@.len()
                    ==> (#[trigger] fresh@[j]).1.block_id == fresh@[j].0,
            decreases indexs@.len() - i,
        {
            let ghost pre = fresh@.map_values(
                |e: (u64, IntraIndex)| (e.0, intra_entries_model(e.1)),
            );
            let x = copy_intra(&indexs[i]);
            let ghost xm = intra_entries_model(x);
            let xid = x.block_id;
            fresh.push((xid, x));
            i += 1;
            proof {
                assert(fresh@.map_values(|e: (u64, IntraIndex)| (e.0, intra_entries_model(e.1)))
                    =~= pre.push((xid, xm)));
                assert(xm == intra_entries_model(indexs@[i - 1]));
                assert(xid == indexs@[i - 1].block_id);
                assert(fresh@.map_values(|e: (u64, IntraIndex)| (e.0, intra_entries_model(e.1)))
                    =~= indexs@.subrange(0, i as int).map_values(
                    |x: IntraIndex| (x.block_id, intra_entries_model(x)),
                ));
            }
        }
        self.intra = fresh;
        proof {
            assert(indexs@.subrange(0, indexs@.len() as int) =~= indexs@);
            assert(self.sview().intra =~= indexs@.map_values(
                |x: IntraIndex| (x.block_id, intra_entries_model(x)),
            ));
        }
        Ok(())
    }

    fn write_transaction(&mut self, tx: Transaction) -> (r: Result<(), ChainError>) {
        let ghost pre = self.sview().txs;
        let ghost tm = tx_model(tx);
        let id = tx.id;
        self.txs.push((id, tx));
        proof {
            assert(self.sview().txs =~= pre.push((id, tm)));
        }
        Ok(())
    }

    fn write_inter_index(&mut self, index: InterIndex) -> (r: Result<(), ChainError>) {
        let ghost pre = self.sview().inter;
        self.inter.push((index.start_timestamp, index));
        proof {
            assert(self.sview().inter =~= pre.push((index.start_timestamp, index)));
        }
        Ok(())
    }

    fn write_index_config(&mut self, config: IndexConfigs) -> (r: Result<(), ChainError>) {
        let ghost pre = self.sview().configs;
        let attr = config.attribute;
        let ghost cm = config.config@;
        self.configs.push((attr, config));
        proof {
            assert(self.sview().configs =~= pre.push((attr, cm)));
        }
        Ok(())
    }
}

} // verus!
