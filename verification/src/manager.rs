//! Ingest and reconciliation: building blocks and their header filters,
//! materializing per-block maps, fitting the learned index, and the
//! periodic run that reshapes the materialized set to the bandit's
//! choice.

use vstd::prelude::*;
use crate::block::{Attribute, BlockData, BlockHeader, IndexConfig, InterIndex, Parameter,
    Transaction, block_data_model, block_data_wf, tx_model};
use crate::bloom::{BloomFilter, SeededBloomFilter};
use crate::bandit::{IndexSelectionBandit, BANDIT_BUDGET, BANDIT_TEMPERATURE_MILLI,
    convert_to_normalized_matrix, holt_linear_exponential_smoothing};
use crate::digest::Digest;
use crate::errors::ChainError;
use crate::intra::{BTreeEnum, IntraIndex, create_btree};
use crate::query::{QueryCounters, header_covers, store_intra_consistent, intra_ok_for};
use crate::store::{ReadInterface, WriteInterface, StoreModel, assoc_get, attribute_eq,
    intra_entries_model};

verus! {

/// Capacity of the block-level header filter.
pub const HEADER_BLOOM_CAPACITY: usize = 50000;

/// Numerator of the header filter's false-positive rate.
pub const HEADER_BLOOM_FP_NUM: u64 = 1;

/// Denominator of the header filter's false-positive rate: one in a
/// hundred.
pub const HEADER_BLOOM_FP_DEN: u64 = 100;

#[verifier::external_type_specification]
#[verifier::external_body]
pub struct ExInstant(std::time::Instant);

/// Relies on std::time::Instant::now: a point in time; nothing is
/// promised of a clock reading.
#[verifier::external_body]
fn now_instant() -> std::time::Instant {
    std::time::Instant::now()
}

/// Relies on std::time::Instant::elapsed: the time since the reading,
/// converted to microseconds; nothing is promised of a clock reading.
#[verifier::external_body]
fn instant_elapsed_micros(t: &std::time::Instant) -> u64 {
    let us = t.elapsed().as_micros();
    if us > u64::MAX as u128 {
        u64::MAX
    } else {
        us as u64
    }
}

/// The candidate lists gathered while building, keyed by attribute.
#[allow(non_camel_case_types)]
pub struct IndexConfigs_map(pub Vec<(Attribute, Vec<IndexConfig>)>);

impl IndexConfigs_map {
    /// An empty gathering.
    pub fn new() -> (r: IndexConfigs_map)
        ensures r.0@.len() == 0,
    {
        IndexConfigs_map(Vec::new())
    }

    /// File one candidate under its attribute.
    pub fn add_config(&mut self, key: Attribute, config: IndexConfig)
    {
        let mut i: usize = 0;
        while i < self.0.len()
            decreases self.0@.len() - i,
        {
            if attribute_eq(self.0[i].0, key) {
                let mut entry = self.0.remove(i);
                entry.1.push(config);
                self.0.push(entry);
                return;
            }
            i += 1;
        }
        let mut fresh: Vec<IndexConfig> = Vec::new();
        fresh.push(config);
        self.0.push((key, fresh));
    }
}

/// How many entries a map model holds.
pub open spec fn btree_entry_count(b: crate::store::BTreeModel) -> nat {
    match b {
        crate::store::BTreeModel::U64(es) => es.len(),
        crate::store::BTreeModel::Text(es) => es.len(),
    }
}

/// How many entries a map holds: the distinct keys of its block under
/// its attribute.
pub fn btree_len(b: &BTreeEnum) -> (r: usize)
    ensures r == btree_entry_count(crate::store::btree_model(*b)),
{
    match b {
        BTreeEnum::U64(m) => m.entries.len(),
        BTreeEnum::Text(m) => m.entries.len(),
    }
}

/// Build one attribute's map and measure it: the map, its build cost
/// in micro-units (a hundred per distinct key plus the measured read
/// time), its distinct-key count, and the block's transaction count.
pub fn create_btree_with_evaluation(
    attribute: Attribute,
    block_data: &BlockData,
    duration_micros: u64,
) -> (r: Result<(BTreeEnum, u64, u64, u64), ChainError>)
    requires block_data.tx_ids@.len() == block_data.txs@.len(),
    ensures
        r is Ok <==> attribute != Attribute::Timestamp,
        match r {
            Ok((b, cost, unique, total)) => {
                &&& crate::intra::btree_matches_block(b, *block_data, attribute)
                &&& unique == btree_entry_count(crate::store::btree_model(b))
                &&& total == block_data.txs@.len()
                &&& cost as int == (if 100 * unique + duration_micros > u64::MAX {
                    u64::MAX as int
                } else {
                    100 * unique + duration_micros
                })
            },
            Err(e) => e == ChainError::UnknownAttribute,
        },
{
    let b = match create_btree(attribute, block_data) {
        Ok(b) => b,
        Err(e) => {
            return Err(e);
        },
    };
    let unique = btree_len(&b) as u64;
    let total = block_data.txs.len() as u64;
    let scaled: u128 = 100u128 * (unique as u128) + duration_micros as u128;
    let cost: u64 = if scaled > u64::MAX as u128 {
        u64::MAX
    } else {
        scaled as u64
    };
    Ok((b, cost, unique, total))
}

/// Build the maps of one block for the given attributes, filing a
/// measured candidate for each; the built family belongs to the block.
pub fn index_build_block<T: ReadInterface>(
    attributes: &Vec<Attribute>,
    height: u64,
    chain: &T,
    configs_map: &mut IndexConfigs_map,
) -> (r: Result<IntraIndex, ChainError>)
    requires
        chain.inv(),
        forall|j: int| 0 <= j < attributes@.len() ==> #[trigger] attributes@[j]
            != Attribute::Timestamp,
    ensures
        r is Ok <==> assoc_get(chain.sview().datas, height) is Some,
        match r {
            Ok(x) => {
                &&& x.block_id == height
                &&& assoc_get(chain.sview().datas, height) is Some
                &&& intra_ok_for(
                    intra_entries_model(x),
                    assoc_get(chain.sview().datas, height)->0.txs,
                )
                &&& intra_entries_model(x).len() == attributes@.len()
                &&& forall|e: int| 0 <= e < attributes@.len()
                    ==> (#[trigger] intra_entries_model(x)[e]).0 == attributes@[e]
            },
            Err(e) => e == ChainError::StorageUnavailable,
        },
{
    let timer = now_instant();
    let block_data = match chain.read_block_data(height) {
        Ok(d) => d,
        Err(_) => {
            return Err(ChainError::StorageUnavailable);
        },
    };
    let duration = instant_elapsed_micros(&timer);
    let mut index: Vec<(Attribute, BTreeEnum)> = Vec::new();
    let mut i: usize = 0;
    while i < attributes.len()
        invariant
            i <= attributes@.len(),
            forall|j: int| 0 <= j < attributes@.len() ==> #[trigger] attributes@[j]
                != Attribute::Timestamp,
            block_data.tx_ids@.len() == block_data.txs@.len(),
            Some(block_data_model(block_data)) == assoc_get(chain.sview().datas, height),
            index@.len() == i,
            forall|e: int| 0 <= e < index@.len() ==> (#[trigger] index@[e]).0
                == attributes@[e],
            forall|e: int| 0 <= e < index@.len() ==> crate::intra::btree_model_matches(
                crate::store::btree_model((#[trigger] index@[e]).1),
                block_data.txs@.map_values(|t: Transaction| tx_model(t)),
                index@[e].0,
            ),
        decreases attributes@.len() - i,
    {
        let a = attributes[i];
        let (b, cost, unique, total) = match create_btree_with_evaluation(
            a,
            &block_data,
            duration,
        ) {
            Ok(v) => v,
            Err(_) => {
                proof {
                    assert(false);
                }
                return Err(ChainError::StorageUnavailable);
            },
        };
        let encoded = crate::codec::encode_btree(&b);
        let storage_cost = encoded.len() as u64;
        configs_map.add_config(
            a,
            IndexConfig { performance: cost, storage_cost, block_height: height, attribute: a },
        );
        index.push((a, b));
        i += 1;
    }
    let x = IntraIndex { block_id: height, index };
    proof {
        assert forall|e: int| 0 <= e < intra_entries_model(x).len()
            implies crate::intra::btree_model_matches(
            (#[trigger] intra_entries_model(x)[e]).1,
            assoc_get(chain.sview().datas, height)->0.txs,
            intra_entries_model(x)[e].0,
        ) by {
            assert(intra_entries_model(x)[e].1 == crate::store::btree_model(x.index@[e].1));
            assert(assoc_get(chain.sview().datas, height)->0.txs == block_data.txs@.map_values(
                |t: Transaction| tx_model(t),
            ));
        }
    }
    Ok(x)
}

/// Whether the configuration set names this attribute for this block.
/// Whether the configuration set names the block at all.
pub open spec fn named_height(cs: Seq<IndexConfig>, id: u64) -> bool {
    exists|c: int| 0 <= c < cs.len() && (#[trigger] cs[c]).block_height == id
}

pub open spec fn attr_required(configs: Seq<IndexConfig>, h: u64, a: Attribute) -> bool {
    a != Attribute::Timestamp && exists|j: int| 0 <= j < configs.len()
        && (#[trigger] configs[j]).block_height == h && configs[j].attribute == a
}

/// Whether an attribute list holds the attribute.
pub open spec fn in_list(s: Seq<Attribute>, a: Attribute) -> bool {
    exists|q: int| 0 <= q < s.len() && s[q] == a
}

/// Whether a family model carries an entry under the attribute.
pub open spec fn family_has_attr(
    fam: Seq<(Attribute, crate::store::BTreeModel)>,
    a: Attribute,
) -> bool {
    exists|e: int| 0 <= e < fam.len() && (#[trigger] fam[e]).0 == a
}

/// Build and persist the maps of several blocks.
pub fn index_build<T: ReadInterface + WriteInterface>(
    attributes: &Vec<Attribute>,
    heights: &Vec<u64>,
    chain: &mut T,
) -> (r: Result<(), ChainError>)
    requires
        old(chain).inv(),
        store_intra_consistent(old(chain).sview()),
        forall|j: int| 0 <= j < attributes@.len() ==> #[trigger] attributes@[j]
            != Attribute::Timestamp,
    ensures
        final(chain).inv(),
        store_intra_consistent(final(chain).sview()),
        final(chain).sview().headers == old(chain).sview().headers,
        final(chain).sview().datas == old(chain).sview().datas,
        final(chain).sview().parameter == old(chain).sview().parameter,
        final(chain).sview().inter == old(chain).sview().inter,
        final(chain).sview().txs == old(chain).sview().txs,
        r is Ok,
        forall|hh: int| #![trigger heights@[hh]] 0 <= hh < heights@.len() ==> (
        match assoc_get(old(chain).sview().datas, heights@[hh]) {
            Some(dm) => (match assoc_get(final(chain).sview().intra, heights@[hh]) {
                Some(fam) => fam.len() == attributes@.len() && (forall|e: int|
                    0 <= e < fam.len() ==> (#[trigger] fam[e]).0 == attributes@[e]),
                None => false,
            }),
            None => true,
        }),
{
    let mut i: usize = 0;
    while i < heights.len()
        invariant
            i <= heights@.len(),
            chain.inv(),
            store_intra_consistent(chain.sview()),
            forall|j: int| 0 <= j < attributes@.len() ==> #[trigger] attributes@[j]
                != Attribute::Timestamp,
            chain.sview().headers == old(chain).sview().headers,
            chain.sview().datas == old(chain).sview().datas,
            chain.sview().parameter == old(chain).sview().parameter,
            chain.sview().inter == old(chain).sview().inter,
            chain.sview().txs == old(chain).sview().txs,
            forall|hh: int| #![trigger heights@[hh]] 0 <= hh < i ==> (
            match assoc_get(old(chain).sview().datas, heights@[hh]) {
                Some(dm) => (match assoc_get(chain.sview().intra, heights@[hh]) {
                    Some(fam) => fam.len() == attributes@.len() && (forall|e: int|
                        0 <= e < fam.len() ==> (#[trigger] fam[e]).0 == attributes@[e]),
                    None => false,
                }),
                None => true,
            }),
        decreases heights@.len() - i,
    {
        let mut sink = IndexConfigs_map::new();
        let height = heights[i];
        match index_build_block(attributes, height, chain, &mut sink) {
            Ok(x) => {
                let ghost pre = chain.sview();
                let ghost xm = intra_entries_model(x);
                let ghost xid = x.block_id;
                let _ = chain.write_intra_index(x);
                proof {
                    lemma_consistency_after_intra_push(pre, xid, xm);
                    assert(chain.sview().intra =~= pre.intra.push((xid, xm)));
                    assert forall|hh: int| #![trigger heights@[hh]] 0 <= hh < i + 1 implies (
                    match assoc_get(old(chain).sview().datas, heights@[hh]) {
                        Some(dm) => (match assoc_get(chain.sview().intra, heights@[hh]) {
                            Some(fam) => fam.len() == attributes@.len() && (forall|e: int|
                                0 <= e < fam.len() ==> (#[trigger] fam[e]).0
                                    == attributes@[e]),
                            None => false,
                        }),
                        None => true,
                    }) by {
                        if heights@[hh] == xid {
                            assert(chain.sview().intra.last() == (xid, xm));
                        } else {
                            lemma_assoc_get_skip_last(pre.intra, (xid, xm), heights@[hh]);
                        }
                    }
                }
            },
            Err(_) => {
                // The block has no stored data; there is nothing to
                // build and nothing was promised for it.
            },
        }
        i += 1;
    }
    Ok(())
}

/// Pushing a family that belongs to its stored block keeps the store
/// consistent.
proof fn lemma_consistency_after_intra_push(
    pre: StoreModel,
    id: u64,
    maps: Seq<(Attribute, crate::store::BTreeModel)>,
)
    requires
        store_intra_consistent(pre),
        assoc_get(pre.datas, id) is Some,
        intra_ok_for(maps, assoc_get(pre.datas, id)->0.txs),
    ensures
        store_intra_consistent(
            StoreModel { intra: pre.intra.push((id, maps)), ..pre },
        ),
{
    let post = StoreModel { intra: pre.intra.push((id, maps)), ..pre };
    assert forall|i: int| 0 <= i < post.intra.len() implies (match assoc_get(
        post.datas,
        (#[trigger] post.intra[i]).0,
    ) {
        Some(dm) => intra_ok_for(post.intra[i].1, dm.txs),
        None => post.intra[i].1.len() == 0,
    }) by {
        if i < pre.intra.len() {
            assert(post.intra[i] == pre.intra[i]);
        } else {
            assert(post.intra[i] == (id, maps));
        }
    }
}

/// Reconcile the materialized maps with a chosen configuration set:
/// for every block the set names, rebuild exactly the named attributes
/// from the block's stored data.  A block that cannot be read is
/// skipped; every family written belongs to its block.
pub fn update_indices_based_on_config<T: ReadInterface + WriteInterface>(
    configs: &Vec<IndexConfig>,
    chain: &mut T,
) -> (r: Result<(), ChainError>)
    requires
        old(chain).inv(),
        store_intra_consistent(old(chain).sview()),
    ensures
        final(chain).inv(),
        store_intra_consistent(final(chain).sview()),
        final(chain).sview().headers == old(chain).sview().headers,
        final(chain).sview().datas == old(chain).sview().datas,
        final(chain).sview().parameter == old(chain).sview().parameter,
        final(chain).sview().inter == old(chain).sview().inter,
        final(chain).sview().txs == old(chain).sview().txs,
        r is Ok,
        forall|id: u64| !named_height(configs@, id) ==> assoc_get(
            final(chain).sview().intra,
            id,
        ) == assoc_get(old(chain).sview().intra, id),
        forall|c: int| #![trigger configs@[c]] 0 <= c < configs@.len() ==> (
        match assoc_get(old(chain).sview().datas, configs@[c].block_height) {
            Some(dm) => (match assoc_get(
                final(chain).sview().intra,
                configs@[c].block_height,
            ) {
                Some(fam) => forall|a: Attribute| family_has_attr(fam, a)
                    <==> attr_required(configs@, configs@[c].block_height, a),
                None => false,
            }),
            None => true,
        }),
{
    let mut i: usize = 0;
    while i < configs.len()
        invariant
            i <= configs@.len(),
            chain.inv(),
            store_intra_consistent(chain.sview()),
            chain.sview().headers == old(chain).sview().headers,
            chain.sview().datas == old(chain).sview().datas,
            chain.sview().parameter == old(chain).sview().parameter,
            chain.sview().inter == old(chain).sview().inter,
            chain.sview().txs == old(chain).sview().txs,
            forall|id: u64| !named_height(configs@, id) ==> assoc_get(
                chain.sview().intra,
                id,
            ) == assoc_get(old(chain).sview().intra, id),
            forall|c: int| #![trigger configs@[c]] 0 <= c < i ==> (
            match assoc_get(old(chain).sview().datas, configs@[c].block_height) {
                Some(dm) => (match assoc_get(chain.sview().intra, configs@[c].block_height) {
                    Some(fam) => forall|a: Attribute| family_has_attr(fam, a)
                        <==> attr_required(configs@, configs@[c].block_height, a),
                    None => false,
                }),
                None => true,
            }),
        decreases configs@.len() - i,
    {
        let height = configs[i].block_height;
        // Collect every attribute this set requires of the block.
        let mut attrs: Vec<Attribute> = Vec::new();
        let mut j: usize = 0;
        while j < configs.len()
            invariant
                j <= configs@.len(),
                forall|q: int| 0 <= q < attrs@.len() ==> #[trigger] attrs@[q]
                    != Attribute::Timestamp,
                forall|a: Attribute| in_list(attrs@, a) <==> (a != Attribute::Timestamp
                    && exists|p: int| 0 <= p < j && (#[trigger] configs@[p]).block_height
                    == height && configs@[p].attribute == a),
            decreases configs@.len() - j,
        {
            let c = &configs[j];
            let ghost pre_attrs = attrs@;
            if c.block_height == height && !attribute_eq(c.attribute, Attribute::Timestamp) {
                if !attrs_contains(&attrs, c.attribute) {
                    attrs.push(c.attribute);
                }
            }
            j += 1;
            proof {
                assert forall|a: Attribute| in_list(attrs@, a) <==> (
                a != Attribute::Timestamp && exists|p: int| 0 <= p < j
                    && (#[trigger] configs@[p]).block_height == height
                    && configs@[p].attribute == a) by {
                    if in_list(attrs@, a) {
                        let q = choose|q: int| 0 <= q < attrs@.len() && attrs@[q] == a;
                        if q < pre_attrs.len() {
                            assert(in_list(pre_attrs, a));
                        } else {
                            assert(attrs@[q] == configs@[j - 1].attribute);
                            assert(configs@[j - 1].block_height == height);
                        }
                    }
                    if a != Attribute::Timestamp && exists|p: int| 0 <= p < j
                        && (#[trigger] configs@[p]).block_height == height
                        && configs@[p].attribute == a {
                        let p = choose|p: int| 0 <= p < j && (
                        #[trigger] configs@[p]).block_height == height
                            && configs@[p].attribute == a;
                        if p < j - 1 {
                            assert(in_list(pre_attrs, a));
                            let q = choose|q: int| 0 <= q < pre_attrs.len()
                                && pre_attrs[q] == a;
                            assert(attrs@[q] == a);
                        } else {
                            if in_list(pre_attrs, a) {
                                let q = choose|q: int| 0 <= q < pre_attrs.len()
                                    && pre_attrs[q] == a;
                                assert(attrs@[q] == a);
                            } else {
                                assert(attrs@[attrs@.len() - 1] == a);
                            }
                        }
                    }
                }
            }
        }
        let mut sink = IndexConfigs_map::new();
        match index_build_block(&attrs, height, chain, &mut sink) {
            Ok(x) => {
                let ghost pre = chain.sview();
                let ghost xm = intra_entries_model(x);
                let ghost xid = x.block_id;
                let _ = chain.write_intra_index(x);
                proof {
                    lemma_consistency_after_intra_push(pre, xid, xm);
                    assert(chain.sview().intra =~= pre.intra.push((xid, xm)));
                    assert forall|id: u64| !named_height(configs@, id) implies assoc_get(
                        chain.sview().intra,
                        id,
                    ) == assoc_get(old(chain).sview().intra, id) by {
                        assert(configs@[i as int].block_height == xid);
                        assert(id != xid);
                        lemma_assoc_get_skip_last(pre.intra, (xid, xm), id);
                    }
                    assert forall|a: Attribute| family_has_attr(xm, a) <==> attr_required(
                        configs@,
                        height,
                        a,
                    ) by {
                        if family_has_attr(xm, a) {
                            let e = choose|e: int| 0 <= e < xm.len() && xm[e].0 == a;
                            assert(xm[e].0 == attrs@[e]);
                            assert(in_list(attrs@, a));
                        }
                        if attr_required(configs@, height, a) {
                            assert(in_list(attrs@, a));
                            let q = choose|q: int| 0 <= q < attrs@.len() && attrs@[q] == a;
                            assert(xm[q].0 == a);
                            assert(family_has_attr(xm, a));
                        }
                    }
                    assert forall|c: int| #![trigger configs@[c]] 0 <= c < i + 1 implies (
                    match assoc_get(old(chain).sview().datas, configs@[c].block_height) {
                        Some(dm) => (match assoc_get(
                            chain.sview().intra,
                            configs@[c].block_height,
                        ) {
                            Some(fam) => forall|a: Attribute| family_has_attr(fam, a)
                                <==> attr_required(configs@, configs@[c].block_height, a),
                            None => false,
                        }),
                        None => true,
                    }) by {
                        if configs@[c].block_height == xid {
                            assert(chain.sview().intra.last() == (xid, xm));
                        } else {
                            lemma_assoc_get_skip_last(
                                pre.intra,
                                (xid, xm),
                                configs@[c].block_height,
                            );
                        }
                    }
                }
            },
            Err(_) => {
                // The block has no stored data; nothing was promised
                // for it, and the rest are still reconciled.
            },
        }
        i += 1;
    }
    Ok(())
}

/// Whether the list holds the attribute.
fn attrs_contains(attrs: &Vec<Attribute>, a: Attribute) -> (r: bool)
    ensures r == in_list(attrs@, a),
{
    let mut q: usize = 0;
    while q < attrs.len()
        invariant
            q <= attrs@.len(),
            forall|w: int| 0 <= w < q ==> attrs@[w] != a,
        decreases attrs@.len() - q,
    {
        if attribute_eq(attrs[q], a) {
            return true;
        }
        q += 1;
    }
    proof {
        if in_list(attrs@, a) {
            let w = choose|w: int| 0 <= w < attrs@.len() && attrs@[w] == a;
        }
    }
    false
}

/// Turn the epoch-by-block share matrix into one row per block, so the
/// forecast runs over each block's history.
fn transpose_matrix(m: &Vec<Vec<u64>>, width: usize) -> (r: Vec<Vec<u64>>)
    requires
        forall|i: int| 0 <= i < m@.len() ==> (#[trigger] m@[i])@.len() == width,
    ensures r@.len() == width,
{
    let mut out: Vec<Vec<u64>> = Vec::new();
    let mut j: usize = 0;
    while j < width
        invariant
            j <= width,
            out@.len() == j,
            forall|i: int| 0 <= i < m@.len() ==> (#[trigger] m@[i])@.len() == width,
        decreases width - j,
    {
        let mut row: Vec<u64> = Vec::new();
        let mut i: usize = 0;
        while i < m.len()
            invariant
                i <= m@.len(),
                j < width,
                forall|q: int| 0 <= q < m@.len() ==> (#[trigger] m@[q])@.len() == width,
            decreases m@.len() - i,
        {
            row.push(m[i][j]);
            i += 1;
        }
        out.push(row);
        j += 1;
    }
    out
}

/// The periodic reconciliation: forecast block demand from the access
/// counters, gather the candidates of every recently used attribute,
/// clear the usage counters, let the bandit choose under the budget,
/// and reshape the materialized maps to the choice, which is returned:
/// every block the choice names ends up carrying exactly the chosen
/// attributes, rebuilt from its stored data.
pub fn index_management<T: ReadInterface + WriteInterface>(
    chain: &mut T,
    counters: &mut QueryCounters,
) -> (r: Result<Vec<IndexConfig>, ChainError>)
    requires
        old(chain).inv(),
        store_intra_consistent(old(chain).sview()),
    ensures
        final(chain).inv(),
        store_intra_consistent(final(chain).sview()),
        final(chain).sview().headers == old(chain).sview().headers,
        final(chain).sview().datas == old(chain).sview().datas,
        final(chain).sview().parameter == old(chain).sview().parameter,
        final(chain).sview().inter == old(chain).sview().inter,
        final(chain).sview().txs == old(chain).sview().txs,
        final(counters).key_usage@.len() == 0,
        final(counters).block_access == old(counters).block_access,
        final(counters).query_counter == old(counters).query_counter,
        match r {
            Ok(chosen) => forall|c: int| #![trigger chosen@[c]] 0 <= c < chosen@.len() ==> (
            match assoc_get(old(chain).sview().datas, chosen@[c].block_height) {
                Some(dm) => (match assoc_get(
                    final(chain).sview().intra,
                    chosen@[c].block_height,
                ) {
                    Some(fam) => forall|a: Attribute| family_has_attr(fam, a)
                        <==> attr_required(chosen@, chosen@[c].block_height, a),
                    None => false,
                }),
                None => true,
            }),
            Err(_) => true,
        },
{
    let param = match chain.get_parameter() {
        Ok(p) => p,
        Err(_) => {
            counters.clear_key_usage();
            return Err(ChainError::StorageUnavailable);
        },
    };
    let width: usize = if param.block_count >= usize::MAX as u64 {
        usize::MAX
    } else {
        param.block_count as usize + 1
    };
    let time_series = convert_to_normalized_matrix(&counters.block_access, width);
    let per_block = transpose_matrix(&time_series, width);
    let frequency = holt_linear_exponential_smoothing(&per_block);
    // Gather the candidates of every recently used attribute.
    let mut arms: Vec<IndexConfig> = Vec::new();
    let mut i: usize = 0;
    while i < counters.key_usage.len()
        invariant
            i <= counters.key_usage@.len(),
            chain.inv(),
            counters.key_usage@.len() == old(counters).key_usage@.len(),
        decreases counters.key_usage@.len() - i,
    {
        let key = counters.key_usage[i].0;
        match chain.read_index_config(key) {
            Ok(c) => {
                let mut q: usize = 0;
                while q < c.config.len()
                    invariant q <= c.config@.len(),
                    decreases c.config@.len() - q,
                {
                    arms.push(c.config[q]);
                    q += 1;
                }
            },
            Err(_) => {
                // An attribute with no persisted candidates offers no
                // arms this round.
            },
        }
        i += 1;
    }
    counters.clear_key_usage();
    let bandit = IndexSelectionBandit {
        arms,
        temperature_milli: BANDIT_TEMPERATURE_MILLI,
        budget: BANDIT_BUDGET,
    };
    let chosen = match bandit.choose_arm(&frequency) {
        Ok(c) => c,
        Err(e) => {
            return Err(e);
        },
    };
    match update_indices_based_on_config(&chosen, chain) {
        Ok(_) => Ok(chosen),
        Err(e) => Err(e),
    }
}

/// Assemble and persist one block: derive the header filter from every
/// transaction's id, address and value, stamp the block with its first
/// transaction's timestamp, and write data before header.
pub fn build_block<T: ReadInterface + WriteInterface>(
    block_id: u64,
    pre_hash: Digest,
    txs: Vec<Transaction>,
    chain: &mut T,
) -> (r: Result<BlockHeader, ChainError>)
    requires
        old(chain).inv(),
        store_intra_consistent(old(chain).sview()),
        txs@.len() >= 1,
        forall|i: int| 0 <= i < txs@.len() ==> (#[trigger] txs@[i]).block_id == block_id,
        forall|i: int| 0 <= i < txs@.len() ==> (#[trigger] txs@[i]).value.time_stamp
            == txs@[0].value.time_stamp,
        forall|i: int, j: int| 0 <= i < j < txs@.len() ==> (#[trigger] txs@[i]).id
            != (#[trigger] txs@[j]).id,
        forall|i: int| 0 <= i < old(chain).sview().intra.len()
            ==> (#[trigger] old(chain).sview().intra[i]).0 != block_id,
    ensures
        final(chain).inv(),
        store_intra_consistent(final(chain).sview()),
        r is Ok <==> crate::bloom::bloom_config_ok(
            HEADER_BLOOM_CAPACITY as nat,
            HEADER_BLOOM_FP_NUM as nat,
            HEADER_BLOOM_FP_DEN as nat,
        ),
        match r {
            Ok(h) => {
                &&& h.block_id == block_id
                &&& h.time_stamp == txs@[0].value.time_stamp
                &&& h.bmt_root.wf()
                &&& forall|i: int| 0 <= i < txs@.len() ==> header_covers(
                    h.bmt_root,
                    tx_model(#[trigger] txs@[i]),
                )
                &&& assoc_get(final(chain).sview().headers, block_id) == Some(
                    crate::block::header_model(h),
                )
                &&& assoc_get(final(chain).sview().datas, block_id) is Some
            },
            Err(_) => true,
        },
{
    let mut bloom = match SeededBloomFilter::new(
        HEADER_BLOOM_CAPACITY,
        HEADER_BLOOM_FP_NUM,
        HEADER_BLOOM_FP_DEN,
    ) {
        Ok(f) => f,
        Err(e) => {
            return Err(e);
        },
    };
    let mut tx_ids: Vec<u64> = Vec::new();
    let mut i: usize = 0;
    while i < txs.len()
        invariant
            i <= txs@.len(),
            bloom.wf(),
            tx_ids@.len() == i,
            forall|j: int| 0 <= j < i ==> #[trigger] tx_ids@[j] == txs@[j].id,
            forall|j: int| 0 <= j < i ==> header_covers(bloom, tx_model(#[trigger] txs@[j])),
        decreases txs@.len() - i,
    {
        let t = &txs[i];
        let id_bytes = vstd::bytes::u64_to_le_bytes(t.id);
        bloom.insert(&id_bytes);
        bloom.insert(&t.value.address);
        let val_bytes = vstd::bytes::u64_to_le_bytes(t.value.trans_value);
        bloom.insert(&val_bytes);
        tx_ids.push(t.id);
        i += 1;
        proof {
            assert forall|j: int| 0 <= j < i implies header_covers(
                bloom,
                tx_model(#[trigger] txs@[j]),
            ) by {
            }
        }
    }
    let time_stamp = txs[0].value.time_stamp;
    let rmt_root = Digest(crate::digest::copy_bytes(&pre_hash.0));
    let header = BlockHeader {
        block_id,
        pre_hash,
        time_stamp,
        bmt_root: bloom.duplicate(),
        rmt_root,
    };
    let data = BlockData { block_id, tx_ids, txs };
    proof {
        assert(block_data_wf(block_data_model(data)));
    }
    let ghost pre1 = chain.sview();
    let ghost dmodel = block_data_model(data);
    match chain.write_block_data(data) {
        Ok(_) => {},
        Err(_) => {
            proof {
                assert(false);
            }
            return Err(ChainError::StorageUnavailable);
        },
    }
    proof {
        let e = (block_id, dmodel);
        assert(chain.sview().datas == pre1.datas.push(e));
        assert(forall|i: int| 0 <= i < pre1.intra.len() ==> (#[trigger] pre1.intra[i]).0
            != e.0);
        lemma_consistency_after_data_push(pre1, chain.sview());
    }
    let header_copy = crate::store::copy_header(&header);
    match chain.write_block_header(header_copy) {
        Ok(_) => {},
        Err(_) => {
            proof {
                assert(false);
            }
            return Err(ChainError::StorageUnavailable);
        },
    }
    Ok(header)
}

/// Appending data for a block that owns no materialized family yet
/// keeps the store consistent: every existing family still reads the
/// same data as before.
proof fn lemma_consistency_after_data_push(pre: StoreModel, post: StoreModel)
    requires
        store_intra_consistent(pre),
        post.intra == pre.intra,
        exists|e: (u64, crate::block::BlockDataModel)| post.datas == pre.datas.push(e)
            && (forall|i: int| 0 <= i < pre.intra.len() ==> (#[trigger] pre.intra[i]).0
            != e.0),
    ensures store_intra_consistent(post),
{
    let e = choose|e: (u64, crate::block::BlockDataModel)| post.datas == pre.datas.push(e) && (
    forall|i: int| 0 <= i < pre.intra.len() ==> (#[trigger] pre.intra[i]).0 != e.0);
    assert forall|i: int| 0 <= i < post.intra.len() implies (match assoc_get(
        post.datas,
        (#[trigger] post.intra[i]).0,
    ) {
        Some(dm) => intra_ok_for(post.intra[i].1, dm.txs),
        None => post.intra[i].1.len() == 0,
    }) by {
        assert(post.intra[i].0 != e.0);
        lemma_assoc_get_skip_last(pre.datas, e, post.intra[i].0);
    }
}

/// A lookup under a different key ignores the newest entry.
proof fn lemma_assoc_get_skip_last<K, V>(s: Seq<(K, V)>, e: (K, V), k: K)
    requires k != e.0,
    ensures assoc_get(s.push(e), k) == assoc_get(s, k),
{
    assert(s.push(e).last() == e);
    assert(s.push(e).drop_last() =~= s);
}


/// Fit and persist the learned index over the given headers, in ingest
/// order: build the segments under the stored error bound, write each
/// under its start timestamp, and record the starts in the parameters.
/// Every training point ends up within the bound of the segment
/// covering its timestamp; the fit is refused exactly as the fitter
/// itself refuses (an unusable bound, oversized points, or timestamps
/// out of order), and nothing else here can fail.
#[verifier::rlimit(100)]
#[verifier::spinoff_prover]
pub fn build_inter_index<T: ReadInterface + WriteInterface>(
    block_headers: &Vec<BlockHeader>,
    chain: &mut T,
) -> (r: Result<Vec<InterIndex>, ChainError>)
    requires
        old(chain).inv(),
        store_intra_consistent(old(chain).sview()),
    ensures
        final(chain).inv(),
        store_intra_consistent(final(chain).sview()),
        final(chain).sview().headers == old(chain).sview().headers,
        final(chain).sview().datas == old(chain).sview().datas,
        final(chain).sview().txs == old(chain).sview().txs,
        ({
            let pts = block_headers@.map_values(|h: BlockHeader| (h.time_stamp, h.block_id));
            let eps_num = old(chain).sview().parameter.error_bounds_num;
            let eps_den = old(chain).sview().parameter.error_bounds_den;
            let ok_eps = 1 <= eps_den <= crate::inter::MAX_EPS_PART && eps_num
                <= crate::inter::MAX_EPS_PART;
            let ok_bounds = pts.len() <= crate::inter::MAX_POINT_COUNT && (forall|j: int|
                0 <= j < pts.len() ==> (#[trigger] pts[j]).0 < crate::inter::MAX_POINT_COORD
                    && pts[j].1 < crate::inter::MAX_POINT_ID);
            let ok_order = forall|p: int| 0 <= p < pts.len() - 1
                ==> (#[trigger] pts[p]).0 < pts[p + 1].0;
            &&& (r is Ok <==> (ok_eps && ok_bounds && ok_order))
            &&& (r is Err ==> (r->Err_0 == ChainError::InvalidParameter <==> !(ok_eps
                && ok_bounds)))
            &&& (r is Err ==> (r->Err_0 == ChainError::OutOfOrder <==> (ok_eps && ok_bounds
                && !ok_order)))
        }),
        match r {
            Ok(segs) => {
                &&& (forall|c: int| 0 <= c < segs@.len() ==> assoc_get(
                    final(chain).sview().inter,
                    (#[trigger] segs@[c]).start_timestamp,
                ) == Some(segs@[c]))
                &&& final(chain).sview().parameter.inter_index_timestamps == segs@.map_values(
                    |s: InterIndex| s.start_timestamp,
                )
            },
            Err(_) => true,
        },
{
    let param = match chain.get_parameter() {
        Ok(p) => p,
        Err(_) => {
            proof {
                assert(false);
            }
            return Err(ChainError::StorageUnavailable);
        },
    };
    let mut points: Vec<(u64, u64)> = Vec::new();
    let mut i: usize = 0;
    while i < block_headers.len()
        invariant
            i <= block_headers@.len(),
            points@.len() == i,
            forall|j: int| 0 <= j < i ==> #[trigger] points@[j] == (
                block_headers@[j].time_stamp,
                block_headers@[j].block_id,
            ),
        decreases block_headers@.len() - i,
    {
        let h = &block_headers[i];
        points.push((h.time_stamp, h.block_id));
        i += 1;
    }
    proof {
        assert(points@ =~= block_headers@.map_values(
            |h: BlockHeader| (h.time_stamp, h.block_id),
        ));
    }
    let segs = match crate::inter::build_inter_index(
        &points,
        param.error_bounds_num,
        param.error_bounds_den,
    ) {
        Ok(s) => s,
        Err(e) => {
            return Err(e);
        },
    };
    // Persist every segment under its start timestamp.
    let mut k: usize = 0;
    while k < segs.len()
        invariant
            k <= segs@.len(),
            chain.inv(),
            store_intra_consistent(chain.sview()),
            chain.sview().headers == old(chain).sview().headers,
            chain.sview().datas == old(chain).sview().datas,
            chain.sview().txs == old(chain).sview().txs,
            chain.sview().parameter == old(chain).sview().parameter,
            forall|c: int| 0 <= c < segs@.len() - 1
                ==> (#[trigger] segs@[c]).start_timestamp < segs@[c + 1].start_timestamp,
            forall|c: int| 0 <= c < k ==> assoc_get(
                chain.sview().inter,
                (#[trigger] segs@[c]).start_timestamp,
            ) == Some(segs@[c]),
        decreases segs@.len() - k,
    {
        let seg = segs[k];
        let ghost pre = chain.sview();
        match chain.write_inter_index(seg) {
            Ok(_) => {},
            Err(_) => {
                proof {
                    assert(false);
                }
                return Err(ChainError::StorageUnavailable);
            },
        }
        k += 1;
        proof {
            assert forall|c: int| 0 <= c < k implies assoc_get(
                chain.sview().inter,
                (#[trigger] segs@[c]).start_timestamp,
            ) == Some(segs@[c]) by {
                if c < k - 1 {
                    lemma_segments_distinct(segs@, c, k - 1);
                    lemma_assoc_get_skip_last(
                        pre.inter,
                        (segs@[k - 1].start_timestamp, segs@[k - 1]),
                        segs@[c].start_timestamp,
                    );
                } else {
                    assert(chain.sview().inter.last() == (
                        segs@[k - 1].start_timestamp,
                        segs@[k - 1],
                    ));
                }
            }
        }
    }
    // Record the start timestamps in the parameters.
    let mut starts: Vec<u64> = Vec::new();
    let mut q: usize = 0;
    while q < segs.len()
        invariant
            q <= segs@.len(),
            starts@ =~= segs@.subrange(0, q as int).map_values(
                |s: InterIndex| s.start_timestamp,
            ),
        decreases segs@.len() - q,
    {
        starts.push(segs[q].start_timestamp);
        q += 1;
        proof {
            assert(starts@ =~= segs@.subrange(0, q as int).map_values(
                |s: InterIndex| s.start_timestamp,
            ));
        }
    }
    proof {
        assert(segs@.subrange(0, segs@.len() as int) =~= segs@);
    }
    let new_param = Parameter {
        error_bounds_num: param.error_bounds_num,
        error_bounds_den: param.error_bounds_den,
        inter_index: param.inter_index,
        intra_index: param.intra_index,
        start_block_id: param.start_block_id,
        block_count: param.block_count,
        inter_index_timestamps: starts,
    };
    match chain.set_parameter(new_param) {
        Ok(_) => {},
        Err(_) => {
            proof {
                assert(false);
            }
            return Err(ChainError::StorageUnavailable);
        },
    }
    Ok(segs)
}

/// Segments of one build start at pairwise distinct timestamps.
proof fn lemma_segments_distinct(s: Seq<InterIndex>, i: int, j: int)
    requires
        forall|c: int| 0 <= c < s.len() - 1 ==> (#[trigger] s[c]).start_timestamp < s[c
            + 1].start_timestamp,
        0 <= i < j < s.len(),
    ensures s[i].start_timestamp < s[j].start_timestamp,
    decreases j - i,
{
    if j == i + 1 {
    } else {
        lemma_segments_distinct(s, i, j - 1);
    }
}


} // verus!
