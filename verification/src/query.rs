//! The query executor: conjunctive range predicates over the chain,
//! pruned by the learned inter-block index and the per-block Bloom
//! filter, scanned with a materialized per-block map when one fits and
//! by a linear pass otherwise.

use vstd::prelude::*;
use vstd::string::StrSliceExecFns;
use crate::block::{Attribute, BlockData, Parameter, Transaction, TxModel, block_data_model,
    parameter_model, parse_attribute, tx_model};
use crate::bloom::{BloomFilter, SeededBloomFilter};
use crate::errors::ChainError;
use crate::intra::{BTreeEnum, IntraIndex, in_text_range, in_u64_range, parse_u64,
    spec_parse_u64, u64_map_range, text_map_range, u64_range_txs, text_range_txs,
    u64_map_model, text_map_model};
use crate::block::{InterIndex};
use crate::store::{ReadInterface, WriteInterface, attribute_eq, btree_model, BTreeModel};

verus! {

/// Queries answered between two runs of the index manager.
pub const QUERY_THRESHOLD: u64 = 100;

/// Numeric ranges wider than this are not probed against the header
/// filter; the block is scanned instead.
pub const BLOOM_PROBE_LIMIT: u64 = 1024;

/// The public query surface: parallel attribute and range lists, and
/// the two acceleration switches.
pub struct QueryParam {
    pub key: Vec<String>,
    pub value: Vec<(Option<String>, Option<String>)>,
    pub bloom_filter: bool,
    pub intra_index: bool,
}

/// One parsed predicate: the attribute and its typed half-open range.
pub enum ReqBounds {
    Numeric(Option<u64>, Option<u64>),
    Text(Option<Vec<u8>>, Option<Vec<u8>>),
}

/// One parsed predicate of a query.
pub struct QueryRequest {
    pub key: Attribute,
    pub bounds: ReqBounds,
}

/// A view of optional byte bounds.
pub open spec fn opt_bytes(o: Option<Vec<u8>>) -> Option<Seq<u8>> {
    match o {
        Some(v) => Some(v@),
        None => None,
    }
}

/// A predicate is well shaped when its bounds fit its attribute.
pub open spec fn req_wf(rq: QueryRequest) -> bool {
    match rq.bounds {
        ReqBounds::Numeric(_, _) => rq.key != Attribute::Address,
        ReqBounds::Text(_, _) => rq.key == Attribute::Address,
    }
}

/// Whether a transaction satisfies one predicate.
pub open spec fn tx_matches(t: TxModel, rq: QueryRequest) -> bool {
    match rq.bounds {
        ReqBounds::Numeric(lo, hi) => match rq.key {
            Attribute::Id => in_u64_range(t.id, lo, hi),
            Attribute::Value => in_u64_range(t.trans_value, lo, hi),
            Attribute::Timestamp => in_u64_range(t.time_stamp, lo, hi),
            Attribute::Address => false,
        },
        ReqBounds::Text(lo, hi) => rq.key == Attribute::Address && in_text_range(
            t.address,
            opt_bytes(lo),
            opt_bytes(hi),
        ),
    }
}

/// Whether a transaction satisfies every predicate that names a stored
/// attribute; timestamp predicates are resolved at the block level.
pub open spec fn conj_matches(t: TxModel, reqs: Seq<QueryRequest>) -> bool {
    forall|j: int| 0 <= j < reqs.len() && (#[trigger] reqs[j]).key != Attribute::Timestamp
        ==> tx_matches(t, reqs[j])
}

/// Whether any predicate names a stored attribute.
pub open spec fn has_non_ts(reqs: Seq<QueryRequest>) -> bool {
    exists|j: int| 0 <= j < reqs.len() && (#[trigger] reqs[j]).key != Attribute::Timestamp
}

/// The transactions of a block satisfying every stored-attribute
/// predicate, in block order.
pub open spec fn conj_txs(txm: Seq<TxModel>, reqs: Seq<QueryRequest>) -> Seq<TxModel>
    decreases txm.len(),
{
    if txm.len() == 0 {
        Seq::empty()
    } else {
        conj_txs(txm.drop_last(), reqs) + (if conj_matches(txm.last(), reqs) {
            seq![txm.last()]
        } else {
            Seq::empty()
        })
    }
}

/// Whether a block timestamp satisfies every timestamp predicate.
pub open spec fn ts_matches(ts: u64, reqs: Seq<QueryRequest>) -> bool {
    forall|j: int| 0 <= j < reqs.len() && (#[trigger] reqs[j]).key == Attribute::Timestamp
        ==> tx_matches(
        TxModel { id: 0, block_id: 0, address: Seq::empty(), trans_value: 0, time_stamp: ts },
        reqs[j],
    )
}

/// Evaluate one predicate against a transaction.
pub fn tx_matches_exec(t: &Transaction, rq: &QueryRequest) -> (r: bool)
    ensures r == tx_matches(tx_model(*t), *rq),
{
    match &rq.bounds {
        ReqBounds::Numeric(lo, hi) => {
            let v = match rq.key {
                Attribute::Id => t.id,
                Attribute::Value => t.value.trans_value,
                Attribute::Timestamp => t.value.time_stamp,
                Attribute::Address => {
                    return false;
                },
            };
            let above = match lo {
                Some(l) => *l <= v,
                None => true,
            };
            let below = match hi {
                Some(h) => v < *h,
                None => true,
            };
            above && below
        },
        ReqBounds::Text(lo, hi) => {
            match rq.key {
                Attribute::Address => {},
                _ => {
                    return false;
                },
            }
            let above = match lo {
                Some(l) => !crate::intra::bytes_lt_exec(&t.value.address, l),
                None => true,
            };
            let below = match hi {
                Some(h) => crate::intra::bytes_lt_exec(&t.value.address, h),
                None => true,
            };
            above && below
        },
    }
}

/// Evaluate every stored-attribute predicate against a transaction.
pub fn conj_matches_exec(t: &Transaction, reqs: &Vec<QueryRequest>) -> (r: bool)
    ensures r == conj_matches(tx_model(*t), reqs@),
{
    let mut j: usize = 0;
    while j < reqs.len()
        invariant
            j <= reqs@.len(),
            forall|q: int| 0 <= q < j && (#[trigger] reqs@[q]).key != Attribute::Timestamp
                ==> tx_matches(tx_model(*t), reqs@[q]),
        decreases reqs@.len() - j,
    {
        let is_ts = attribute_eq(reqs[j].key, Attribute::Timestamp);
        if !is_ts {
            if !tx_matches_exec(t, &reqs[j]) {
                return false;
            }
        }
        j += 1;
    }
    true
}

/// Scan the block's transactions for those satisfying every
/// stored-attribute predicate.
pub fn query_no_intra_index(block_data: &BlockData, reqs: &Vec<QueryRequest>) -> (r: Vec<
    Transaction,
>)
    ensures
        r@.map_values(|t: Transaction| tx_model(t)) == conj_txs(
            block_data.txs@.map_values(|t: Transaction| tx_model(t)),
            reqs@,
        ),
{
    let ghost txm = block_data.txs@.map_values(|t: Transaction| tx_model(t));
    let mut out: Vec<Transaction> = Vec::new();
    let mut i: usize = 0;
    proof {
        assert(txm.subrange(0, 0) =~= Seq::<TxModel>::empty());
        assert(out@.map_values(|t: Transaction| tx_model(t)) =~= Seq::<TxModel>::empty());
    }
    while i < block_data.txs.len()
        invariant
            i <= block_data.txs@.len(),
            txm == block_data.txs@.map_values(|t: Transaction| tx_model(t)),
            out@.map_values(|t: Transaction| tx_model(t)) == conj_txs(
                txm.subrange(0, i as int),
                reqs@,
            ),
        decreases block_data.txs@.len() - i,
    {
        let keep = conj_matches_exec(&block_data.txs[i], reqs);
        proof {
            let pre = txm.subrange(0, i as int);
            let post = txm.subrange(0, i + 1);
            assert(post.drop_last() =~= pre);
            assert(post.last() == txm[i as int]);
        }
        if keep {
            let ghost pre_out = out@.map_values(|t: Transaction| tx_model(t));
            let c = crate::block::copy_tx(&block_data.txs[i]);
            let ghost cm = tx_model(c);
            out.push(c);
            proof {
                assert(out@.map_values(|t: Transaction| tx_model(t)) =~= pre_out.push(cm));
                assert(out@.map_values(|t: Transaction| tx_model(t)) =~= conj_txs(
                    txm.subrange(0, i + 1),
                    reqs@,
                ));
            }
        } else {
            proof {
                assert(out@.map_values(|t: Transaction| tx_model(t)) =~= conj_txs(
                    txm.subrange(0, i + 1),
                    reqs@,
                ));
            }
        }
        i += 1;
    }
    proof {
        assert(txm.subrange(0, txm.len() as int) =~= txm);
    }
    out
}

/// The candidates a map hands the scan: the entries of the predicate's
/// half-open range, or the whole map when the bounds do not fit the
/// map's key type.
pub open spec fn intra_candidates(b: BTreeModel, rq: QueryRequest) -> Seq<TxModel> {
    match (b, rq.bounds) {
        (BTreeModel::U64(m), ReqBounds::Numeric(lo, hi)) => u64_range_txs(m, lo, hi),
        (BTreeModel::Text(m), ReqBounds::Text(lo, hi)) => text_range_txs(
            m,
            opt_bytes(lo),
            opt_bytes(hi),
        ),
        (BTreeModel::U64(m), ReqBounds::Text(_, _)) => u64_range_txs(m, None, None),
        (BTreeModel::Text(m), ReqBounds::Numeric(_, _)) => text_range_txs(m, None, None),
    }
}

/// Scan a materialized map for one predicate's range, then filter the
/// candidates by every stored-attribute predicate: exactly the range's
/// entries satisfying every predicate, in entry order.
pub fn query_with_intra_index(
    btree: &BTreeEnum,
    rq: &QueryRequest,
    reqs: &Vec<QueryRequest>,
) -> (r: Vec<Transaction>)
    ensures
        r@.map_values(|t: Transaction| tx_model(t)) == conj_txs(
            intra_candidates(btree_model(*btree), *rq),
            reqs@,
        ),
        forall|j: int| 0 <= j < r@.len() ==> conj_matches(
            tx_model(#[trigger] r@[j]),
            reqs@,
        ),
        forall|j: int| #![trigger r@[j]] 0 <= j < r@.len() ==> btree_txs(
            btree_model(*btree),
        ).contains(tx_model(r@[j])),
{
    let candidates: Vec<Transaction> = match (btree, &rq.bounds) {
        (BTreeEnum::U64(m), ReqBounds::Numeric(lo, hi)) => {
            let c = u64_map_range(m, lo, hi);
            proof {
                assert(btree_model(*btree) == BTreeModel::U64(u64_map_model(*m)));
                lemma_u64_range_from_entries(u64_map_model(*m), *lo, *hi);
                assert forall|j: int| #![trigger c@[j]] 0 <= j < c@.len() implies btree_txs(
                    btree_model(*btree),
                ).contains(tx_model(c@[j])) by {
                    assert(c@.map_values(|t: Transaction| tx_model(t))[j] == tx_model(c@[j]));
                    assert(u64_range_txs(u64_map_model(*m), *lo, *hi)[j] == tx_model(c@[j]));
                }
            }
            c
        },
        (BTreeEnum::Text(m), ReqBounds::Text(lo, hi)) => {
            let c = text_map_range(m, lo, hi);
            proof {
                assert(btree_model(*btree) == BTreeModel::Text(text_map_model(*m)));
                lemma_text_range_from_entries(text_map_model(*m), opt_bytes(*lo), opt_bytes(*hi));
                assert forall|j: int| #![trigger c@[j]] 0 <= j < c@.len() implies btree_txs(
                    btree_model(*btree),
                ).contains(tx_model(c@[j])) by {
                    assert(c@.map_values(|t: Transaction| tx_model(t))[j] == tx_model(c@[j]));
                    assert(text_range_txs(text_map_model(*m), opt_bytes(*lo), opt_bytes(*hi))[j] == tx_model(c@[j]));
                }
            }
            c
        },
        (BTreeEnum::U64(m), _) => {
            let all: Option<u64> = None;
            let c = u64_map_range(m, &all, &all);
            proof {
                assert(btree_model(*btree) == BTreeModel::U64(u64_map_model(*m)));
                lemma_u64_range_from_entries(u64_map_model(*m), None, None);
                assert forall|j: int| #![trigger c@[j]] 0 <= j < c@.len() implies btree_txs(
                    btree_model(*btree),
                ).contains(tx_model(c@[j])) by {
                    assert(c@.map_values(|t: Transaction| tx_model(t))[j] == tx_model(c@[j]));
                    assert(u64_range_txs(u64_map_model(*m), None, None)[j] == tx_model(c@[j]));
                }
            }
            c
        },
        (BTreeEnum::Text(m), _) => {
            let none_b: Option<Vec<u8>> = None;
            let c = text_map_range(m, &none_b, &none_b);
            proof {
                assert(btree_model(*btree) == BTreeModel::Text(text_map_model(*m)));
                lemma_text_range_from_entries(text_map_model(*m), None, None);
                assert forall|j: int| #![trigger c@[j]] 0 <= j < c@.len() implies btree_txs(
                    btree_model(*btree),
                ).contains(tx_model(c@[j])) by {
                    assert(c@.map_values(|t: Transaction| tx_model(t))[j] == tx_model(c@[j]));
                    assert(text_range_txs(text_map_model(*m), None, None)[j] == tx_model(c@[j]));
                }
            }
            c
        },
    };
    let ghost candm = candidates@.map_values(|t: Transaction| tx_model(t));
    proof {
        assert(candm == intra_candidates(btree_model(*btree), *rq));
        assert(candm.subrange(0, 0) =~= Seq::<TxModel>::empty());
    }
    let mut out: Vec<Transaction> = Vec::new();
    let mut i: usize = 0;
    while i < candidates.len()
        invariant
            i <= candidates@.len(),
            candm == candidates@.map_values(|t: Transaction| tx_model(t)),
            candm == intra_candidates(btree_model(*btree), *rq),
            out@.map_values(|t: Transaction| tx_model(t)) == conj_txs(
                candm.subrange(0, i as int),
                reqs@,
            ),
            forall|j: int| 0 <= j < out@.len() ==> conj_matches(
                tx_model(#[trigger] out@[j]),
                reqs@,
            ),
            forall|j: int| 0 <= j < out@.len() ==> exists|q: int|
                0 <= q < candidates@.len() && tx_model(#[trigger] out@[j]) == tx_model(
                    candidates@[q],
                ),
            forall|j: int| #![trigger candidates@[j]] 0 <= j < candidates@.len()
                ==> btree_txs(btree_model(*btree)).contains(tx_model(candidates@[j])),
        decreases candidates@.len() - i,
    {
        let keep = conj_matches_exec(&candidates[i], reqs);
        proof {
            let pre = candm.subrange(0, i as int);
            let post = candm.subrange(0, i + 1);
            assert(post.drop_last() =~= pre);
            assert(post.last() == candm[i as int]);
            assert(candm[i as int] == tx_model(candidates@[i as int]));
        }
        if keep {
            let ghost pre_out = out@;
            let c = crate::block::copy_tx(&candidates[i]);
            let ghost cm = tx_model(c);
            out.push(c);
            proof {
                assert(out@ =~= pre_out.push(out@.last()));
                assert(cm == tx_model(candidates@[i as int]));
                assert(out@.map_values(|t: Transaction| tx_model(t)) =~= pre_out.map_values(
                    |t: Transaction| tx_model(t),
                ).push(cm));
                assert(out@.map_values(|t: Transaction| tx_model(t)) =~= conj_txs(
                    candm.subrange(0, i + 1),
                    reqs@,
                ));
                assert forall|j: int| 0 <= j < out@.len() implies exists|q: int|
                    0 <= q < candidates@.len() && tx_model(#[trigger] out@[j]) == tx_model(
                        candidates@[q],
                    ) by {
                    if j < pre_out.len() {
                    } else {
                        assert(tx_model(out@[j]) == tx_model(candidates@[i as int]));
                    }
                }
            }
        } else {
            proof {
                assert(out@.map_values(|t: Transaction| tx_model(t)) =~= conj_txs(
                    candm.subrange(0, i + 1),
                    reqs@,
                ));
            }
        }
        i += 1;
    }
    proof {
        assert(candm.subrange(0, candm.len() as int) =~= candm);
        assert forall|j: int| #![trigger out@[j]] 0 <= j < out@.len() implies btree_txs(
            btree_model(*btree),
        ).contains(tx_model(out@[j])) by {
            let q = choose|q: int| 0 <= q < candidates@.len() && tx_model(out@[j]) == tx_model(
                candidates@[q],
            );
            assert(btree_txs(btree_model(*btree)).contains(tx_model(candidates@[q])));
        }
    }
    out
}

/// The transactions a map holds, in entry order.
pub open spec fn btree_txs(b: BTreeModel) -> Seq<TxModel> {
    match b {
        BTreeModel::U64(entries) => entries.map_values(|x: (u64, TxModel)| x.1),
        BTreeModel::Text(entries) => entries.map_values(|x: (Seq<u8>, TxModel)| x.1),
    }
}

/// Every transaction a numeric range scan hands out sits in some entry
/// of the map.
proof fn lemma_u64_range_from_entries(s: Seq<(u64, TxModel)>, lo: Option<u64>, hi: Option<u64>)
    ensures
        forall|j: int| #![trigger u64_range_txs(s, lo, hi)[j]] 0 <= j < u64_range_txs(
            s,
            lo,
            hi,
        ).len() ==> s.map_values(|x: (u64, TxModel)| x.1).contains(u64_range_txs(s, lo, hi)[j]),
    decreases s.len(),
{
    if s.len() > 0 {
        lemma_u64_range_from_entries(s.drop_last(), lo, hi);
        let whole = u64_range_txs(s, lo, hi);
        let front = u64_range_txs(s.drop_last(), lo, hi);
        let vals = s.map_values(|x: (u64, TxModel)| x.1);
        let fvals = s.drop_last().map_values(|x: (u64, TxModel)| x.1);
        assert forall|j: int| #![trigger whole[j]] 0 <= j < whole.len() implies vals.contains(
            whole[j],
        ) by {
            if j < front.len() {
                assert(fvals.contains(front[j]));
                let e = choose|e: int| 0 <= e < fvals.len() && fvals[e] == front[j];
                assert(vals[e] == fvals[e]);
                assert(vals.contains(whole[j]));
            } else {
                assert(whole[j] == s.last().1);
                assert(vals[s.len() - 1] == s.last().1);
                assert(vals.contains(whole[j]));
            }
        }
    }
}

/// Every transaction a text range scan hands out sits in some entry of
/// the map.
proof fn lemma_text_range_from_entries(
    s: Seq<(Seq<u8>, TxModel)>,
    lo: Option<Seq<u8>>,
    hi: Option<Seq<u8>>,
)
    ensures
        forall|j: int| #![trigger text_range_txs(s, lo, hi)[j]] 0 <= j < text_range_txs(
            s,
            lo,
            hi,
        ).len() ==> s.map_values(|x: (Seq<u8>, TxModel)| x.1).contains(
            text_range_txs(s, lo, hi)[j],
        ),
    decreases s.len(),
{
    if s.len() > 0 {
        lemma_text_range_from_entries(s.drop_last(), lo, hi);
        let whole = text_range_txs(s, lo, hi);
        let front = text_range_txs(s.drop_last(), lo, hi);
        let vals = s.map_values(|x: (Seq<u8>, TxModel)| x.1);
        let fvals = s.drop_last().map_values(|x: (Seq<u8>, TxModel)| x.1);
        assert forall|j: int| #![trigger whole[j]] 0 <= j < whole.len() implies vals.contains(
            whole[j],
        ) by {
            if j < front.len() {
                assert(fvals.contains(front[j]));
                let e = choose|e: int| 0 <= e < fvals.len() && fvals[e] == front[j];
                assert(vals[e] == fvals[e]);
                assert(vals.contains(whole[j]));
            } else {
                assert(whole[j] == s.last().1);
                assert(vals[s.len() - 1] == s.last().1);
                assert(vals.contains(whole[j]));
            }
        }
    }
}



/// The recorded count of an attribute: the first entry under its key,
/// or zero where there is none.
pub open spec fn usage_of(s: Seq<(Attribute, u64)>, a: Attribute) -> u64
    decreases s.len(),
{
    if s.len() == 0 {
        0u64
    } else if s.first().0 == a {
        s.first().1
    } else {
        usage_of(s.drop_first(), a)
    }
}

/// An attribute with no entry counts zero.
proof fn lemma_usage_absent(s: Seq<(Attribute, u64)>, a: Attribute)
    requires forall|j: int| 0 <= j < s.len() ==> (#[trigger] s[j]).0 != a,
    ensures usage_of(s, a) == 0,
    decreases s.len(),
{
    if s.len() > 0 {
        assert(s[0].0 != a);
        assert forall|j: int| 0 <= j < s.drop_first().len() implies (
        #[trigger] s.drop_first()[j]).0 != a by {
            assert(s[j + 1].0 != a);
        }
        lemma_usage_absent(s.drop_first(), a);
    }
}

/// Overwriting the first entry under a key sets that key's count and
/// leaves every other key's count alone.
proof fn lemma_usage_update(s: Seq<(Attribute, u64)>, i: int, a: Attribute, v: u64)
    requires
        0 <= i < s.len(),
        s[i].0 == a,
        forall|j: int| 0 <= j < i ==> (#[trigger] s[j]).0 != a,
    ensures
        usage_of(s.update(i, (a, v)), a) == v,
        forall|b: Attribute| b != a ==> usage_of(s.update(i, (a, v)), b) == usage_of(s, b),
    decreases s.len(),
{
    let t = s.update(i, (a, v));
    if i == 0 {
        assert(t.first() == (a, v));
        assert forall|b: Attribute| b != a implies usage_of(t, b) == usage_of(s, b) by {
            assert(t.drop_first() =~= s.drop_first());
            assert(s.first().0 == a);
        }
    } else {
        assert(s[0].0 != a);
        assert(t.first() == s.first());
        assert(t.drop_first() =~= s.drop_first().update(i - 1, (a, v)));
        assert forall|j: int| 0 <= j < i - 1 implies (#[trigger] s.drop_first()[j]).0
            != a by {
            assert(s[j + 1].0 != a);
        }
        lemma_usage_update(s.drop_first(), i - 1, a, v);
        assert(t.first().0 != a);
        assert(usage_of(t, a) == usage_of(t.drop_first(), a));
        assert forall|b: Attribute| b != a implies usage_of(t, b) == usage_of(s, b) by {
            if t.first().0 == b {
            } else {
                assert(usage_of(t, b) == usage_of(t.drop_first(), b));
                assert(usage_of(s, b) == usage_of(s.drop_first(), b));
            }
        }
    }
}

/// Appending an entry for an absent key sets that key's count and
/// leaves every other key's count alone.
proof fn lemma_usage_push(s: Seq<(Attribute, u64)>, e: (Attribute, u64))
    requires forall|j: int| 0 <= j < s.len() ==> (#[trigger] s[j]).0 != e.0,
    ensures
        usage_of(s.push(e), e.0) == e.1,
        forall|b: Attribute| b != e.0 ==> usage_of(s.push(e), b) == usage_of(s, b),
    decreases s.len(),
{
    let t = s.push(e);
    if s.len() == 0 {
        assert(t.first() == e);
        assert(t.drop_first() =~= Seq::<(Attribute, u64)>::empty());
        assert forall|b: Attribute| b != e.0 implies usage_of(t, b) == usage_of(s, b) by {
            assert(usage_of(t, b) == usage_of(t.drop_first(), b));
        }
    } else {
        assert(s[0].0 != e.0);
        assert(t.first() == s.first());
        assert(t.drop_first() =~= s.drop_first().push(e));
        assert forall|j: int| 0 <= j < s.drop_first().len() implies (
        #[trigger] s.drop_first()[j]).0 != e.0 by {
            assert(s[j + 1].0 != e.0);
        }
        lemma_usage_push(s.drop_first(), e);
        assert forall|b: Attribute| b != e.0 implies usage_of(t, b) == usage_of(s, b) by {
            if t.first().0 == b {
            } else {
                assert(usage_of(t, b) == usage_of(t.drop_first(), b));
                assert(usage_of(s, b) == usage_of(s.drop_first(), b));
            }
        }
    }
}

/// The first entry under a key is the key's count.
proof fn lemma_usage_first_match(s: Seq<(Attribute, u64)>, i: int, a: Attribute)
    requires
        0 <= i < s.len(),
        s[i].0 == a,
        forall|j: int| 0 <= j < i ==> (#[trigger] s[j]).0 != a,
    ensures usage_of(s, a) == s[i].1,
    decreases s.len(),
{
    if i == 0 {
    } else {
        assert(s[0].0 != a);
        assert forall|j: int| 0 <= j < i - 1 implies (#[trigger] s.drop_first()[j]).0
            != a by {
            assert(s[j + 1].0 != a);
        }
        assert(s.drop_first()[i - 1] == s[i]);
        lemma_usage_first_match(s.drop_first(), i - 1, a);
    }
}

/// A counter row's entry, with positions past the end counting zero.
pub open spec fn row_get(row: Seq<u64>, j: int) -> u64 {
    if 0 <= j < row.len() {
        row[j]
    } else {
        0u64
    }
}

/// A count one higher, saturating at the top.
pub open spec fn sat_inc(v: u64) -> u64 {
    if v == u64::MAX {
        v
    } else {
        (v + 1) as u64
    }
}

/// Saturating increment applied `n` times.
pub open spec fn sat_inc_n(v: u64, n: nat) -> u64
    decreases n,
{
    if n == 0 {
        v
    } else {
        sat_inc(sat_inc_n(v, (n - 1) as nat))
    }
}

/// How many of the first `upto` query keys parse to the attribute.
pub open spec fn key_occurrences(keys: Seq<String>, a: Attribute, upto: int) -> nat
    decreases upto,
{
    if upto <= 0 {
        0
    } else {
        key_occurrences(keys, a, upto - 1) + (if crate::block::spec_parse_attribute(
            qstr_bytes(keys[upto - 1]@),
        ) == Ok::<Attribute, ChainError>(a) {
            1nat
        } else {
            0nat
        })
    }
}

/// The key-usage table grew by exactly the occurrence count of each
/// attribute among the first `p` query keys, saturating.
pub open spec fn usage_bumped_to(
    pre: Seq<(Attribute, u64)>,
    post: Seq<(Attribute, u64)>,
    keys: Seq<String>,
    p: int,
) -> bool {
    forall|a: Attribute| usage_of(post, a) == sat_inc_n(
        usage_of(pre, a),
        key_occurrences(keys, a, p),
    )
}

/// The current access row of the counters, empty before any access.
pub open spec fn current_row(c: QueryCounters) -> Seq<u64> {
    if c.block_access@.len() == 0 {
        Seq::empty()
    } else {
        c.block_access@.last()@
    }
}

/// The engine's process-wide counters: answered queries, per-attribute
/// key usage, and the per-epoch block access matrix.
pub struct QueryCounters {
    pub query_counter: u64,
    pub key_usage: Vec<(Attribute, u64)>,
    pub block_access: Vec<Vec<u64>>,
}

impl QueryCounters {
    /// Fresh counters, all zero.
    pub fn new() -> (r: QueryCounters)
        ensures
            r.query_counter == 0,
            r.key_usage@.len() == 0,
            r.block_access@.len() == 0,
    {
        QueryCounters { query_counter: 0, key_usage: Vec::new(), block_access: Vec::new() }
    }

    /// Count one use of an attribute: its count grows by one,
    /// saturating at the top, and every other attribute's count is
    /// untouched.
    pub fn bump_key(&mut self, a: Attribute)
        ensures
            final(self).query_counter == old(self).query_counter,
            final(self).block_access == old(self).block_access,
            usage_of(final(self).key_usage@, a) == sat_inc(usage_of(old(self).key_usage@, a)),
            forall|b: Attribute| b != a ==> usage_of(final(self).key_usage@, b) == usage_of(
                old(self).key_usage@,
                b,
            ),
    {
        let ghost pre = self.key_usage@;
        let mut i: usize = 0;
        while i < self.key_usage.len()
            invariant
                i <= self.key_usage@.len(),
                self.key_usage@ == pre,
                pre == old(self).key_usage@,
                self.query_counter == old(self).query_counter,
                self.block_access == old(self).block_access,
                forall|j: int| 0 <= j < i ==> (#[trigger] pre[j]).0 != a,
            decreases self.key_usage@.len() - i,
        {
            if attribute_eq(self.key_usage[i].0, a) {
                let n = self.key_usage[i].1;
                let bumped = if n == u64::MAX { n } else { n + 1 };
                self.key_usage.set(i, (a, bumped));
                proof {
                    lemma_usage_update(pre, i as int, a, bumped);
                    lemma_usage_first_match(pre, i as int, a);
                }
                return;
            }
            i += 1;
        }
        self.key_usage.push((a, 1));
        proof {
            lemma_usage_absent(pre, a);
            lemma_usage_push(pre, (a, 1u64));
        }
    }

    /// Record one access to the block at `offset` in the current
    /// epoch: the current row's entry at `offset` grows by one,
    /// saturating, every other entry is untouched, and earlier epochs
    /// are untouched.
    pub fn record_block_access(&mut self, offset: usize)
        ensures
            final(self).query_counter == old(self).query_counter,
            final(self).key_usage == old(self).key_usage,
            final(self).block_access@.len() == (if old(self).block_access@.len() == 0 {
                1int
            } else {
                old(self).block_access@.len() as int
            }),
            forall|r: int| 0 <= r < final(self).block_access@.len() - 1
                ==> (#[trigger] final(self).block_access@[r])@ == old(self).block_access@[r]@,
            row_get(current_row(*final(self)), offset as int) == sat_inc(
                row_get(current_row(*old(self)), offset as int),
            ),
            forall|j: int| j != offset ==> row_get(current_row(*final(self)), j) == row_get(
                current_row(*old(self)),
                j,
            ),
    {
        let ghost pre_last = current_row(*old(self));
        if self.block_access.len() == 0 {
            self.block_access.push(Vec::new());
        }
        let rows = self.block_access.len();
        let mut row = self.block_access.remove(rows - 1);
        proof {
            assert(row@ == pre_last);
            assert(self.block_access@ =~= old(self).block_access@.take(rows - 1)
                || old(self).block_access@.len() == 0);
        }
        if row.len() <= offset {
            while row.len() <= offset
                invariant
                    row@.len() <= offset + 1,
                    forall|j: int| row_get(row@, j) == row_get(pre_last, j),
                decreases offset + 1 - row@.len(),
            {
                let ghost before = row@;
                row.push(0);
                proof {
                    assert forall|j: int| row_get(row@, j) == row_get(pre_last, j) by {
                        if j == before.len() {
                            assert(row_get(row@, j) == 0);
                            assert(row_get(pre_last, j) == row_get(before, j));
                        }
                    }
                }
            }
        }
        let n = row[offset];
        let bumped = if n == u64::MAX { n } else { n + 1 };
        let ghost padded = row@;
        row.set(offset, bumped);
        proof {
            assert(n == row_get(pre_last, offset as int));
            assert forall|j: int| j != offset implies row_get(row@, j) == row_get(
                pre_last,
                j,
            ) by {
                assert(row_get(row@, j) == row_get(padded, j));
            }
        }
        self.block_access.push(row);
    }

    /// Start a new access epoch.
    pub fn new_epoch(&mut self)
        ensures
            final(self).query_counter == old(self).query_counter,
            final(self).key_usage == old(self).key_usage,
    {
        self.block_access.push(Vec::new());
    }

    /// Forget all key usage, as the index manager does after reading it.
    pub fn clear_key_usage(&mut self)
        ensures
            final(self).query_counter == old(self).query_counter,
            final(self).block_access == old(self).block_access,
            final(self).key_usage@.len() == 0,
    {
        self.key_usage = Vec::new();
    }
}

/// Whether a predicate could be parsed from its raw parts.
pub open spec fn inputs_parse_ok(kb: Seq<u8>, lo: Option<Seq<u8>>, hi: Option<Seq<u8>>) -> bool {
    match crate::block::spec_parse_attribute(kb) {
        Ok(a) => {
            if a == Attribute::Address {
                true
            } else {
                &&& (lo is Some ==> spec_parse_u64(lo->0) is Some)
                &&& (hi is Some ==> spec_parse_u64(hi->0) is Some)
            }
        },
        Err(_) => false,
    }
}

/// Whether a parsed predicate corresponds to its raw parts.
pub open spec fn req_from(
    rq: QueryRequest,
    kb: Seq<u8>,
    lo: Option<Seq<u8>>,
    hi: Option<Seq<u8>>,
) -> bool {
    &&& crate::block::spec_parse_attribute(kb) == Ok::<Attribute, ChainError>(rq.key)
    &&& match rq.bounds {
        ReqBounds::Numeric(nlo, nhi) => {
            &&& rq.key != Attribute::Address
            &&& (match lo {
                Some(b) => nlo == spec_parse_u64(b),
                None => nlo is None,
            })
            &&& (match hi {
                Some(b) => nhi == spec_parse_u64(b),
                None => nhi is None,
            })
        },
        ReqBounds::Text(tlo, thi) => {
            &&& rq.key == Attribute::Address
            &&& opt_bytes(tlo) == lo
            &&& opt_bytes(thi) == hi
        },
    }
}

/// The bytes a query string is read as.
pub open spec fn qstr_bytes(s: Seq<char>) -> Seq<u8> {
    vstd::utf8::encode_utf8(s)
}

/// The byte form of an optional query string.
pub open spec fn opt_qstr_bytes(o: Option<String>) -> Option<Seq<u8>> {
    match o {
        Some(s) => Some(qstr_bytes(s@)),
        None => None,
    }
}

/// Parse the query surface into typed predicates, counting each named
/// attribute.  Mismatched list lengths, unknown attributes and
/// unreadable numeric bounds are refused; with matching lists, the
/// parse succeeds exactly when every attribute name and numeric bound
/// reads.
pub fn extract_request(q_param: &QueryParam, counters: &mut QueryCounters) -> (r: Result<
    Vec<QueryRequest>,
    ChainError,
>)
    ensures
        final(counters).query_counter == old(counters).query_counter,
        final(counters).block_access == old(counters).block_access,
        r is Ok ==> usage_bumped_to(
            old(counters).key_usage@,
            final(counters).key_usage@,
            q_param.key@,
            q_param.key@.len() as int,
        ),
        r == Err::<Vec<QueryRequest>, ChainError>(ChainError::MalformedQuery)
            ==> final(counters).key_usage == old(counters).key_usage,
        exists|p: int| 0 <= p <= q_param.key@.len() && usage_bumped_to(
            old(counters).key_usage@,
            final(counters).key_usage@,
            q_param.key@,
            p,
        ),
        r == Err::<Vec<QueryRequest>, ChainError>(ChainError::MalformedQuery) <==> q_param.key@
            .len() != q_param.value@.len(),
        q_param.key@.len() == q_param.value@.len() ==> (r is Ok <==> (forall|j: int|
            0 <= j < q_param.key@.len() ==> inputs_parse_ok(
            qstr_bytes(#[trigger] q_param.key@[j]@),
            opt_qstr_bytes(q_param.value@[j].0),
            opt_qstr_bytes(q_param.value@[j].1),
        ))),
        r == Err::<Vec<QueryRequest>, ChainError>(ChainError::UnknownAttribute) ==> (exists|
            j: int,
        | 0 <= j < q_param.key@.len() && crate::block::spec_parse_attribute(
            qstr_bytes(#[trigger] q_param.key@[j]@),
        ) is Err),
        r == Err::<Vec<QueryRequest>, ChainError>(ChainError::BadRangeBound) ==> (exists|
            j: int,
        | 0 <= j < q_param.key@.len() && !inputs_parse_ok(
            qstr_bytes(#[trigger] q_param.key@[j]@),
            opt_qstr_bytes(q_param.value@[j].0),
            opt_qstr_bytes(q_param.value@[j].1),
        ) && crate::block::spec_parse_attribute(qstr_bytes(q_param.key@[j]@)) is Ok),
        match r {
            Ok(reqs) => {
                &&& reqs@.len() == q_param.key@.len()
                &&& forall|j: int| 0 <= j < reqs@.len() ==> req_wf(#[trigger] reqs@[j])
                &&& forall|j: int| 0 <= j < reqs@.len() ==> req_from(
                    #[trigger] reqs@[j],
                    qstr_bytes(q_param.key@[j]@),
                    opt_qstr_bytes(q_param.value@[j].0),
                    opt_qstr_bytes(q_param.value@[j].1),
                )
            },
            Err(e) => e == ChainError::MalformedQuery || e == ChainError::UnknownAttribute || e
                == ChainError::BadRangeBound,
        },
{
    if q_param.key.len() != q_param.value.len() {
        proof {
            assert(usage_bumped_to(
                old(counters).key_usage@,
                counters.key_usage@,
                q_param.key@,
                0,
            ));
        }
        return Err(ChainError::MalformedQuery);
    }
    let mut reqs: Vec<QueryRequest> = Vec::new();
    let mut i: usize = 0;
    while i < q_param.key.len()
        invariant
            i <= q_param.key@.len(),
            q_param.key@.len() == q_param.value@.len(),
            reqs@.len() == i,
            counters.query_counter == old(counters).query_counter,
            counters.block_access == old(counters).block_access,
            usage_bumped_to(
                old(counters).key_usage@,
                counters.key_usage@,
                q_param.key@,
                i as int,
            ),
            forall|j: int| 0 <= j < i ==> req_wf(#[trigger] reqs@[j]),
            forall|j: int| 0 <= j < i ==> req_from(
                #[trigger] reqs@[j],
                qstr_bytes(q_param.key@[j]@),
                opt_qstr_bytes(q_param.value@[j].0),
                opt_qstr_bytes(q_param.value@[j].1),
            ),
            forall|j: int| 0 <= j < i ==> inputs_parse_ok(
                qstr_bytes(#[trigger] q_param.key@[j]@),
                opt_qstr_bytes(q_param.value@[j].0),
                opt_qstr_bytes(q_param.value@[j].1),
            ),
        decreases q_param.key@.len() - i,
    {
        let kb = q_param.key[i].as_str().as_bytes_vec();
        let attr = match crate::block::parse_attribute(&kb) {
            Ok(a) => a,
            Err(e) => {
                return Err(e);
            },
        };
        let ghost pre_usage = counters.key_usage@;
        counters.bump_key(attr);
        proof {
            assert forall|a: Attribute| usage_of(counters.key_usage@, a) == sat_inc_n(
                usage_of(old(counters).key_usage@, a),
                key_occurrences(q_param.key@, a, i + 1),
            ) by {
                assert(crate::block::spec_parse_attribute(qstr_bytes(q_param.key@[i as int]@))
                    == Ok::<Attribute, ChainError>(attr));
                if a == attr {
                    assert(key_occurrences(q_param.key@, a, i + 1) == key_occurrences(
                        q_param.key@,
                        a,
                        i as int,
                    ) + 1);
                    assert(usage_of(counters.key_usage@, a) == sat_inc(usage_of(pre_usage, a)));
                } else {
                    assert(key_occurrences(q_param.key@, a, i + 1) == key_occurrences(
                        q_param.key@,
                        a,
                        i as int,
                    ));
                    assert(usage_of(counters.key_usage@, a) == usage_of(pre_usage, a));
                }
            }
            assert(usage_bumped_to(
                old(counters).key_usage@,
                counters.key_usage@,
                q_param.key@,
                i + 1,
            ));
        }
        let is_addr = attribute_eq(attr, Attribute::Address);
        let rq: QueryRequest = if is_addr {
            let tlo: Option<Vec<u8>> = match &q_param.value[i].0 {
                Some(s) => Some(s.as_str().as_bytes_vec()),
                None => None,
            };
            let thi: Option<Vec<u8>> = match &q_param.value[i].1 {
                Some(s) => Some(s.as_str().as_bytes_vec()),
                None => None,
            };
            QueryRequest { key: attr, bounds: ReqBounds::Text(tlo, thi) }
        } else {
            let nlo: Option<u64> = match &q_param.value[i].0 {
                Some(s) => {
                    let b = s.as_str().as_bytes_vec();
                    match parse_u64(&b) {
                        Some(v) => Some(v),
                        None => {
                            return Err(ChainError::BadRangeBound);
                        },
                    }
                },
                None => None,
            };
            let nhi: Option<u64> = match &q_param.value[i].1 {
                Some(s) => {
                    let b = s.as_str().as_bytes_vec();
                    match parse_u64(&b) {
                        Some(v) => Some(v),
                        None => {
                            return Err(ChainError::BadRangeBound);
                        },
                    }
                },
                None => None,
            };
            QueryRequest { key: attr, bounds: ReqBounds::Numeric(nlo, nhi) }
        };
        reqs.push(rq);
        i += 1;
    }
    Ok(reqs)
}

/// What the header filter must report for a transaction that a block
/// holds: its id bytes, its address bytes, and its value bytes.
pub open spec fn header_covers(bf: SeededBloomFilter, t: TxModel) -> bool {
    &&& bf.has(vstd::bytes::spec_u64_to_le_bytes(t.id))
    &&& bf.has(t.address)
    &&& bf.has(vstd::bytes::spec_u64_to_le_bytes(t.trans_value))
}

/// Every filter that carries the stored header's filter model covers
/// the stored block's transactions.  This is the hypothesis under
/// which pruning by the header filter drops no matching block.
pub open spec fn header_filter_covers(m: crate::store::StoreModel, id: u64) -> bool {
    match (crate::store::assoc_get(m.headers, id), crate::store::assoc_get(m.datas, id)) {
        (Some(hm), Some(dm)) => forall|bf: SeededBloomFilter, t: TxModel|
            crate::block::bloom_model(bf) == hm.bmt_root && bf.wf() && dm.txs.contains(t)
                ==> #[trigger] header_covers(bf, t),
        _ => true,
    }
}

/// The pruning hypothesis over every stored block at once.
pub open spec fn store_filters_cover(m: crate::store::StoreModel) -> bool {
    forall|id: u64| #[trigger] header_filter_covers(m, id)
}

/// Whether a single predicate might be satisfied inside the block,
/// judged by the header filter alone.
pub open spec fn req_present(rq: QueryRequest, bf: SeededBloomFilter) -> bool {
    match rq.bounds {
        ReqBounds::Numeric(lo, hi) => {
            if rq.key == Attribute::Timestamp {
                false
            } else if lo is None || hi is None {
                true
            } else if hi->0 <= lo->0 {
                false
            } else if hi->0 - lo->0 > BLOOM_PROBE_LIMIT {
                true
            } else {
                exists|v: u64| lo->0 <= v < hi->0 && bf.has(
                    #[trigger] vstd::bytes::spec_u64_to_le_bytes(v),
                )
            }
        },
        ReqBounds::Text(lo, hi) => {
            if rq.key != Attribute::Address {
                false
            } else if lo is Some && hi is Some && hi->0@ == lo->0@.push(0u8) {
                bf.has(lo->0@)
            } else {
                true
            }
        },
    }
}

/// Whether the block might hold a transaction satisfying the
/// predicates: no stored-attribute predicate at all, or some predicate
/// the filter cannot rule out.
pub open spec fn spec_judge(reqs: Seq<QueryRequest>, bf: SeededBloomFilter) -> bool {
    !has_non_ts(reqs) || (exists|j: int| 0 <= j < reqs.len()
        && (#[trigger] reqs[j]).key != Attribute::Timestamp && req_present(reqs[j], bf))
}

/// A byte string at or past `b` but before `b` followed by a zero byte
/// is `b` itself.
proof fn lemma_singleton_text(a: Seq<u8>, b: Seq<u8>)
    requires
        !crate::intra::bytes_lt(a, b),
        crate::intra::bytes_lt(a, b.push(0u8)),
    ensures a == b,
    decreases b.len(),
{
    if b.len() == 0 {
        if a.len() > 0 {
            assert(b.push(0u8).len() == 1);
            assert(b.push(0u8).first() == 0u8);
            if a.first() > 0 {
                assert(!crate::intra::bytes_lt(a, b.push(0u8)));
                assert(false);
            } else {
                assert(a.first() == 0u8);
                assert(b.push(0u8).drop_first() =~= Seq::<u8>::empty());
                assert(crate::intra::bytes_lt(a.drop_first(), Seq::<u8>::empty()) == false);
                assert(!crate::intra::bytes_lt(a, b.push(0u8)));
                assert(false);
            }
        }
        assert(a =~= b);
    } else {
        assert(b.push(0u8).first() == b.first());
        if a.len() == 0 {
            assert(crate::intra::bytes_lt(a, b));
            assert(false);
        }
        if a.first() < b.first() {
            assert(crate::intra::bytes_lt(a, b));
            assert(false);
        }
        if a.first() > b.first() {
            assert(!crate::intra::bytes_lt(a, b.push(0u8)));
            assert(false);
        }
        assert(a.first() == b.first());
        assert(b.push(0u8).drop_first() =~= b.drop_first().push(0u8));
        assert(!crate::intra::bytes_lt(a.drop_first(), b.drop_first()));
        assert(crate::intra::bytes_lt(a.drop_first(), b.drop_first().push(0u8)));
        lemma_singleton_text(a.drop_first(), b.drop_first());
        assert(a.len() == b.len());
        assert forall|w: int| 0 <= w < a.len() implies a[w] == b[w] by {
            if w == 0 {
            } else {
                assert(a.drop_first()[w - 1] == b.drop_first()[w - 1]);
            }
        }
        assert(a =~= b);
    }
}

/// Pruning is safe: a block holding a transaction that the header
/// filter covers and that satisfies every stored-attribute predicate is
/// never judged absent.
pub proof fn lemma_bloom_prune_safe(reqs: Seq<QueryRequest>, bf: SeededBloomFilter, t: TxModel)
    requires
        forall|j: int| 0 <= j < reqs.len() ==> req_wf(#[trigger] reqs[j]),
        header_covers(bf, t),
        conj_matches(t, reqs),
    ensures spec_judge(reqs, bf),
{
    if has_non_ts(reqs) {
        let j = choose|j: int| 0 <= j < reqs.len() && (#[trigger] reqs[j]).key
            != Attribute::Timestamp;
        let rq = reqs[j];
        assert(tx_matches(t, rq));
        match rq.bounds {
            ReqBounds::Numeric(lo, hi) => {
                let v: u64 = if rq.key == Attribute::Id {
                    t.id
                } else {
                    t.trans_value
                };
                assert(rq.key == Attribute::Id || rq.key == Attribute::Value);
                if lo is Some && hi is Some {
                    assert(lo->0 <= v < hi->0);
                    if hi->0 - lo->0 <= BLOOM_PROBE_LIMIT {
                        assert(bf.has(vstd::bytes::spec_u64_to_le_bytes(v)));
                        assert(req_present(rq, bf));
                    }
                }
                assert(req_present(rq, bf));
            },
            ReqBounds::Text(lo, hi) => {
                assert(rq.key == Attribute::Address);
                if lo is Some && hi is Some && hi->0@ == lo->0@.push(0u8) {
                    assert(!crate::intra::bytes_lt(t.address, lo->0@));
                    assert(crate::intra::bytes_lt(t.address, hi->0@));
                    lemma_singleton_text(t.address, lo->0@);
                    assert(bf.has(lo->0@));
                }
                assert(req_present(rq, bf));
            },
        }
        assert(spec_judge(reqs, bf));
    }
}

/// Judge whether the block behind this header filter might hold a
/// satisfying transaction: probe the literal of an exact address
/// predicate, every integer of a narrow numeric range, and give wide or
/// unbounded predicates the benefit of the doubt.
pub fn judge_contain_key(requests: &Vec<QueryRequest>, bf: &SeededBloomFilter) -> (r: bool)
    requires
        bf.wf(),
        forall|j: int| 0 <= j < requests@.len() ==> req_wf(#[trigger] requests@[j]),
    ensures r == spec_judge(requests@, *bf),
{
    let mut saw_non_ts = false;
    let mut i: usize = 0;
    while i < requests.len()
        invariant
            i <= requests@.len(),
            bf.wf(),
            forall|j: int| 0 <= j < requests@.len() ==> req_wf(#[trigger] requests@[j]),
            saw_non_ts == (exists|j: int| 0 <= j < i && (#[trigger] requests@[j]).key
                != Attribute::Timestamp),
            forall|j: int| 0 <= j < i && (#[trigger] requests@[j]).key != Attribute::Timestamp
                ==> !req_present(requests@[j], *bf),
        decreases requests@.len() - i,
    {
        let rq = &requests[i];
        let is_ts = attribute_eq(rq.key, Attribute::Timestamp);
        if !is_ts {
            saw_non_ts = true;
            let present: bool = match &rq.bounds {
                ReqBounds::Numeric(lo, hi) => {
                    match (lo, hi) {
                        (Some(l), Some(h)) => {
                            if *h <= *l {
                                false
                            } else if *h - *l > BLOOM_PROBE_LIMIT {
                                true
                            } else {
                                let mut v: u64 = *l;
                                let mut hit = false;
                                while v < *h
                                    invariant
                                        bf.wf(),
                                        *l <= v <= *h,
                                        hit == (exists|w: u64| *l <= w < v && bf.has(
                                            #[trigger] vstd::bytes::spec_u64_to_le_bytes(w),
                                        )),
                                    decreases *h - v,
                                {
                                    if !hit {
                                        let probe = vstd::bytes::u64_to_le_bytes(v);
                                        if bf.contains(&probe) {
                                            hit = true;
                                            proof {
                                                assert(bf.has(
                                                    vstd::bytes::spec_u64_to_le_bytes(v),
                                                ));
                                            }
                                        }
                                    }
                                    v += 1;
                                }
                                hit
                            }
                        },
                        _ => true,
                    }
                },
                ReqBounds::Text(lo, hi) => {
                    match (lo, hi) {
                        (Some(l), Some(h)) => {
                            let lens_ok = h.len() > l.len() && h.len() - l.len() == 1;
                            let mut singleton = false;
                            if lens_ok {
                                let mut eq = true;
                                let mut q: usize = 0;
                                while q < l.len() && eq
                                    invariant
                                        q <= l@.len(),
                                        l@.len() < h@.len(),
                                        h@.len() - l@.len() == 1,
                                        eq ==> (forall|w: int| 0 <= w < q
                                            ==> l@[w] == h@[w]),
                                        !eq ==> h@ != l@.push(0u8),
                                    decreases l@.len() - q,
                                {
                                    if l[q] != h[q] {
                                        proof {
                                            assert(l@.push(0u8)[q as int] == l@[q as int]);
                                        }
                                        eq = false;
                                    }
                                    q += 1;
                                }
                                if eq && h[h.len() - 1] == 0u8 {
                                    singleton = true;
                                    proof {
                                        assert(h@ =~= l@.push(0u8));
                                    }
                                } else {
                                    proof {
                                        if h@ == l@.push(0u8) {
                                            assert(forall|w: int| 0 <= w < l@.len()
                                                ==> l@.push(0u8)[w] == l@[w]);
                                            assert(h@[h@.len() - 1] == 0u8);
                                        }
                                    }
                                }
                            } else {
                                proof {
                                    if h@ == l@.push(0u8) {
                                        assert(h@.len() == l@.len() + 1);
                                    }
                                }
                            }
                                                        proof {
                                assert(singleton == (h@ == l@.push(0u8)));
                            }
                            if singleton {
                                bf.contains(l)
                            } else {
                                true
                            }
                        },
                        _ => true,
                    }
                },
            };
            if present {
                proof {
                    assert(req_present(requests@[i as int], *bf));
                }
                return true;
            }
        }
        i += 1;
    }
    !saw_non_ts
}

/// Whether every materialized map of this family belongs to the block.
pub open spec fn intra_ok_for(maps: Seq<(Attribute, BTreeModel)>, txm: Seq<TxModel>) -> bool {
    forall|e: int| 0 <= e < maps.len() ==> crate::intra::btree_model_matches(
        (#[trigger] maps[e]).1,
        txm,
        maps[e].0,
    )
}

/// Answer the stored-attribute predicates inside one block: scan a
/// materialized map for the first predicate that has one, or the block
/// itself, then keep the candidates satisfying every predicate.
pub fn query_in_block(
    reqs: &Vec<QueryRequest>,
    block_data: &BlockData,
    intra: &IntraIndex,
    use_intra: bool,
) -> (r: Vec<Transaction>)
    requires
        use_intra ==> intra_ok_for(
            crate::store::intra_entries_model(*intra),
            block_data.txs@.map_values(|t: Transaction| tx_model(t)),
        ),
    ensures
        ({
            let txm = block_data.txs@.map_values(|t: Transaction| tx_model(t));
            &&& (!has_non_ts(reqs@) ==> r@.len() == 0)
            &&& forall|j: int| #![trigger r@[j]] 0 <= j < r@.len() ==> txm.contains(
                tx_model(r@[j]),
            ) && conj_matches(tx_model(r@[j]), reqs@)
            &&& (!use_intra || intra.index@.len() == 0) && has_non_ts(reqs@)
                ==> r@.map_values(|t: Transaction| tx_model(t)) == conj_txs(txm, reqs@)
        }),
{
    let ghost txm = block_data.txs@.map_values(|t: Transaction| tx_model(t));
    // Find a stored-attribute predicate at all.
    let mut any_non_ts = false;
    let mut i: usize = 0;
    while i < reqs.len()
        invariant
            i <= reqs@.len(),
            any_non_ts == (exists|j: int| 0 <= j < i && (#[trigger] reqs@[j]).key
                != Attribute::Timestamp),
        decreases reqs@.len() - i,
    {
        if !attribute_eq(reqs[i].key, Attribute::Timestamp) {
            any_non_ts = true;
        }
        i += 1;
    }
    if !any_non_ts {
        let empty: Vec<Transaction> = Vec::new();
        return empty;
    }
    // Use a materialized map for the first predicate that has one.
    if use_intra {
        let mut j: usize = 0;
        while j < reqs.len()
            invariant
                j <= reqs@.len(),
                use_intra,
                txm == block_data.txs@.map_values(|t: Transaction| tx_model(t)),
                intra_ok_for(crate::store::intra_entries_model(*intra), txm),
                has_non_ts(reqs@),
            decreases reqs@.len() - j,
        {
            let rq = &reqs[j];
            if !attribute_eq(rq.key, Attribute::Timestamp) {
                let mut e: usize = 0;
                while e < intra.index.len()
                    invariant
                        e <= intra.index@.len(),
                        use_intra,
                        has_non_ts(reqs@),
                        intra_ok_for(crate::store::intra_entries_model(*intra), txm),
                        txm == block_data.txs@.map_values(|t: Transaction| tx_model(t)),
                        0 <= j < reqs@.len(),
                    decreases intra.index@.len() - e,
                {
                    if attribute_eq(intra.index[e].0, rq.key) {
                        let out = query_with_intra_index(&intra.index[e].1, rq, reqs);
                        proof {
                            assert(crate::store::intra_entries_model(*intra)[e as int].1
                                == btree_model(intra.index@[e as int].1));
                            assert(crate::intra::btree_model_matches(
                                btree_model(intra.index@[e as int].1),
                                txm,
                                intra.index@[e as int].0,
                            ));
                            assert forall|q: int| #![trigger out@[q]] 0 <= q < out@.len()
                                implies txm.contains(tx_model(out@[q])) && conj_matches(
                                tx_model(out@[q]),
                                reqs@,
                            ) by {
                                lemma_btree_txs_subset(
                                    btree_model(intra.index@[e as int].1),
                                    txm,
                                    intra.index@[e as int].0,
                                    tx_model(out@[q]),
                                );
                            }
                        }
                        return out;
                    }
                    e += 1;
                }
            }
            j += 1;
        }
    }
    let out = query_no_intra_index(block_data, reqs);
    proof {
        lemma_conj_txs_subset(txm, reqs@);
        assert forall|q: int| #![trigger out@[q]] 0 <= q < out@.len() implies txm.contains(
            tx_model(out@[q]),
        ) && conj_matches(tx_model(out@[q]), reqs@) by {
            assert(out@.map_values(|t: Transaction| tx_model(t))[q] == tx_model(out@[q]));
            assert(conj_txs(txm, reqs@)[q] == tx_model(out@[q]));
        }
    }
    out
}

/// Anything a sound map holds is a transaction of its block.
proof fn lemma_btree_txs_subset(
    bm: BTreeModel,
    txm: Seq<TxModel>,
    a: Attribute,
    t: TxModel,
)
    requires
        crate::intra::btree_model_matches(bm, txm, a),
        btree_txs(bm).contains(t),
    ensures txm.contains(t),
{
    match bm {
        BTreeModel::U64(entries) => {
            let j = choose|j: int| 0 <= j < btree_txs(bm).len() && btree_txs(bm)[j] == t;
            assert(entries.map_values(|x: (u64, TxModel)| x.1)[j] == t);
            assert(entries[j].1 == t);
            let i = choose|i: int| 0 <= i < txm.len() && txm[i] == entries[j].1
                && crate::intra::num_key_of(a, txm[i]) == entries[j].0;
            assert(txm[i] == t);
        },
        BTreeModel::Text(entries) => {
            let j = choose|j: int| 0 <= j < btree_txs(bm).len() && btree_txs(bm)[j] == t;
            assert(entries.map_values(|x: (Seq<u8>, TxModel)| x.1)[j] == t);
            assert(entries[j].1 == t);
            let i = choose|i: int| 0 <= i < txm.len() && txm[i] == entries[j].1
                && txm[i].address == entries[j].0;
            assert(txm[i] == t);
        },
    }
}

/// Everything the linear scan returns is a transaction of the block.
proof fn lemma_conj_txs_subset(txm: Seq<TxModel>, reqs: Seq<QueryRequest>)
    ensures
        forall|j: int| #![trigger conj_txs(txm, reqs)[j]] 0 <= j < conj_txs(txm, reqs).len()
            ==> txm.contains(conj_txs(txm, reqs)[j]) && conj_matches(conj_txs(txm, reqs)[j], reqs),
    decreases txm.len(),
{
    if txm.len() > 0 {
        lemma_conj_txs_subset(txm.drop_last(), reqs);
        let whole = conj_txs(txm, reqs);
        let front = conj_txs(txm.drop_last(), reqs);
        assert forall|j: int| #![trigger whole[j]] 0 <= j < whole.len() implies txm.contains(
            whole[j],
        ) && conj_matches(whole[j], reqs) by {
            if j < front.len() {
                assert(txm.drop_last().contains(front[j]));
                let e = choose|e: int| 0 <= e < txm.drop_last().len() && txm.drop_last()[e]
                    == front[j];
                assert(txm[e] == whole[j]);
            } else {
                assert(whole[j] == txm.last());
                assert(txm[txm.len() - 1] == whole[j]);
            }
        }
    }
}


/// One block's answer: the block id and the satisfying transactions.
pub struct BlockTxs {
    pub block_id: u64,
    pub txs: Vec<Transaction>,
}

/// The per-block answers of one query, highest block first.
pub struct ResultTxs(pub Vec<BlockTxs>);

impl ResultTxs {
    /// An empty answer.
    pub fn new() -> (r: ResultTxs)
        ensures r.0@.len() == 0,
    {
        ResultTxs(Vec::new())
    }
}

/// Everything a query hands back: the answers, the predicates as they
/// were applied, the measured time, and the switches that were on.
pub struct OverallResult {
    pub res_txs: ResultTxs,
    pub requests: Vec<QueryRequest>,
    pub query_time_ms: u64,
    pub use_inter_index: bool,
    pub use_intra_index: bool,
    pub vo_size: usize,
}

/// A stored value sits somewhere in its association list.
proof fn lemma_assoc_get_mem<K, V>(s: Seq<(K, V)>, k: K)
    requires crate::store::assoc_get(s, k) is Some,
    ensures
        exists|i: int| 0 <= i < s.len() && (#[trigger] s[i]).0 == k && s[i].1
            == crate::store::assoc_get(s, k)->0,
    decreases s.len(),
{
    if s.last().0 == k {
        assert(s[s.len() - 1].0 == k);
    } else {
        lemma_assoc_get_mem(s.drop_last(), k);
        let i = choose|i: int| 0 <= i < s.drop_last().len() && (#[trigger] s.drop_last()[i]).0
            == k && s.drop_last()[i].1 == crate::store::assoc_get(s.drop_last(), k)->0;
        assert(s[i].0 == k);
    }
}

/// Every materialized family in the store belongs to the block data
/// stored under the same id; a family for an unknown block is empty.
pub open spec fn store_intra_consistent(m: crate::store::StoreModel) -> bool {
    forall|i: int| 0 <= i < m.intra.len() ==> (match crate::store::assoc_get(
        m.datas,
        (#[trigger] m.intra[i]).0,
    ) {
        Some(dm) => intra_ok_for(m.intra[i].1, dm.txs),
        None => m.intra[i].1.len() == 0,
    })
}

/// Whether a whole answer is sound against a store: every entry names a
/// stored block whose header passes the timestamp predicates, and every
/// returned transaction is that block's and satisfies every
/// stored-attribute predicate.
pub open spec fn result_sound(
    entries: Seq<BlockTxs>,
    reqs: Seq<QueryRequest>,
    m: crate::store::StoreModel,
) -> bool {
    forall|e: int| #![trigger entries[e]] 0 <= e < entries.len() ==> {
        &&& (match crate::store::assoc_get(m.datas, entries[e].block_id) {
            Some(dm) => forall|t: int| #![trigger entries[e].txs@[t]] 0 <= t
                < entries[e].txs@.len() ==> dm.txs.contains(tx_model(entries[e].txs@[t]))
                && conj_matches(tx_model(entries[e].txs@[t]), reqs),
            None => false,
        })
        &&& (match crate::store::assoc_get(m.headers, entries[e].block_id) {
            Some(hm) => ts_matches(hm.time_stamp, reqs),
            None => false,
        })
    }
}

/// Whether an answer is complete over a block id range: every stored
/// block in the range whose data holds a satisfying transaction appears
/// as an entry carrying exactly the satisfying transactions.
pub open spec fn result_complete(
    entries: Seq<BlockTxs>,
    reqs: Seq<QueryRequest>,
    m: crate::store::StoreModel,
    lo: u64,
    hi: u64,
) -> bool {
    forall|id: u64| lo <= id <= hi && crate::store::assoc_get(m.headers, id) is Some
        && #[trigger] crate::store::assoc_get(m.datas, id) is Some && conj_txs(
        crate::store::assoc_get(m.datas, id)->0.txs,
        reqs,
    ).len() > 0 ==> (exists|e: int| 0 <= e < entries.len() && (#[trigger] entries[e]).block_id
        == id && entries[e].txs@.map_values(|t: Transaction| tx_model(t)) == conj_txs(
        crate::store::assoc_get(m.datas, id)->0.txs,
        reqs,
    ))
}

/// Completeness over a block window for queries that may carry a
/// timestamp predicate: every present block in the window whose
/// timestamp passes every bound contributes its exact matching
/// transactions.
pub open spec fn result_complete_ts(
    entries: Seq<BlockTxs>,
    reqs: Seq<QueryRequest>,
    m: crate::store::StoreModel,
    lo: u64,
    hi: u64,
) -> bool {
    forall|id: u64| lo <= id <= hi && crate::store::assoc_get(m.headers, id) is Some
        && #[trigger] crate::store::assoc_get(m.datas, id) is Some && ts_matches(
        crate::store::assoc_get(m.headers, id)->0.time_stamp,
        reqs,
    ) && conj_txs(crate::store::assoc_get(m.datas, id)->0.txs, reqs).len() > 0
        ==> (exists|e: int| 0 <= e < entries.len() && (#[trigger] entries[e]).block_id
        == id && entries[e].txs@.map_values(|t: Transaction| tx_model(t)) == conj_txs(
        crate::store::assoc_get(m.datas, id)->0.txs,
        reqs,
    ))
}

/// Whether any query key of the raw surface names the timestamp.
pub open spec fn has_ts_input(q: QueryParam) -> bool {
    exists|j: int| 0 <= j < q.key@.len() && crate::block::spec_parse_attribute(
        qstr_bytes(#[trigger] q.key@[j]@),
    ) == Ok::<Attribute, ChainError>(Attribute::Timestamp)
}

/// Whether any predicate names the timestamp.
pub open spec fn has_ts(reqs: Seq<QueryRequest>) -> bool {
    exists|j: int| 0 <= j < reqs.len() && (#[trigger] reqs[j]).key == Attribute::Timestamp
}

/// Answer one block id: read its header, apply the timestamp
/// predicates and, when asked, the header filter; on a kept block read
/// its data and maps and collect the satisfying transactions.
fn scan_block<T: ReadInterface>(
    chain: &T,
    reqs: &Vec<QueryRequest>,
    id: u64,
    use_bloom: bool,
    use_intra: bool,
) -> (r: Result<Option<BlockTxs>, ChainError>)
    requires
        chain.inv(),
        store_intra_consistent(chain.sview()),
        forall|j: int| 0 <= j < reqs@.len() ==> req_wf(#[trigger] reqs@[j]),
    ensures
        crate::store::assoc_get(chain.sview().headers, id) is Some && crate::store::assoc_get(
            chain.sview().datas,
            id,
        ) is Some ==> r is Ok,
        match r {
            Ok(Some(bt)) => {
                &&& bt.block_id == id
                &&& crate::store::assoc_get(chain.sview().headers, id) is Some
                &&& ts_matches(
                    crate::store::assoc_get(chain.sview().headers, id)->0.time_stamp,
                    reqs@,
                )
                &&& (match crate::store::assoc_get(chain.sview().datas, id) {
                    Some(dm) => {
                        &&& (forall|t: int| #![trigger bt.txs@[t]] 0 <= t < bt.txs@.len()
                            ==> dm.txs.contains(tx_model(bt.txs@[t])) && conj_matches(
                            tx_model(bt.txs@[t]),
                            reqs@,
                        ))
                        &&& (!use_intra && has_non_ts(reqs@) ==> bt.txs@
                            .map_values(|t: Transaction| tx_model(t)) == conj_txs(
                            dm.txs,
                            reqs@,
                        ))
                    },
                    None => false,
                })
            },
            Ok(None) => {
                // The block was filtered out; with both switches off this
                // only happens when its header is missing no predicate...
                // rather: the header is present and either its timestamp
                // fails, or pruning or an absent map family intervened.
                &&& crate::store::assoc_get(chain.sview().headers, id) is Some
                &&& (!use_bloom && !use_intra ==> (
                    !ts_matches(
                        crate::store::assoc_get(chain.sview().headers, id)->0.time_stamp,
                        reqs@,
                    ) || (match crate::store::assoc_get(chain.sview().datas, id) {
                        Some(dm) => conj_txs(dm.txs, reqs@).len() == 0,
                        None => false,
                    })))
                &&& (header_filter_covers(chain.sview(), id) ==> (
                    !ts_matches(
                        crate::store::assoc_get(chain.sview().headers, id)->0.time_stamp,
                        reqs@,
                    ) || (match crate::store::assoc_get(chain.sview().datas, id) {
                        Some(dm) => conj_txs(dm.txs, reqs@).len() == 0,
                        None => true,
                    })))
            },
            Err(e) => e == ChainError::StorageUnavailable,
        },
{
    let header = match chain.read_block_header(id) {
        Ok(h) => h,
        Err(_) => {
            return Err(ChainError::StorageUnavailable);
        },
    };
    // Timestamp predicates judge the whole block.
    let mut j: usize = 0;
    let mut ts_ok = true;
    while j < reqs.len()
        invariant
            j <= reqs@.len(),
            forall|q: int| 0 <= q < reqs@.len() ==> req_wf(#[trigger] reqs@[q]),
            ts_ok == (forall|q: int| 0 <= q < j && (#[trigger] reqs@[q]).key
                == Attribute::Timestamp ==> tx_matches(
                TxModel {
                    id: 0,
                    block_id: 0,
                    address: Seq::empty(),
                    trans_value: 0,
                    time_stamp: header.time_stamp,
                },
                reqs@[q],
            )),
        decreases reqs@.len() - j,
    {
        let rq = &reqs[j];
        if attribute_eq(rq.key, Attribute::Timestamp) {
            match &rq.bounds {
                ReqBounds::Numeric(lo, hi) => {
                    let above = match lo {
                        Some(l) => *l <= header.time_stamp,
                        None => true,
                    };
                    let below = match hi {
                        Some(h) => header.time_stamp < *h,
                        None => true,
                    };
                    if !(above && below) {
                        ts_ok = false;
                    }
                },
                ReqBounds::Text(_, _) => {
                    proof {
                        assert(req_wf(reqs@[j as int]));
                        assert(false);
                    }
                },
            }
        }
        j += 1;
    }
    if !ts_ok {
        return Ok(None);
    }
    proof {
        assert(ts_matches(header.time_stamp, reqs@));
        assert(header.time_stamp == crate::store::assoc_get(
            chain.sview().headers,
            id,
        )->0.time_stamp);
    }
    // The header filter may rule the block out entirely.
    if use_bloom {
        if header.bmt_root.check_wf() {
            if !judge_contain_key(reqs, &header.bmt_root) {
                proof {
                    let m = chain.sview();
                    if header_filter_covers(m, id) {
                        match crate::store::assoc_get(m.datas, id) {
                            Some(dm) => {
                                assert(crate::block::bloom_model(header.bmt_root)
                                    == crate::store::assoc_get(m.headers, id)->0.bmt_root);
                                assert forall|e: int| 0 <= e < dm.txs.len()
                                    implies !conj_matches(#[trigger] dm.txs[e], reqs@) by {
                                    if conj_matches(dm.txs[e], reqs@) {
                                        assert(dm.txs.contains(dm.txs[e]));
                                        assert(header_covers(header.bmt_root, dm.txs[e]));
                                        lemma_bloom_prune_safe(
                                            reqs@,
                                            header.bmt_root,
                                            dm.txs[e],
                                        );
                                    }
                                }
                                lemma_conj_txs_subset(dm.txs, reqs@);
                                if conj_txs(dm.txs, reqs@).len() > 0 {
                                    let t0 = conj_txs(dm.txs, reqs@)[0];
                                    assert(dm.txs.contains(t0));
                                    assert(conj_matches(t0, reqs@));
                                    let e = choose|e: int| 0 <= e < dm.txs.len()
                                        && dm.txs[e] == t0;
                                    assert(false);
                                }
                            },
                            None => {},
                        }
                    }
                }
                return Ok(None);
            }
        }
    }
    let block_data = match chain.read_block_data(id) {
        Ok(d) => d,
        Err(_) => {
            return Err(ChainError::StorageUnavailable);
        },
    };
    let intra = match chain.read_intra_index(id) {
        Ok(x) => x,
        Err(_) => {
            return Err(ChainError::StorageUnavailable);
        },
    };
    proof {
        if use_intra {
            let m = chain.sview();
            match crate::store::assoc_get(m.intra, id) {
                Some(maps) => {
                    lemma_assoc_get_mem(m.intra, id);
                    let i = choose|i: int| 0 <= i < m.intra.len() && (#[trigger] m.intra[i]).0
                        == id && m.intra[i].1 == maps;
                    assert(intra_ok_for(maps, block_data_model(block_data).txs));
                },
                None => {
                    assert(crate::store::intra_entries_model(intra) =~= Seq::<
                        (Attribute, BTreeModel),
                    >::empty());
                },
            }
            assert(intra_ok_for(
                crate::store::intra_entries_model(intra),
                block_data.txs@.map_values(|t: Transaction| tx_model(t)),
            ));
        }
    }
    let txs = query_in_block(reqs, &block_data, &intra, use_intra);
    Ok(Some(BlockTxs { block_id: id, txs }))
}


/// Answer one conjunctive range query: parse the surface, shortlist
/// candidate blocks by the learned index when a timestamp predicate is
/// present, walk the shortlist from the highest block down, prune with
/// the header filter when asked, scan each kept block, and trigger the
/// index manager every hundredth query.  Every returned transaction
/// belongs to its block and satisfies every predicate; with both
/// switches off and no timestamp predicate, the answer is exactly the
/// satisfying transactions of every stored block.
pub fn historical_query<T: ReadInterface + WriteInterface>(
    q_param: &QueryParam,
    chain: &mut T,
    counters: &mut QueryCounters,
) -> (r: Result<OverallResult, ChainError>)
    requires
        old(chain).inv(),
        store_intra_consistent(old(chain).sview()),
    ensures
        final(chain).inv(),
        store_intra_consistent(final(chain).sview()),
        final(chain).sview().headers == old(chain).sview().headers,
        final(chain).sview().datas == old(chain).sview().datas,
        final(counters).query_counter == (
        if sat_inc(old(counters).query_counter) >= QUERY_THRESHOLD {
            0u64
        } else {
            sat_inc(old(counters).query_counter)
        }),
        sat_inc(old(counters).query_counter) >= QUERY_THRESHOLD
            ==> final(counters).key_usage@.len() == 0,
        sat_inc(old(counters).query_counter) < QUERY_THRESHOLD ==> (exists|p: int|
            0 <= p <= q_param.key@.len() && usage_bumped_to(
            old(counters).key_usage@,
            final(counters).key_usage@,
            q_param.key@,
            p,
        )),
        r is Ok && sat_inc(old(counters).query_counter) < QUERY_THRESHOLD
            ==> usage_bumped_to(
            old(counters).key_usage@,
            final(counters).key_usage@,
            q_param.key@,
            q_param.key@.len() as int,
        ),
        forall|rr: int| 0 <= rr < old(counters).block_access@.len() - 1
            ==> (#[trigger] final(counters).block_access@[rr])@
            == old(counters).block_access@[rr]@,
        old(counters).block_access@.len() >= 1 ==> final(counters).block_access@.len()
            == old(counters).block_access@.len(),
        final(counters).block_access@.len() <= (if old(counters).block_access@.len() == 0 {
            1int
        } else {
            old(counters).block_access@.len() as int
        }),
        forall|o: int| #![trigger row_get(current_row(*final(counters)), o)]
            row_get(current_row(*final(counters)), o) == row_get(
            current_row(*old(counters)),
            o,
        ) || row_get(current_row(*final(counters)), o) == sat_inc(
            row_get(current_row(*old(counters)), o),
        ),
        r == Err::<OverallResult, ChainError>(ChainError::MalformedQuery) <==> q_param.key@
            .len() != q_param.value@.len(),
        r == Err::<OverallResult, ChainError>(ChainError::UnknownAttribute) ==> (exists|j: int|
            0 <= j < q_param.key@.len() && crate::block::spec_parse_attribute(
            qstr_bytes(#[trigger] q_param.key@[j]@),
        ) is Err),
        r == Err::<OverallResult, ChainError>(ChainError::BadRangeBound) ==> (exists|j: int|
            0 <= j < q_param.key@.len() && !inputs_parse_ok(
            qstr_bytes(#[trigger] q_param.key@[j]@),
            opt_qstr_bytes(q_param.value@[j].0),
            opt_qstr_bytes(q_param.value@[j].1),
        )),
        ({
            let p = old(chain).sview().parameter;
            let parse_ok = q_param.key@.len() == q_param.value@.len() && (forall|j: int|
                0 <= j < q_param.key@.len() ==> inputs_parse_ok(
                qstr_bytes(#[trigger] q_param.key@[j]@),
                opt_qstr_bytes(q_param.value@[j].0),
                opt_qstr_bytes(q_param.value@[j].1),
            ));
            let overflow = p.block_count >= 1 && p.start_block_id + p.block_count - 1
                > u64::MAX;
            let not_built = parse_ok && p.block_count >= 1 && !overflow && has_ts_input(
                *q_param,
            ) && p.inter_index && p.inter_index_timestamps.len() == 0;
            &&& (r == Err::<OverallResult, ChainError>(ChainError::InvalidParameter) <==> (
            parse_ok && overflow))
            &&& (r == Err::<OverallResult, ChainError>(ChainError::NotBuilt) <==> not_built)
            &&& (r == Err::<OverallResult, ChainError>(ChainError::StorageUnavailable) ==> (
            p.block_count >= 1 && !overflow && (exists|id: u64|
                p.start_block_id <= id <= crate::inter::spec_clamp(
                    p.start_block_id + p.block_count - 1,
                    0u64,
                    u64::MAX as u64,
                ) && (#[trigger] crate::store::assoc_get(old(chain).sview().headers, id)
                    is None || crate::store::assoc_get(old(chain).sview().datas, id)
                    is None))))
            &&& (parse_ok && (p.block_count == 0 || (!overflow && !not_built && (forall|
                id: u64,
            | p.start_block_id <= id <= crate::inter::spec_clamp(
                p.start_block_id + p.block_count - 1,
                0u64,
                u64::MAX as u64,
            ) ==> #[trigger] crate::store::assoc_get(old(chain).sview().headers, id) is Some
                && crate::store::assoc_get(old(chain).sview().datas, id) is Some)))
                ==> r is Ok)
        }),
        match r {
            Ok(res) => {
                &&& res.requests@.len() == q_param.key@.len()
                &&& q_param.key@.len() == q_param.value@.len()
                &&& (forall|j: int| 0 <= j < res.requests@.len() ==> req_wf(
                    #[trigger] res.requests@[j],
                ))
                &&& (forall|j: int| 0 <= j < res.requests@.len() ==> req_from(
                    #[trigger] res.requests@[j],
                    qstr_bytes(q_param.key@[j]@),
                    opt_qstr_bytes(q_param.value@[j].0),
                    opt_qstr_bytes(q_param.value@[j].1),
                ))
                &&& res.use_inter_index == q_param.bloom_filter
                &&& res.use_intra_index == q_param.intra_index
                &&& (forall|o: int| #![trigger row_get(current_row(*final(counters)), o)]
                    row_get(current_row(*final(counters)), o) != row_get(
                    current_row(*old(counters)),
                    o,
                ) ==> (exists|id2: u64| old(chain).sview().parameter.start_block_id <= id2
                    <= crate::inter::spec_clamp(
                    old(chain).sview().parameter.start_block_id + old(chain).sview()
                        .parameter.block_count - 1,
                    0u64,
                    u64::MAX as u64,
                ) && #[trigger] crate::store::assoc_get(old(chain).sview().headers, id2)
                    is Some && crate::store::assoc_get(old(chain).sview().datas, id2)
                    is Some && ts_matches(
                    crate::store::assoc_get(old(chain).sview().headers, id2)->0.time_stamp,
                    res.requests@,
                )))
                &&& result_sound(res.res_txs.0@, res.requests@, old(chain).sview())
                &&& (!q_param.bloom_filter && !q_param.intra_index && !has_ts(res.requests@)
                    && has_non_ts(res.requests@)
                    && old(chain).sview().parameter.block_count >= 1 ==> result_complete(
                    res.res_txs.0@,
                    res.requests@,
                    old(chain).sview(),
                    old(chain).sview().parameter.start_block_id,
                    (old(chain).sview().parameter.start_block_id + old(
                        chain,
                    ).sview().parameter.block_count - 1) as u64,
                ))
                &&& (q_param.bloom_filter && !q_param.intra_index && !has_ts(res.requests@)
                    && has_non_ts(res.requests@)
                    && store_filters_cover(old(chain).sview())
                    && old(chain).sview().parameter.block_count >= 1 ==> result_complete(
                    res.res_txs.0@,
                    res.requests@,
                    old(chain).sview(),
                    old(chain).sview().parameter.start_block_id,
                    (old(chain).sview().parameter.start_block_id + old(
                        chain,
                    ).sview().parameter.block_count - 1) as u64,
                ))
                &&& (q_param.bloom_filter && !q_param.intra_index
                    && has_non_ts(res.requests@)
                    && store_filters_cover(old(chain).sview())
                    && !old(chain).sview().parameter.inter_index
                    && old(chain).sview().parameter.block_count >= 1
                    ==> result_complete_ts(
                    res.res_txs.0@,
                    res.requests@,
                    old(chain).sview(),
                    old(chain).sview().parameter.start_block_id,
                    (old(chain).sview().parameter.start_block_id + old(
                        chain,
                    ).sview().parameter.block_count - 1) as u64,
                ))
                &&& (!q_param.bloom_filter && !q_param.intra_index
                    && has_non_ts(res.requests@)
                    && !old(chain).sview().parameter.inter_index
                    && old(chain).sview().parameter.block_count >= 1
                    ==> result_complete_ts(
                    res.res_txs.0@,
                    res.requests@,
                    old(chain).sview(),
                    old(chain).sview().parameter.start_block_id,
                    (old(chain).sview().parameter.start_block_id + old(
                        chain,
                    ).sview().parameter.block_count - 1) as u64,
                ))
            },
            Err(_) => true,
        },
{
    counters.query_counter = if counters.query_counter == u64::MAX {
        counters.query_counter
    } else {
        counters.query_counter + 1
    };
    let reqs = match extract_request(q_param, counters) {
        Ok(reqs) => reqs,
        Err(e) => {
            run_manager_hook(chain, counters);
            return Err(e);
        },
    };
    let param = match chain.get_parameter() {
        Ok(p) => p,
        Err(_) => {
            proof {
                assert(false);
            }
            return Err(ChainError::StorageUnavailable);
        },
    };
    let mut result = OverallResult {
        res_txs: ResultTxs::new(),
        requests: reqs,
        query_time_ms: 0,
        use_inter_index: q_param.bloom_filter,
        use_intra_index: q_param.intra_index,
        vo_size: 0,
    };
    if param.block_count == 0 {
        run_manager_hook(chain, counters);
        proof {
            assert(counters.block_access == old(counters).block_access);
            assert(current_row(*counters) == current_row(*old(counters)));
        }
        return Ok(result);
    }
    let first_id = param.start_block_id;
    let last_full = match param.start_block_id.checked_add(param.block_count - 1) {
        Some(v) => v,
        None => {
            run_manager_hook(chain, counters);
            return Err(ChainError::InvalidParameter);
        },
    };
    // A timestamp predicate narrows the candidate window through the
    // learned index where its segments are usable; any failure falls
    // back to the full range, which the per-block filters keep sound.
    let mut lo_id = first_id;
    let mut hi_id = last_full;
    let mut has_ts_req = false;
    let mut ts_lo: u64 = 0;
    let mut ts_hi: u64 = 0;
    let mut ts_bounded = false;
    let mut k: usize = 0;
    while k < result.requests.len()
        invariant
            k <= result.requests@.len(),
            has_ts_req == (exists|j: int| 0 <= j < k && (#[trigger] result.requests@[j]).key
                == Attribute::Timestamp),
        decreases result.requests@.len() - k,
    {
        let rq = &result.requests[k];
        if attribute_eq(rq.key, Attribute::Timestamp) {
            has_ts_req = true;
            match &rq.bounds {
                ReqBounds::Numeric(Some(l), Some(h)) => {
                    if !ts_bounded {
                        ts_lo = *l;
                        ts_hi = *h;
                        ts_bounded = true;
                    }
                },
                _ => {},
            }
        }
        k += 1;
    }
    proof {
        assert forall|j: int| 0 <= j < result.requests@.len() implies (
        (#[trigger] result.requests@[j]).key == Attribute::Timestamp
            <==> crate::block::spec_parse_attribute(qstr_bytes(q_param.key@[j]@))
            == Ok::<Attribute, ChainError>(Attribute::Timestamp)) by {
            assert(req_from(
                result.requests@[j],
                qstr_bytes(q_param.key@[j]@),
                opt_qstr_bytes(q_param.value@[j].0),
                opt_qstr_bytes(q_param.value@[j].1),
            ));
        }
        if has_ts_req {
            let j = choose|j: int| 0 <= j < result.requests@.len()
                && (#[trigger] result.requests@[j]).key == Attribute::Timestamp;
            assert(crate::block::spec_parse_attribute(qstr_bytes(q_param.key@[j]@))
                == Ok::<Attribute, ChainError>(Attribute::Timestamp));
            assert(has_ts_input(*q_param));
        }
        if has_ts_input(*q_param) {
            let j = choose|j: int| 0 <= j < q_param.key@.len()
                && crate::block::spec_parse_attribute(qstr_bytes(#[trigger] q_param.key@[j]@))
                == Ok::<Attribute, ChainError>(Attribute::Timestamp);
            assert(result.requests@[j].key == Attribute::Timestamp);
        }
        assert(has_ts_req == has_ts_input(*q_param));
    }
    if has_ts_req && param.inter_index && param.inter_index_timestamps.len() == 0 {
        // The learned index was never built: a timestamp predicate has
        // no segment list to consult.
        run_manager_hook(chain, counters);
        return Err(ChainError::NotBuilt);
    }
    if has_ts_req && ts_bounded && param.inter_index {
        match narrow_window(chain, &param, ts_lo, ts_hi, first_id, last_full) {
            Some((lo, hi)) => {
                lo_id = lo;
                hi_id = hi;
            },
            None => {},
        }
    }
    // Walk the window from the top down.
    let count = hi_id - lo_id + 1;
    let ghost m0 = chain.sview();
    let ghost reqs0 = result.requests@;
    let mut off: u64 = 0;
    while off < count
        invariant
            off <= count,
            count == hi_id - lo_id + 1,
            lo_id <= hi_id,
            result.requests@ == reqs0,
            result.use_inter_index == q_param.bloom_filter,
            result.use_intra_index == q_param.intra_index,
            counters.query_counter == sat_inc(old(counters).query_counter),
            usage_bumped_to(
                old(counters).key_usage@,
                counters.key_usage@,
                q_param.key@,
                q_param.key@.len() as int,
            ),
            first_id <= lo_id,
            hi_id <= last_full,
            q_param.key@.len() == q_param.value@.len(),
            forall|j: int| 0 <= j < q_param.key@.len() ==> inputs_parse_ok(
                qstr_bytes(#[trigger] q_param.key@[j]@),
                opt_qstr_bytes(q_param.value@[j].0),
                opt_qstr_bytes(q_param.value@[j].1),
            ),
            parameter_model(param) == old(chain).sview().parameter,
            param.block_count >= 1,
            last_full as int == param.start_block_id + param.block_count - 1,
            first_id == param.start_block_id,
            !(has_ts_input(*q_param) && param.inter_index
                && param.inter_index_timestamps@.len() == 0),
            chain.inv(),
            chain.sview() == m0,
            m0 == old(chain).sview(),
            store_intra_consistent(chain.sview()),
            forall|j: int| 0 <= j < result.requests@.len() ==> req_wf(
                #[trigger] result.requests@[j],
            ),
            result_sound(result.res_txs.0@, result.requests@, chain.sview()),
            (!q_param.bloom_filter || store_filters_cover(m0)) && !q_param.intra_index
                && has_non_ts(result.requests@)
                ==> (forall|id2: u64|
                hi_id - off < id2 <= hi_id && crate::store::assoc_get(
                    chain.sview().headers,
                    id2,
                ) is Some && #[trigger] crate::store::assoc_get(chain.sview().datas, id2)
                    is Some && conj_txs(
                    crate::store::assoc_get(chain.sview().datas, id2)->0.txs,
                    result.requests@,
                ).len() > 0 && ts_matches(
                    crate::store::assoc_get(chain.sview().headers, id2)->0.time_stamp,
                    result.requests@,
                ) ==> (exists|e: int| 0 <= e < result.res_txs.0@.len()
                    && (#[trigger] result.res_txs.0@[e]).block_id == id2
                    && result.res_txs.0@[e].txs@.map_values(|t: Transaction| tx_model(t))
                    == conj_txs(
                    crate::store::assoc_get(chain.sview().datas, id2)->0.txs,
                    result.requests@,
                ))),
            old(counters).block_access@.len() >= 1 ==> counters.block_access@.len()
                == old(counters).block_access@.len(),
            counters.block_access@.len() <= (if old(counters).block_access@.len() == 0 {
                1int
            } else {
                old(counters).block_access@.len() as int
            }),
            forall|rr: int| 0 <= rr < old(counters).block_access@.len() - 1
                ==> (#[trigger] counters.block_access@[rr])@
                == old(counters).block_access@[rr]@,
            forall|o: int| #![trigger row_get(current_row(*counters), o)]
                row_get(current_row(*counters), o) == row_get(current_row(*old(counters)), o)
                || row_get(current_row(*counters), o) == sat_inc(
                row_get(current_row(*old(counters)), o),
            ),
            forall|o: int| o <= hi_id - lo_id - off || o > hi_id - lo_id
                ==> row_get(current_row(*counters), o) == row_get(
                current_row(*old(counters)),
                o,
            ),
            forall|o: int| #![trigger row_get(current_row(*counters), o)]
                row_get(current_row(*counters), o) != row_get(current_row(*old(counters)), o)
                ==> (exists|id2: u64| lo_id <= id2 <= hi_id
                    && #[trigger] crate::store::assoc_get(m0.headers, id2) is Some
                    && crate::store::assoc_get(m0.datas, id2) is Some && ts_matches(
                    crate::store::assoc_get(m0.headers, id2)->0.time_stamp,
                    reqs0,
                )),
        decreases count - off,
    {
        let id = hi_id - off;
        let scanned = scan_block(
            chain,
            &result.requests,
            id,
            q_param.bloom_filter,
            q_param.intra_index,
        );
        match scanned {
            Ok(Some(bt)) => {
                let diff = id - lo_id;
                let ghost pre_cnt = *counters;
                if diff <= usize::MAX as u64 {
                    counters.record_block_access(diff as usize);
                    proof {
                        assert(row_get(current_row(pre_cnt), diff as int) == row_get(
                            current_row(*old(counters)),
                            diff as int,
                        ));
                        assert forall|o: int| #![trigger row_get(current_row(*counters), o)]
                            row_get(current_row(*counters), o) == row_get(
                            current_row(*old(counters)),
                            o,
                        ) || row_get(current_row(*counters), o) == sat_inc(
                            row_get(current_row(*old(counters)), o),
                        ) by {
                            if o != diff {
                                assert(row_get(current_row(*counters), o) == row_get(
                                    current_row(pre_cnt),
                                    o,
                                ));
                            }
                        }
                        assert forall|o: int| row_get(current_row(*counters), o) != row_get(
                            current_row(*old(counters)),
                            o,
                        ) implies (exists|id2: u64| lo_id <= id2 <= hi_id
                            && #[trigger] crate::store::assoc_get(m0.headers, id2) is Some
                            && crate::store::assoc_get(m0.datas, id2) is Some && ts_matches(
                            crate::store::assoc_get(m0.headers, id2)->0.time_stamp,
                            reqs0,
                        )) by {
                            if o != diff {
                                assert(row_get(current_row(*counters), o) == row_get(
                                    current_row(pre_cnt),
                                    o,
                                ));
                            } else {
                                assert(crate::store::assoc_get(m0.headers, id) is Some);
                                assert(crate::store::assoc_get(m0.datas, id) is Some);
                                assert(lo_id <= id <= hi_id);
                            }
                        }
                    }
                }
                if bt.txs.len() > 0 {
                    let ghost pre_entries = result.res_txs.0@;
                    result.res_txs.0.push(bt);
                    proof {
                        let entries = result.res_txs.0@;
                        assert(entries =~= pre_entries.push(entries.last()));
                        assert forall|e: int| #![trigger entries[e]] 0 <= e < entries.len()
                            implies ({
                            &&& (match crate::store::assoc_get(
                                chain.sview().datas,
                                entries[e].block_id,
                            ) {
                                Some(dm) => forall|t: int| #![trigger entries[e].txs@[t]]
                                    0 <= t < entries[e].txs@.len() ==> dm.txs.contains(
                                    tx_model(entries[e].txs@[t]),
                                ) && conj_matches(tx_model(entries[e].txs@[t]),
                                result.requests@),
                                None => false,
                            })
                            &&& (match crate::store::assoc_get(
                                chain.sview().headers,
                                entries[e].block_id,
                            ) {
                                Some(hm) => ts_matches(hm.time_stamp, result.requests@),
                                None => false,
                            })
                        }) by {
                            if e < entries.len() - 1 {
                                assert(entries[e] == pre_entries[e]);
                            }
                        }
                        if (!q_param.bloom_filter || store_filters_cover(m0))
                            && !q_param.intra_index && has_non_ts(result.requests@) {
                            assert forall|id2: u64| hi_id - (off + 1) < id2 <= hi_id
                                && crate::store::assoc_get(chain.sview().headers, id2)
                                is Some && #[trigger] crate::store::assoc_get(
                                chain.sview().datas,
                                id2,
                            ) is Some && conj_txs(
                                crate::store::assoc_get(chain.sview().datas, id2)->0.txs,
                                result.requests@,
                            ).len() > 0 && ts_matches(
                                crate::store::assoc_get(
                                    chain.sview().headers,
                                    id2,
                                )->0.time_stamp,
                                result.requests@,
                            ) implies (exists|e: int| 0 <= e < entries.len()
                                && (#[trigger] entries[e]).block_id == id2
                                && entries[e].txs@.map_values(|t: Transaction| tx_model(t))
                                == conj_txs(
                                crate::store::assoc_get(chain.sview().datas, id2)->0.txs,
                                result.requests@,
                            )) by {
                                if id2 == id {
                                    assert(entries[entries.len() - 1].block_id == id2);
                                    assert(entries[entries.len() - 1].txs@.map_values(
                                        |t: Transaction| tx_model(t),
                                    ) == conj_txs(
                                        crate::store::assoc_get(
                                            chain.sview().datas,
                                            id2,
                                        )->0.txs,
                                        result.requests@,
                                    ));
                                } else {
                                    let e0 = choose|e0: int| 0 <= e0 < pre_entries.len()
                                        && (#[trigger] pre_entries[e0]).block_id == id2
                                        && pre_entries[e0].txs@.map_values(
                                        |t: Transaction| tx_model(t),
                                    ) == conj_txs(
                                        crate::store::assoc_get(
                                            chain.sview().datas,
                                            id2,
                                        )->0.txs,
                                        result.requests@,
                                    );
                                    assert(entries[e0] == pre_entries[e0]);
                                }
                            }
                        }
                    }
                } else {
                    proof {
                        if (!q_param.bloom_filter || store_filters_cover(m0))
                            && !q_param.intra_index && has_non_ts(result.requests@) {
                            assert(conj_txs(
                                crate::store::assoc_get(chain.sview().datas, id)->0.txs,
                                result.requests@,
                            ).len() == bt.txs@.len());
                        }
                    }
                }
            },
            Ok(None) => {
                proof {
                    if store_filters_cover(m0) {
                        assert(header_filter_covers(m0, id));
                    }
                }
            },
            Err(e) => {
                proof {
                    assert(first_id <= id <= last_full);
                    assert(crate::store::assoc_get(chain.sview().headers, id) is None
                        || crate::store::assoc_get(chain.sview().datas, id) is None);
                    let p = old(chain).sview().parameter;
                    assert(crate::inter::spec_clamp(
                        p.start_block_id + p.block_count - 1,
                        0u64,
                        u64::MAX as u64,
                    ) == last_full);
                    assert(p.start_block_id <= id <= last_full);
                }
                let ghost cnt_err = *counters;
                run_manager_hook(chain, counters);
                proof {
                    assert(counters.block_access == cnt_err.block_access);
                    assert(current_row(*counters) == current_row(cnt_err));
                }
                return Err(e);
            },
        }
        off = off + 1;
    }
    let ghost entries_final = result.res_txs.0@;
    let ghost cnt_scan = *counters;
    run_manager_hook(chain, counters);
    proof {
        assert(counters.block_access == cnt_scan.block_access);
        assert(current_row(*counters) == current_row(cnt_scan));
        let p = old(chain).sview().parameter;
        assert(crate::inter::spec_clamp(
            p.start_block_id + p.block_count - 1,
            0u64,
            u64::MAX as u64,
        ) == last_full);
        assert forall|o: int| #![trigger row_get(current_row(*counters), o)]
            row_get(current_row(*counters), o) != row_get(current_row(*old(counters)), o)
            implies (exists|id2: u64| p.start_block_id <= id2 <= crate::inter::spec_clamp(
            p.start_block_id + p.block_count - 1,
            0u64,
            u64::MAX as u64,
        ) && #[trigger] crate::store::assoc_get(old(chain).sview().headers, id2) is Some
            && crate::store::assoc_get(old(chain).sview().datas, id2) is Some && ts_matches(
            crate::store::assoc_get(old(chain).sview().headers, id2)->0.time_stamp,
            result.requests@,
        )) by {
            assert(row_get(current_row(cnt_scan), o) != row_get(
                current_row(*old(counters)),
                o,
            ));
            let id2 = choose|id2: u64| lo_id <= id2 <= hi_id
                && #[trigger] crate::store::assoc_get(m0.headers, id2) is Some
                && crate::store::assoc_get(m0.datas, id2) is Some && ts_matches(
                crate::store::assoc_get(m0.headers, id2)->0.time_stamp,
                reqs0,
            );
            assert(p.start_block_id <= id2 <= last_full);
        }
        if (!q_param.bloom_filter || store_filters_cover(m0)) && !q_param.intra_index
            && has_non_ts(result.requests@)
            && !m0.parameter.inter_index && m0.parameter.block_count >= 1 {
            assert(lo_id == m0.parameter.start_block_id && hi_id == (
            m0.parameter.start_block_id + m0.parameter.block_count - 1) as u64);
            assert forall|id2: u64| lo_id <= id2 <= hi_id && crate::store::assoc_get(
                m0.headers,
                id2,
            ) is Some && #[trigger] crate::store::assoc_get(m0.datas, id2) is Some
                && ts_matches(
                crate::store::assoc_get(m0.headers, id2)->0.time_stamp,
                result.requests@,
            ) && conj_txs(
                crate::store::assoc_get(m0.datas, id2)->0.txs,
                result.requests@,
            ).len() > 0 implies (exists|e: int| 0 <= e < entries_final.len()
                && (#[trigger] entries_final[e]).block_id == id2
                && entries_final[e].txs@.map_values(|t: Transaction| tx_model(t))
                == conj_txs(
                crate::store::assoc_get(m0.datas, id2)->0.txs,
                result.requests@,
            )) by {
                assert(hi_id - count < id2 <= hi_id);
            }
        }
        if (!q_param.bloom_filter || store_filters_cover(m0)) && !q_param.intra_index
            && !has_ts(result.requests@)
            && has_non_ts(result.requests@) && m0.parameter.block_count >= 1 {
            assert(lo_id == m0.parameter.start_block_id && hi_id == (
            m0.parameter.start_block_id + m0.parameter.block_count - 1) as u64);
            assert forall|id2: u64| lo_id <= id2 <= hi_id && crate::store::assoc_get(
                m0.headers,
                id2,
            ) is Some && #[trigger] crate::store::assoc_get(m0.datas, id2) is Some
                && conj_txs(
                crate::store::assoc_get(m0.datas, id2)->0.txs,
                result.requests@,
            ).len() > 0 implies (exists|e: int| 0 <= e < entries_final.len()
                && (#[trigger] entries_final[e]).block_id == id2
                && entries_final[e].txs@.map_values(|t: Transaction| tx_model(t))
                == conj_txs(
                crate::store::assoc_get(m0.datas, id2)->0.txs,
                result.requests@,
            )) by {
                assert(ts_matches(
                    crate::store::assoc_get(m0.headers, id2)->0.time_stamp,
                    result.requests@,
                ));
                assert(hi_id - count < id2 <= hi_id);
            }
        }
    }
    Ok(result)
}

/// Ask the learned index for a candidate window; any irregularity in
/// the stored segments gives the window up.
fn narrow_window<T: ReadInterface>(
    chain: &T,
    param: &Parameter,
    ts_lo: u64,
    ts_hi: u64,
    first_id: u64,
    last_id: u64,
) -> (r: Option<(u64, u64)>)
    requires
        chain.inv(),
        first_id <= last_id,
    ensures
        match r {
            Some((lo, hi)) => first_id <= lo && lo <= hi && hi <= last_id,
            None => true,
        },
{
    let eps_num = param.error_bounds_num;
    let eps_den = param.error_bounds_den;
    if eps_den == 0 || eps_den > crate::inter::MAX_EPS_PART || eps_num
        > crate::inter::MAX_EPS_PART {
        return None;
    }
    if ts_lo >= crate::inter::MAX_POINT_COORD || ts_hi >= crate::inter::MAX_POINT_COORD {
        return None;
    }
    let starts = &param.inter_index_timestamps;
    let n_starts = starts.len();
    if n_starts == 0 {
        return None;
    }
    // The start list must be strictly increasing for the search.
    let mut w: usize = 0;
    while w < starts.len() - 1
        invariant
            w <= starts@.len(),
            n_starts == starts@.len(),
            starts@.len() >= 1,
            forall|p: int| 0 <= p < w ==> #[trigger] starts@[p] < starts@[p + 1],
        decreases starts@.len() - w,
    {
        if starts[w] >= starts[w + 1] {
            return None;
        }
        w += 1;
    }
    let s_lo = crate::inter::variant_binary_search(starts, ts_lo);
    let s_hi = crate::inter::variant_binary_search(starts, ts_hi);
    let seg_lo = match chain.read_inter_index(s_lo) {
        Ok(s) => s,
        Err(_) => {
            return None;
        },
    };
    let seg_hi = match chain.read_inter_index(s_hi) {
        Ok(s) => s,
        Err(_) => {
            return None;
        },
    };
    if !seg_in_bounds(&seg_lo) || !seg_in_bounds(&seg_hi) {
        return None;
    }
    let (lo_a, _) = crate::inter::predict_range(&seg_lo, ts_lo, eps_num, eps_den, first_id,
        last_id);
    let (_, hi_b) = crate::inter::predict_range(&seg_hi, ts_hi, eps_num, eps_den, first_id,
        last_id);
    if lo_a <= hi_b {
        Some((lo_a, hi_b))
    } else {
        Some((lo_a, lo_a))
    }
}

/// Whether a stored segment's line is small enough to evaluate.
fn seg_in_bounds(s: &InterIndex) -> (r: bool)
    ensures r == crate::inter::seg_bounded(*s),
{
    s.den >= 1 && s.den <= crate::inter::FIT_D_BOUND && s.a_num >= -crate::inter::FIT_A_BOUND
        && s.a_num <= crate::inter::FIT_A_BOUND && s.b_num >= -crate::inter::FIT_B_BOUND
        && s.b_num <= crate::inter::FIT_B_BOUND
}

/// The threshold hook: every hundredth query resets the counter and
/// runs the index manager, on every exit path of the caller.
fn run_manager_hook<T: ReadInterface + WriteInterface>(chain: &mut T, counters: &mut QueryCounters)
    requires
        old(chain).inv(),
        store_intra_consistent(old(chain).sview()),
    ensures
        final(chain).inv(),
        store_intra_consistent(final(chain).sview()),
        final(chain).sview().headers == old(chain).sview().headers,
        final(chain).sview().datas == old(chain).sview().datas,
        final(counters).query_counter == (if old(counters).query_counter >= QUERY_THRESHOLD {
            0u64
        } else {
            old(counters).query_counter
        }),
        final(counters).block_access == old(counters).block_access,
        old(counters).query_counter >= QUERY_THRESHOLD ==> final(counters).key_usage@.len()
            == 0,
        old(counters).query_counter < QUERY_THRESHOLD
            ==> final(counters).key_usage == old(counters).key_usage,
{
    if counters.query_counter >= QUERY_THRESHOLD {
        counters.query_counter = 0;
        let _ = crate::manager::index_management(chain, counters);
    }
}

} // verus!
