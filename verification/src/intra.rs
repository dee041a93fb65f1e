//! Per-block indexes: first-wins maps from an attribute value to the
//! transaction carrying it, one per materialized (block, attribute)
//! pair, plus the attribute extraction and the decimal bound parsing the
//! query surface needs.

use vstd::prelude::*;
use crate::block::{Attribute, BlockData, Transaction, TxModel, tx_model, copy_tx};
use crate::errors::ChainError;

verus! {

/// Byte-wise lexicographic order.
pub open spec fn bytes_lt(a: Seq<u8>, b: Seq<u8>) -> bool
    decreases b.len(),
{
    if b.len() == 0 {
        false
    } else if a.len() == 0 {
        true
    } else if a.first() < b.first() {
        true
    } else if a.first() > b.first() {
        false
    } else {
        bytes_lt(a.drop_first(), b.drop_first())
    }
}

/// Evaluate the lexicographic order.
pub fn bytes_lt_exec(a: &Vec<u8>, b: &Vec<u8>) -> (r: bool)
    ensures r == bytes_lt(a@, b@),
{
    let mut i: usize = 0;
    proof {
        assert(a@.skip(0) =~= a@);
        assert(b@.skip(0) =~= b@);
    }
    while i < a.len() && i < b.len()
        invariant
            i <= a@.len(),
            i <= b@.len(),
            bytes_lt(a@, b@) == bytes_lt(a@.skip(i as int), b@.skip(i as int)),
            forall|j: int| 0 <= j < i ==> a@[j] == b@[j],
        decreases a@.len() - i,
    {
        let x = a[i];
        let y = b[i];
        proof {
            let ra = a@.skip(i as int);
            let rb = b@.skip(i as int);
            assert(ra.first() == a@[i as int]);
            assert(rb.first() == b@[i as int]);
            assert(ra.drop_first() =~= a@.skip(i + 1));
            assert(rb.drop_first() =~= b@.skip(i + 1));
        }
        if x < y {
            return true;
        }
        if x > y {
            return false;
        }
        i += 1;
    }
    proof {
        let ra = a@.skip(i as int);
        let rb = b@.skip(i as int);
        if i < b@.len() {
            assert(rb.len() > 0 && ra.len() == 0);
        } else {
            assert(rb.len() == 0);
        }
    }
    i < b.len()
}

/// The numeric value of a decimal digit string.
pub open spec fn dec_value(s: Seq<u8>) -> int
    decreases s.len(),
{
    if s.len() == 0 {
        0
    } else {
        dec_value(s.drop_last()) * 10 + (s.last() - 48)
    }
}

/// Whether every byte is a decimal digit.
pub open spec fn all_digits(s: Seq<u8>) -> bool {
    forall|i: int| 0 <= i < s.len() ==> 48 <= #[trigger] s[i] <= 57
}

/// What parsing a decimal string yields: its value when the string is
/// nonempty, all digits, and the value fits a machine word.
pub open spec fn spec_parse_u64(s: Seq<u8>) -> Option<u64> {
    if s.len() == 0 || !all_digits(s) || dec_value(s) > u64::MAX {
        None
    } else {
        Some(dec_value(s) as u64)
    }
}

/// A nonzero leading digit with twenty digits after it exceeds u64.
proof fn lemma_dec_value_lower(s: Seq<u8>)
    requires
        all_digits(s),
        s.len() >= 21,
        s[0] > 48,
    ensures dec_value(s) > u64::MAX,
{
    lemma_dec_value_head(s);
    lemma_pow10_concrete();
    lemma_pow10_mono(20, s.len() - 1);
}

/// Digit strings have nonnegative values.
proof fn lemma_dec_nonneg(s: Seq<u8>)
    requires all_digits(s),
    ensures dec_value(s) >= 0,
    decreases s.len(),
{
    if s.len() > 0 {
        let pre = s.drop_last();
        assert forall|j: int| 0 <= j < pre.len() implies 48 <= #[trigger] pre[j] <= 57 by {
            assert(pre[j] == s[j]);
        }
        lemma_dec_nonneg(pre);
        assert(dec_value(s) >= 0) by (nonlinear_arith)
            requires
                dec_value(pre) >= 0,
                s.last() >= 48,
                dec_value(s) == dec_value(pre) * 10 + (s.last() - 48);
    }
}

/// Powers of ten.
pub open spec fn pow10(k: int) -> int
    decreases k,
{
    if k <= 0 { 1 } else { 10 * pow10(k - 1) }
}

proof fn lemma_pow10_mono(a: int, b: int)
    requires 0 <= a <= b,
    ensures pow10(a) <= pow10(b),
    decreases b,
{
    if a < b {
        lemma_pow10_mono(a, b - 1);
        assert(pow10(b) == 10 * pow10(b - 1));
        assert(pow10(b - 1) >= 1) by { lemma_pow10_pos(b - 1); }
    }
}

proof fn lemma_pow10_pos(k: int)
    ensures pow10(k) >= 1,
    decreases k,
{
    if k > 0 {
        lemma_pow10_pos(k - 1);
    }
}

/// A digit string with nonzero head is at least 10^(len-1).
proof fn lemma_dec_value_head(s: Seq<u8>)
    requires
        all_digits(s),
        s.len() >= 1,
        s[0] > 48,
    ensures dec_value(s) >= pow10(s.len() - 1),
    decreases s.len(),
{
    if s.len() == 1 {
        assert(dec_value(s) == dec_value(s.drop_last()) * 10 + (s[0] - 48));
        assert(s.drop_last().len() == 0);
        assert(dec_value(s.drop_last()) == 0);
    } else {
        let pre = s.drop_last();
        assert(pre[0] == s[0]);
        lemma_dec_value_head(pre);
        assert(s.last() >= 48);
        assert(dec_value(s) >= dec_value(pre) * 10) by (nonlinear_arith)
            requires dec_value(s) == dec_value(pre) * 10 + (s.last() - 48), s.last() >= 48;
        assert(dec_value(pre) * 10 >= pow10(pre.len() - 1) * 10) by (nonlinear_arith)
            requires dec_value(pre) >= pow10(pre.len() - 1);
        assert(pow10(s.len() - 1) == 10 * pow10(pre.len() - 1));
    }
}

/// Leading zeros do not change the value.
proof fn lemma_dec_value_strip_zero(s: Seq<u8>)
    requires
        s.len() >= 1,
        s[0] == 48,
    ensures dec_value(s) == dec_value(s.drop_first()),
    decreases s.len(),
{
    if s.len() == 1 {
        assert(dec_value(s) == dec_value(s.drop_last()) * 10 + (s.last() - 48));
        assert(s.drop_first().len() == 0);
    } else {
        let pre = s.drop_last();
        assert(pre[0] == 48);
        lemma_dec_value_strip_zero(pre);
        assert(s.drop_first().drop_last() =~= pre.drop_first());
        assert(s.drop_first().last() == s.last());
    }
}

/// Parse a decimal string into a machine word.  Exactly the nonempty,
/// all-digit strings whose value fits are accepted.
pub fn parse_u64(s: &Vec<u8>) -> (r: Option<u64>)
    ensures r == spec_parse_u64(s@),
{
    if s.len() == 0 {
        return None;
    }
    let mut i: usize = 0;
    while i < s.len()
        invariant
            i <= s@.len(),
            forall|j: int| 0 <= j < i ==> 48 <= #[trigger] s@[j] <= 57,
        decreases s@.len() - i,
    {
        let c = s[i];
        if c < 48 || c > 57 {
            return None;
        }
        i += 1;
    }
    // Skip leading zeros; what is left determines the value.
    let mut start: usize = 0;
    proof {
        assert(s@.skip(0) =~= s@);
    }
    while start < s.len() && s[start] == 48
        invariant
            start <= s@.len(),
            all_digits(s@),
            s@.len() >= 1,
            dec_value(s@) == dec_value(s@.skip(start as int)),
            forall|j: int| 0 <= j < start ==> s@[j] == 48,
        decreases s@.len() - start,
    {
        proof {
            let rest = s@.skip(start as int);
            assert(rest[0] == s@[start as int]);
            lemma_dec_value_strip_zero(rest);
            assert(rest.drop_first() =~= s@.skip(start + 1));
        }
        start += 1;
    }
    let ghost rest = s@.skip(start as int);
    if start == s.len() {
        proof {
            assert(rest.len() == 0);
            assert(dec_value(s@) == 0);
        }
        return Some(0);
    }
    if s.len() - start > 20 {
        proof {
            assert(rest[0] == s@[start as int]);
            assert(rest[0] != 48);
            assert(rest[0] > 48);
            assert forall|j: int| 0 <= j < rest.len() implies 48 <= #[trigger] rest[j] <= 57 by {
                assert(rest[j] == s@[start + j]);
            }
            lemma_dec_value_lower(rest);
        }
        return None;
    }
    let mut acc: u128 = 0;
    let mut p: usize = start;
    while p < s.len()
        invariant
            start <= p <= s@.len(),
            all_digits(s@),
            s@.len() - start <= 20,
            rest == s@.skip(start as int),
            dec_value(s@) == dec_value(rest),
            acc == dec_value(s@.skip(start as int).take(p - start)),
            acc <= 99999999999999999999,
        decreases s@.len() - p,
    {
        let c = s[p];
        proof {
            let pre = s@.skip(start as int).take(p - start);
            let post = s@.skip(start as int).take(p + 1 - start);
            assert(post.drop_last() =~= pre);
            assert(post.last() == s@[p as int]);
            assert(48 <= s@[p as int] <= 57);
            assert(acc * 10 + (c - 48) <= 99999999999999999999 * 10 + 9) by (nonlinear_arith)
                requires acc <= 99999999999999999999, c <= 57;
            assert forall|j: int| 0 <= j < post.len() implies 48 <= #[trigger] post[j] <= 57 by {
                assert(post[j] == s@[start + j]);
            }
            lemma_dec_small(post, post.len() as int);
            lemma_pow10_mono(post.len() as int, 20);
            lemma_pow10_concrete();
            lemma_dec_nonneg(post);
        }
        acc = acc * 10 + ((c - 48) as u128);
        p += 1;
    }
    proof {
        assert(s@.skip(start as int).take(s@.len() - start) =~= rest);
    }
    if acc > 0xFFFFFFFFFFFFFFFF {
        return None;
    }
    Some(acc as u64)
}

/// A digit string of length `k` stays below 10^k.
proof fn lemma_dec_small(s: Seq<u8>, k: int)
    requires
        all_digits(s),
        s.len() == k,
    ensures dec_value(s) <= pow10(k) - 1,
    decreases k,
{
    if k <= 0 {
    } else {
        let pre = s.drop_last();
        assert forall|j: int| 0 <= j < pre.len() implies 48 <= #[trigger] pre[j] <= 57 by {
            assert(pre[j] == s[j]);
        }
        lemma_dec_small(pre, k - 1);
        assert(dec_value(s) == dec_value(pre) * 10 + (s.last() - 48));
        assert(dec_value(pre) * 10 <= (pow10(k - 1) - 1) * 10) by (nonlinear_arith)
            requires dec_value(pre) <= pow10(k - 1) - 1;
        assert(s.last() - 48 <= 9);
        assert(pow10(k) == 10 * pow10(k - 1));
    }
}

/// The twentieth power of ten, spelled out.
proof fn lemma_pow10_concrete()
    ensures pow10(20) == 100000000000000000000,
{
    assert(pow10(0) == 1);
    assert(pow10(1) == 10);
    assert(pow10(2) == 100);
    assert(pow10(3) == 1000);
    assert(pow10(4) == 10000);
    assert(pow10(5) == 100000);
    assert(pow10(6) == 1000000);
    assert(pow10(7) == 10000000);
    assert(pow10(8) == 100000000);
    assert(pow10(9) == 1000000000);
    assert(pow10(10) == 10000000000);
    assert(pow10(11) == 100000000000);
    assert(pow10(12) == 1000000000000);
    assert(pow10(13) == 10000000000000);
    assert(pow10(14) == 100000000000000);
    assert(pow10(15) == 1000000000000000);
    assert(pow10(16) == 10000000000000000);
    assert(pow10(17) == 100000000000000000);
    assert(pow10(18) == 1000000000000000000);
    assert(pow10(19) == 10000000000000000000);
    assert(pow10(20) == 100000000000000000000);
}

/// Whether a key falls in a half-open numeric range, either bound
/// optional.
pub open spec fn in_u64_range(k: u64, lo: Option<u64>, hi: Option<u64>) -> bool {
    &&& (lo is Some ==> lo->0 <= k)
    &&& (hi is Some ==> k < hi->0)
}

/// Whether a key falls in a half-open lexicographic range.
pub open spec fn in_text_range(k: Seq<u8>, lo: Option<Seq<u8>>, hi: Option<Seq<u8>>) -> bool {
    &&& (lo is Some ==> !bytes_lt(k, lo->0))
    &&& (hi is Some ==> bytes_lt(k, hi->0))
}

/// A first-wins map keyed by a numeric attribute.
pub struct U64IndexMap {
    pub entries: Vec<(u64, Transaction)>,
}

/// A first-wins map keyed by a byte-string attribute.
pub struct TextIndexMap {
    pub entries: Vec<(Vec<u8>, Transaction)>,
}

/// The per-attribute map of one block, tagged by key type.
pub enum BTreeEnum {
    U64(U64IndexMap),
    Text(TextIndexMap),
}

/// The materialized maps of one block, keyed by attribute.
pub struct IntraIndex {
    pub block_id: u64,
    pub index: Vec<(Attribute, BTreeEnum)>,
}

/// The model of a numeric map.
pub open spec fn u64_map_model(m: U64IndexMap) -> Seq<(u64, TxModel)> {
    m.entries@.map_values(|e: (u64, Transaction)| (e.0, tx_model(e.1)))
}

/// The model of a byte-string map.
pub open spec fn text_map_model(m: TextIndexMap) -> Seq<(Seq<u8>, TxModel)> {
    m.entries@.map_values(|e: (Vec<u8>, Transaction)| (e.0@, tx_model(e.1)))
}

/// Whether a numeric model holds a key.
pub open spec fn has_u64_key(s: Seq<(u64, TxModel)>, k: u64) -> bool {
    exists|i: int| 0 <= i < s.len() && (#[trigger] s[i]).0 == k
}

/// Whether a byte-string model holds a key.
pub open spec fn has_text_key(s: Seq<(Seq<u8>, TxModel)>, k: Seq<u8>) -> bool {
    exists|i: int| 0 <= i < s.len() && (#[trigger] s[i]).0 == k
}

/// First-wins insertion of key/transaction pairs, in order.
pub open spec fn fw_u64(keys: Seq<u64>, txs: Seq<TxModel>, acc: Seq<(u64, TxModel)>) -> Seq<
    (u64, TxModel),
>
    decreases keys.len(),
{
    if keys.len() == 0 || txs.len() == 0 {
        acc
    } else {
        let acc2 = if has_u64_key(acc, keys.first()) {
            acc
        } else {
            acc.push((keys.first(), txs.first()))
        };
        fw_u64(keys.drop_first(), txs.drop_first(), acc2)
    }
}

/// First-wins insertion for byte-string keys.
pub open spec fn fw_text(keys: Seq<Seq<u8>>, txs: Seq<TxModel>, acc: Seq<(Seq<u8>, TxModel)>) -> Seq<
    (Seq<u8>, TxModel),
>
    decreases keys.len(),
{
    if keys.len() == 0 || txs.len() == 0 {
        acc
    } else {
        let acc2 = if has_text_key(acc, keys.first()) {
            acc
        } else {
            acc.push((keys.first(), txs.first()))
        };
        fw_text(keys.drop_first(), txs.drop_first(), acc2)
    }
}

/// Whether a numeric model's keys are unique.
pub open spec fn u64_keys_unique(s: Seq<(u64, TxModel)>) -> bool {
    forall|i: int, j: int| 0 <= i < j < s.len()
        ==> (#[trigger] s[i]).0 != (#[trigger] s[j]).0
}

/// Whether a byte-string model's keys are unique.
pub open spec fn text_keys_unique(s: Seq<(Seq<u8>, TxModel)>) -> bool {
    forall|i: int, j: int| 0 <= i < j < s.len()
        ==> (#[trigger] s[i]).0 != (#[trigger] s[j]).0
}

/// Whether the map holds the given numeric key.
pub fn u64_map_contains(m: &U64IndexMap, k: u64) -> (r: bool)
    ensures r == has_u64_key(u64_map_model(*m), k),
{
    let mut i: usize = 0;
    while i < m.entries.len()
        invariant
            i <= m.entries@.len(),
            forall|j: int| 0 <= j < i ==> (#[trigger] m.entries@[j]).0 != k,
        decreases m.entries@.len() - i,
    {
        if m.entries[i].0 == k {
            proof {
                assert(u64_map_model(*m)[i as int].0 == k);
            }
            return true;
        }
        i += 1;
    }
    proof {
        if has_u64_key(u64_map_model(*m), k) {
            let j = choose|j: int| 0 <= j < u64_map_model(*m).len() && u64_map_model(*m)[j].0
                == k;
            assert(m.entries@[j].0 == k);
        }
    }
    false
}

/// Whether the map holds the given byte-string key.
pub fn text_map_contains(m: &TextIndexMap, k: &Vec<u8>) -> (r: bool)
    ensures r == has_text_key(text_map_model(*m), k@),
{
    let mut i: usize = 0;
    while i < m.entries.len()
        invariant
            i <= m.entries@.len(),
            forall|j: int| 0 <= j < i ==> (#[trigger] m.entries@[j]).0@ != k@,
        decreases m.entries@.len() - i,
    {
        if crate::digest::compare_bytes(&m.entries[i].0, k) {
            proof {
                assert(text_map_model(*m)[i as int].0 == k@);
            }
            return true;
        }
        i += 1;
    }
    proof {
        if has_text_key(text_map_model(*m), k@) {
            let j = choose|j: int| 0 <= j < text_map_model(*m).len() && text_map_model(*m)[j].0
                == k@;
            assert(m.entries@[j].0@ == k@);
        }
    }
    false
}

/// Build a first-wins numeric map from keys and transactions in step.
pub fn build_tree(keys: &Vec<u64>, values: &Vec<Transaction>) -> (r: U64IndexMap)
    requires keys@.len() == values@.len(),
    ensures
        u64_map_model(r) == fw_u64(
            keys@,
            values@.map_values(|t: Transaction| tx_model(t)),
            Seq::empty(),
        ),
        u64_keys_unique(u64_map_model(r)),
        forall|e: int| 0 <= e < u64_map_model(r).len() ==> exists|i: int|
            0 <= i < keys@.len() && keys@[i] == (#[trigger] u64_map_model(r)[e]).0
                && tx_model(values@[i]) == u64_map_model(r)[e].1,
{
    let ghost txms = values@.map_values(|t: Transaction| tx_model(t));
    let mut m = U64IndexMap { entries: Vec::new() };
    let mut i: usize = 0;
    proof {
        assert(keys@.skip(0) =~= keys@);
        assert(txms.skip(0) =~= txms);
        assert(u64_map_model(m) =~= Seq::<(u64, TxModel)>::empty());
    }
    while i < keys.len()
        invariant
            i <= keys@.len(),
            keys@.len() == values@.len(),
            txms == values@.map_values(|t: Transaction| tx_model(t)),
            fw_u64(keys@, txms, Seq::empty()) == fw_u64(
                keys@.skip(i as int),
                txms.skip(i as int),
                u64_map_model(m),
            ),
            u64_keys_unique(u64_map_model(m)),
            forall|e: int| 0 <= e < u64_map_model(m).len() ==> exists|q: int|
                0 <= q < i && keys@[q] == (#[trigger] u64_map_model(m)[e]).0
                    && tx_model(values@[q]) == u64_map_model(m)[e].1,
        decreases keys@.len() - i,
    {
        let k = keys[i];
        proof {
            let rk = keys@.skip(i as int);
            let rt = txms.skip(i as int);
            assert(rk.first() == keys@[i as int]);
            assert(rt.first() == txms[i as int]);
            assert(rk.drop_first() =~= keys@.skip(i + 1));
            assert(rt.drop_first() =~= txms.skip(i + 1));
        }
        if !u64_map_contains(&m, k) {
            let ghost pre = u64_map_model(m);
            m.entries.push((k, copy_tx(&values[i])));
            proof {
                assert(u64_map_model(m) =~= pre.push((k, tx_model(values@[i as int]))));
            }
        }
        i += 1;
    }
    proof {
        assert(keys@.skip(keys@.len() as int).len() == 0);
    }
    m
}

/// Build a first-wins byte-string map from keys and transactions in
/// step.
pub fn build_tree_text(keys: &Vec<Vec<u8>>, values: &Vec<Transaction>) -> (r: TextIndexMap)
    requires keys@.len() == values@.len(),
    ensures
        text_map_model(r) == fw_text(
            keys@.map_values(|k: Vec<u8>| k@),
            values@.map_values(|t: Transaction| tx_model(t)),
            Seq::empty(),
        ),
        text_keys_unique(text_map_model(r)),
        forall|e: int| 0 <= e < text_map_model(r).len() ==> exists|i: int|
            0 <= i < keys@.len() && keys@[i]@ == (#[trigger] text_map_model(r)[e]).0
                && tx_model(values@[i]) == text_map_model(r)[e].1,
{
    let ghost kms = keys@.map_values(|k: Vec<u8>| k@);
    let ghost txms = values@.map_values(|t: Transaction| tx_model(t));
    let mut m = TextIndexMap { entries: Vec::new() };
    let mut i: usize = 0;
    proof {
        assert(kms.skip(0) =~= kms);
        assert(txms.skip(0) =~= txms);
        assert(text_map_model(m) =~= Seq::<(Seq<u8>, TxModel)>::empty());
    }
    while i < keys.len()
        invariant
            i <= keys@.len(),
            keys@.len() == values@.len(),
            kms == keys@.map_values(|k: Vec<u8>| k@),
            txms == values@.map_values(|t: Transaction| tx_model(t)),
            fw_text(kms, txms, Seq::empty()) == fw_text(
                kms.skip(i as int),
                txms.skip(i as int),
                text_map_model(m),
            ),
            text_keys_unique(text_map_model(m)),
            forall|e: int| 0 <= e < text_map_model(m).len() ==> exists|q: int|
                0 <= q < i && keys@[q]@ == (#[trigger] text_map_model(m)[e]).0
                    && tx_model(values@[q]) == text_map_model(m)[e].1,
        decreases keys@.len() - i,
    {
        proof {
            let rk = kms.skip(i as int);
            let rt = txms.skip(i as int);
            assert(rk.first() == kms[i as int]);
            assert(rt.first() == txms[i as int]);
            assert(rk.drop_first() =~= kms.skip(i + 1));
            assert(rt.drop_first() =~= txms.skip(i + 1));
        }
        if !text_map_contains(&m, &keys[i]) {
            let ghost pre = text_map_model(m);
            m.entries.push((crate::digest::copy_bytes(&keys[i]), copy_tx(&values[i])));
            proof {
                assert(text_map_model(m) =~= pre.push((keys@[i as int]@, tx_model(
                    values@[i as int],
                ))));
            }
        }
        i += 1;
    }
    proof {
        assert(kms.skip(kms.len() as int).len() == 0);
    }
    m
}

/// The transactions of numeric entries whose key is in range, in entry
/// order.
pub open spec fn u64_range_txs(s: Seq<(u64, TxModel)>, lo: Option<u64>, hi: Option<u64>) -> Seq<
    TxModel,
>
    decreases s.len(),
{
    if s.len() == 0 {
        Seq::empty()
    } else {
        u64_range_txs(s.drop_last(), lo, hi) + (if in_u64_range(s.last().0, lo, hi) {
            seq![s.last().1]
        } else {
            Seq::empty()
        })
    }
}

/// The transactions of byte-string entries whose key is in range.
pub open spec fn text_range_txs(
    s: Seq<(Seq<u8>, TxModel)>,
    lo: Option<Seq<u8>>,
    hi: Option<Seq<u8>>,
) -> Seq<TxModel>
    decreases s.len(),
{
    if s.len() == 0 {
        Seq::empty()
    } else {
        text_range_txs(s.drop_last(), lo, hi) + (if in_text_range(s.last().0, lo, hi) {
            seq![s.last().1]
        } else {
            Seq::empty()
        })
    }
}

/// Scan a numeric map for the half-open range [lo, hi).
pub fn u64_map_range(m: &U64IndexMap, lo: &Option<u64>, hi: &Option<u64>) -> (r: Vec<Transaction>)
    ensures
        r@.map_values(|t: Transaction| tx_model(t)) == u64_range_txs(u64_map_model(*m), *lo, *hi),
{
    let mut out: Vec<Transaction> = Vec::new();
    let mut i: usize = 0;
    proof {
        assert(u64_map_model(*m).subrange(0, 0) =~= Seq::<(u64, TxModel)>::empty());
        assert(out@.map_values(|t: Transaction| tx_model(t)) =~= Seq::<TxModel>::empty());
    }
    while i < m.entries.len()
        invariant
            i <= m.entries@.len(),
            out@.map_values(|t: Transaction| tx_model(t)) == u64_range_txs(
                u64_map_model(*m).subrange(0, i as int),
                *lo,
                *hi,
            ),
        decreases m.entries@.len() - i,
    {
        let (k, _) = m.entries[i];
        let keep = match lo {
            Some(l) => *l <= k,
            None => true,
        } && match hi {
            Some(h) => k < *h,
            None => true,
        };
        proof {
            let pre = u64_map_model(*m).subrange(0, i as int);
            let post = u64_map_model(*m).subrange(0, i + 1);
            assert(post.drop_last() =~= pre);
            assert(post.last() == u64_map_model(*m)[i as int]);
            assert(u64_map_model(*m)[i as int].0 == k);
        }
        if keep {
            out.push(copy_tx(&m.entries[i].1));
            proof {
                assert(out@.map_values(|t: Transaction| tx_model(t)) =~= u64_range_txs(
                    u64_map_model(*m).subrange(0, i + 1),
                    *lo,
                    *hi,
                ));
            }
        } else {
            proof {
                assert(out@.map_values(|t: Transaction| tx_model(t)) =~= u64_range_txs(
                    u64_map_model(*m).subrange(0, i + 1),
                    *lo,
                    *hi,
                ));
            }
        }
        i += 1;
    }
    proof {
        assert(u64_map_model(*m).subrange(0, u64_map_model(*m).len() as int) =~= u64_map_model(
            *m,
        ));
    }
    out
}

/// Scan a byte-string map for the half-open range [lo, hi).
pub fn text_map_range(m: &TextIndexMap, lo: &Option<Vec<u8>>, hi: &Option<Vec<u8>>) -> (r: Vec<
    Transaction,
>)
    ensures
        r@.map_values(|t: Transaction| tx_model(t)) == text_range_txs(
            text_map_model(*m),
            match *lo {
                Some(l) => Some(l@),
                None => None,
            },
            match *hi {
                Some(h) => Some(h@),
                None => None,
            },
        ),
{
    let ghost glo: Option<Seq<u8>> = match lo {
        Some(l) => Some(l@),
        None => None,
    };
    let ghost ghi: Option<Seq<u8>> = match hi {
        Some(h) => Some(h@),
        None => None,
    };
    let mut out: Vec<Transaction> = Vec::new();
    let mut i: usize = 0;
    proof {
        assert(text_map_model(*m).subrange(0, 0) =~= Seq::<(Seq<u8>, TxModel)>::empty());
        assert(out@.map_values(|t: Transaction| tx_model(t)) =~= Seq::<TxModel>::empty());
    }
    while i < m.entries.len()
        invariant
            i <= m.entries@.len(),
            glo == (match *lo {
                Some(l) => Some(l@),
                None => None::<Seq<u8>>,
            }),
            ghi == (match *hi {
                Some(h) => Some(h@),
                None => None::<Seq<u8>>,
            }),
            out@.map_values(|t: Transaction| tx_model(t)) == text_range_txs(
                text_map_model(*m).subrange(0, i as int),
                glo,
                ghi,
            ),
        decreases m.entries@.len() - i,
    {
        let above_lo = match lo {
            Some(l) => !bytes_lt_exec(&m.entries[i].0, l),
            None => true,
        };
        let below_hi = match hi {
            Some(h) => bytes_lt_exec(&m.entries[i].0, h),
            None => true,
        };
        let keep = above_lo && below_hi;
        proof {
            let pre = text_map_model(*m).subrange(0, i as int);
            let post = text_map_model(*m).subrange(0, i + 1);
            assert(post.drop_last() =~= pre);
            assert(post.last() == text_map_model(*m)[i as int]);
            assert(text_map_model(*m)[i as int].0 == m.entries@[i as int].0@);
            assert(keep == in_text_range(post.last().0, glo, ghi));
        }
        if keep {
            out.push(copy_tx(&m.entries[i].1));
            proof {
                assert(out@.map_values(|t: Transaction| tx_model(t)) =~= text_range_txs(
                    text_map_model(*m).subrange(0, i + 1),
                    glo,
                    ghi,
                ));
            }
        } else {
            proof {
                assert(out@.map_values(|t: Transaction| tx_model(t)) =~= text_range_txs(
                    text_map_model(*m).subrange(0, i + 1),
                    glo,
                    ghi,
                ));
            }
        }
        i += 1;
    }
    proof {
        assert(text_map_model(*m).subrange(0, text_map_model(*m).len() as int)
            =~= text_map_model(*m));
    }
    out
}

/// The values a query can extract from a block, one list per attribute
/// kind.
pub enum ExtractedData {
    TxIds(Vec<u64>),
    Addresses(Vec<Vec<u8>>),
    TransValues(Vec<u64>),
}

/// Pull the keyable values of an attribute out of a block; the
/// timestamp is the inter-index key and is refused here.
pub fn extract_key(attribute: Attribute, block_data: &BlockData) -> (r: Result<
    ExtractedData,
    ChainError,
>)
    ensures
        match r {
            Ok(ExtractedData::TxIds(ids)) => attribute == Attribute::Id && ids@ == block_data.txs@
                .map_values(|t: Transaction| t.id),
            Ok(ExtractedData::Addresses(a)) => attribute == Attribute::Address
                && a@.map_values(|v: Vec<u8>| v@) == block_data.txs@.map_values(
                |t: Transaction| t.value.address@,
            ),
            Ok(ExtractedData::TransValues(v)) => attribute == Attribute::Value && v@
                == block_data.txs@.map_values(|t: Transaction| t.value.trans_value),
            Err(e) => attribute == Attribute::Timestamp && e == ChainError::UnknownAttribute,
        },
{
    match attribute {
        Attribute::Id => {
            let mut ids: Vec<u64> = Vec::new();
            let mut i: usize = 0;
            while i < block_data.txs.len()
                invariant
                    i <= block_data.txs@.len(),
                    ids@ =~= block_data.txs@.subrange(0, i as int).map_values(
                        |t: Transaction| t.id,
                    ),
                decreases block_data.txs@.len() - i,
            {
                ids.push(block_data.txs[i].id);
                i += 1;
                proof {
                    assert(ids@ =~= block_data.txs@.subrange(0, i as int).map_values(
                        |t: Transaction| t.id,
                    ));
                }
            }
            proof {
                assert(block_data.txs@.subrange(0, block_data.txs@.len() as int)
                    =~= block_data.txs@);
            }
            Ok(ExtractedData::TxIds(ids))
        },
        Attribute::Address => {
            let mut addrs: Vec<Vec<u8>> = Vec::new();
            let mut i: usize = 0;
            while i < block_data.txs.len()
                invariant
                    i <= block_data.txs@.len(),
                    addrs@.map_values(|v: Vec<u8>| v@) =~= block_data.txs@.subrange(
                        0,
                        i as int,
                    ).map_values(|t: Transaction| t.value.address@),
                decreases block_data.txs@.len() - i,
            {
                let ghost pre_addrs = addrs@;
                let copied = crate::digest::copy_bytes(&block_data.txs[i].value.address);
                let ghost cv = copied@;
                addrs.push(copied);
                i += 1;
                proof {
                    assert(addrs@ =~= pre_addrs.push(addrs@.last()));
                    assert(addrs@.last()@ == cv);
                    assert(cv == block_data.txs@[i - 1].value.address@);
                    assert(addrs@.map_values(|v: Vec<u8>| v@) =~= pre_addrs.map_values(
                        |v: Vec<u8>| v@,
                    ).push(cv));
                    assert(addrs@.map_values(|v: Vec<u8>| v@) =~= block_data.txs@.subrange(
                        0,
                        i as int,
                    ).map_values(|t: Transaction| t.value.address@));
                }
            }
            proof {
                assert(block_data.txs@.subrange(0, block_data.txs@.len() as int)
                    =~= block_data.txs@);
            }
            Ok(ExtractedData::Addresses(addrs))
        },
        Attribute::Value => {
            let mut vals: Vec<u64> = Vec::new();
            let mut i: usize = 0;
            while i < block_data.txs.len()
                invariant
                    i <= block_data.txs@.len(),
                    vals@ =~= block_data.txs@.subrange(0, i as int).map_values(
                        |t: Transaction| t.value.trans_value,
                    ),
                decreases block_data.txs@.len() - i,
            {
                vals.push(block_data.txs[i].value.trans_value);
                i += 1;
                proof {
                    assert(vals@ =~= block_data.txs@.subrange(0, i as int).map_values(
                        |t: Transaction| t.value.trans_value,
                    ));
                }
            }
            proof {
                assert(block_data.txs@.subrange(0, block_data.txs@.len() as int)
                    =~= block_data.txs@);
            }
            Ok(ExtractedData::TransValues(vals))
        },
        Attribute::Timestamp => Err(ChainError::UnknownAttribute),
    }
}

/// The numeric key an attribute reads from a transaction.
pub open spec fn num_key_of(a: Attribute, t: TxModel) -> u64 {
    match a {
        Attribute::Id => t.id,
        Attribute::Value => t.trans_value,
        _ => 0,
    }
}

/// Whether a map model belongs to a block model under an attribute:
/// the map is the first-wins fold of the block's keys, its keys are
/// unique, and every entry pairs a block transaction with its own key.
pub open spec fn btree_model_matches(
    bm: crate::store::BTreeModel,
    txm: Seq<TxModel>,
    a: Attribute,
) -> bool {
    match bm {
        crate::store::BTreeModel::U64(m) => {
            &&& (a == Attribute::Id || a == Attribute::Value)
            &&& m == fw_u64(txm.map_values(|t: TxModel| num_key_of(a, t)), txm, Seq::empty())
            &&& u64_keys_unique(m)
            &&& forall|e: int| 0 <= e < m.len() ==> exists|i: int|
                0 <= i < txm.len() && txm[i] == (#[trigger] m[e]).1 && num_key_of(a, txm[i])
                    == m[e].0
        },
        crate::store::BTreeModel::Text(m) => {
            &&& a == Attribute::Address
            &&& m == fw_text(txm.map_values(|t: TxModel| t.address), txm, Seq::empty())
            &&& text_keys_unique(m)
            &&& forall|e: int| 0 <= e < m.len() ==> exists|i: int|
                0 <= i < txm.len() && txm[i] == (#[trigger] m[e]).1 && txm[i].address == m[e].0
        },
    }
}

/// Whether a built map belongs to a block under an attribute.
pub open spec fn btree_matches_block(b: BTreeEnum, d: BlockData, a: Attribute) -> bool {
    btree_model_matches(
        crate::store::btree_model(b),
        d.txs@.map_values(|t: Transaction| tx_model(t)),
        a,
    )
}

/// Build the per-attribute map of a block from its data.
pub fn create_btree(attribute: Attribute, block_data: &BlockData) -> (r: Result<
    BTreeEnum,
    ChainError,
>)
    requires block_data.tx_ids@.len() == block_data.txs@.len(),
    ensures
        r is Ok <==> attribute != Attribute::Timestamp,
        match r {
            Ok(b) => btree_matches_block(b, *block_data, attribute),
            Err(e) => e == ChainError::UnknownAttribute,
        },
{
    let ghost txm = block_data.txs@.map_values(|t: Transaction| tx_model(t));
    match extract_key(attribute, block_data) {
        Ok(ExtractedData::TxIds(ids)) => {
            proof {
                assert(ids@ =~= txm.map_values(|t: TxModel| num_key_of(Attribute::Id, t)));
            }
            let m = build_tree(&ids, &block_data.txs);
            proof {
                assert forall|e: int| 0 <= e < u64_map_model(m).len() implies exists|i: int|
                    0 <= i < txm.len() && txm[i] == (#[trigger] u64_map_model(m)[e]).1
                        && num_key_of(Attribute::Id, txm[i]) == u64_map_model(m)[e].0 by {
                    let i = choose|i: int|
                        0 <= i < ids@.len() && ids@[i] == u64_map_model(m)[e].0 && tx_model(
                            block_data.txs@[i],
                        ) == u64_map_model(m)[e].1;
                    assert(txm[i] == tx_model(block_data.txs@[i]));
                    assert(num_key_of(Attribute::Id, txm[i]) == ids@[i]);
                }
            }
            Ok(BTreeEnum::U64(m))
        },
        Ok(ExtractedData::TransValues(vals)) => {
            proof {
                assert(vals@ =~= txm.map_values(|t: TxModel| num_key_of(Attribute::Value, t)));
            }
            let m = build_tree(&vals, &block_data.txs);
            proof {
                assert forall|e: int| 0 <= e < u64_map_model(m).len() implies exists|i: int|
                    0 <= i < txm.len() && txm[i] == (#[trigger] u64_map_model(m)[e]).1
                        && num_key_of(Attribute::Value, txm[i]) == u64_map_model(m)[e].0 by {
                    let i = choose|i: int|
                        0 <= i < vals@.len() && vals@[i] == u64_map_model(m)[e].0 && tx_model(
                            block_data.txs@[i],
                        ) == u64_map_model(m)[e].1;
                    assert(txm[i] == tx_model(block_data.txs@[i]));
                    assert(num_key_of(Attribute::Value, txm[i]) == vals@[i]);
                }
            }
            Ok(BTreeEnum::U64(m))
        },
        Ok(ExtractedData::Addresses(addrs)) => {
            proof {
                assert(addrs@.map_values(|k: Vec<u8>| k@) =~= txm.map_values(
                    |t: TxModel| t.address,
                ));
            }
            let m = build_tree_text(&addrs, &block_data.txs);
            proof {
                assert forall|e: int| 0 <= e < text_map_model(m).len() implies exists|i: int|
                    0 <= i < txm.len() && txm[i] == (#[trigger] text_map_model(m)[e]).1
                        && txm[i].address == text_map_model(m)[e].0 by {
                    let i = choose|i: int|
                        0 <= i < addrs@.len() && addrs@[i]@ == text_map_model(m)[e].0
                            && tx_model(block_data.txs@[i]) == text_map_model(m)[e].1;
                    assert(txm[i] == tx_model(block_data.txs@[i]));
                    assert(addrs@.map_values(|k: Vec<u8>| k@)[i] == addrs@[i]@);
                    assert(txm.map_values(|t: TxModel| t.address)[i] == txm[i].address);
                    assert(txm[i].address == addrs@[i]@);
                }
            }
            Ok(BTreeEnum::Text(m))
        },
        Err(e) => Err(e),
    }
}

} // verus!
