//! Bloom filters over the packed bitset: a seeded single-hash variant and
//! a double-hash variant sharing one insertion/lookup contract.  The
//! (hasher count, bits per hasher) configuration is derived from a desired
//! capacity and false-positive rate with fixed-point arithmetic, so equal
//! requests give equal configurations everywhere.

use vstd::prelude::*;
use vstd::arithmetic::power2::{pow2, lemma_pow2_adds, lemma_pow2_strictly_increases, lemma2_to64};
use crate::bitset::Bitset;
use crate::errors::ChainError;
use crate::hashes::seeded_hash;
use crate::hashes::seeded_hash_bytes;

verus! {

pub const Q32: u128 = 0x1_0000_0000;

pub const Q33: u128 = 0x2_0000_0000;

pub const Q64: u128 = 0x1_0000_0000_0000_0000;

/// ln 2 scaled by 2^32, rounded down.
pub const LN2_Q32: u128 = 2977044471;

/// log2 e scaled by 2^32, rounded down.
pub const LOG2E_Q32: u128 = 6196328018;

/// The largest accepted desired capacity.
pub const MAX_BLOOM_CAPACITY: u64 = 0x1_0000_0000;

/// Halve `x` until it is below 2^33, counting the halvings.
pub open spec fn norm_pair(x: nat, e: nat) -> (nat, nat)
    decreases x,
{
    if x < Q33 as nat {
        (x, e)
    } else {
        norm_pair(x / 2, e + 1)
    }
}

/// `t` squaring steps extracting the fractional bits of log2 of
/// `x / 2^32`, most significant bit first, accumulated into `acc`.
pub open spec fn frac_acc(x: nat, acc: nat, t: nat) -> nat
    decreases t,
{
    if t == 0 {
        acc
    } else {
        let x2 = (x * x) / (Q32 as nat);
        if x2 >= Q33 as nat {
            frac_acc(x2 / 2, acc * 2 + 1, (t - 1) as nat)
        } else {
            frac_acc(x2, acc * 2, (t - 1) as nat)
        }
    }
}

/// log2(den/num) scaled by 2^32, computed to 32 fractional bits.
pub open spec fn log2_q32(num: nat, den: nat) -> nat
    recommends 0 < num < den,
{
    let x0 = den * (Q32 as nat) / num;
    let p = norm_pair(x0, 0);
    p.1 * (Q32 as nat) + frac_acc(p.0, 0, 32)
}

/// Total bit count: the ceiling of n * log2(den/num) * log2(e).
pub open spec fn spec_total_bits(n: nat, num: nat, den: nat) -> nat {
    ((n * log2_q32(num, den) * (LOG2E_Q32 as nat) + (Q64 as nat) - 1) / (Q64 as int)) as nat
}

/// Hasher count: total/n * ln 2, rounded to nearest, at least one.
pub open spec fn spec_hasher_count(n: nat, num: nat, den: nat) -> nat {
    let t = spec_total_bits(n, num, den);
    let k = (2 * t * (LN2_Q32 as nat) + n * (Q32 as nat)) / (2 * n * (Q32 as nat));
    if k == 0 {
        1
    } else {
        k
    }
}

/// Bits for each hasher: the ceiling of total/k, at least one.
pub open spec fn spec_bits_per_hasher(n: nat, num: nat, den: nat) -> nat {
    let t = spec_total_bits(n, num, den);
    let k = spec_hasher_count(n, num, den);
    let m = (((t + k - 1) as int) / (k as int)) as nat;
    if m == 0 {
        1
    } else {
        m
    }
}

/// When a (capacity, false-positive rate) request is accepted: the rate in
/// (0,1), the capacity positive and addressable, and the derived bit array
/// small enough to allocate.
pub open spec fn bloom_config_ok(n: nat, num: nat, den: nat) -> bool {
    &&& 0 < n <= MAX_BLOOM_CAPACITY as nat
    &&& 0 < num < den
    &&& spec_hasher_count(n, num, den) * spec_bits_per_hasher(n, num, den) + 63 <= usize::MAX
}

/// Derive (hasher count, bits per hasher) from a desired capacity and a
/// false-positive rate given as the fraction fp_num/fp_den.
pub fn derive_config(capacity: usize, fp_num: u64, fp_den: u64) -> (r: Result<
    (usize, usize),
    ChainError,
>)
    ensures
        r is Ok <==> bloom_config_ok(capacity as nat, fp_num as nat, fp_den as nat),
        match r {
            Ok((k, m)) => {
                &&& k == spec_hasher_count(capacity as nat, fp_num as nat, fp_den as nat)
                &&& m == spec_bits_per_hasher(capacity as nat, fp_num as nat, fp_den as nat)
                &&& k >= 1
                &&& m >= 1
                &&& k * m + 63 <= usize::MAX
            },
            Err(e) => e == ChainError::InvalidParameter,
        },
{
    if capacity == 0 || (capacity as u128) > (MAX_BLOOM_CAPACITY as u128) || fp_num == 0
        || fp_num >= fp_den {
        return Err(ChainError::InvalidParameter);
    }
    let ghost gn = capacity as nat;
    let ghost gnum = fp_num as nat;
    let ghost gden = fp_den as nat;

    // log2(den/num) in Q32.
    let x0: u128 = (fp_den as u128) * Q32 / (fp_num as u128);
    proof {
        assert(x0 == gden * (Q32 as nat) / gnum);
        assert(gden * (Q32 as nat) >= gnum * (Q32 as nat)) by (nonlinear_arith)
            requires gden >= gnum;
        assert(gden * (Q32 as nat) / gnum >= (Q32 as nat)) by (nonlinear_arith)
            requires gnum > 0, gden * (Q32 as nat) >= gnum * (Q32 as nat);
        assert((fp_den as u128) * Q32 < Q64 * Q32) by (nonlinear_arith)
            requires (fp_den as u128) < Q64;
    }
    let mut x: u128 = x0;
    let mut e: u128 = 0;
    proof {
        lemma2_to64();
        assert(x as nat * pow2(0) <= x0 as nat) by (nonlinear_arith)
            requires x == x0, pow2(0) == 1;
    }
    while x >= Q33
        invariant
            norm_pair(x0 as nat, 0) == norm_pair(x as nat, e as nat),
            x as nat * pow2(e as nat) <= x0 as nat,
            x >= Q32,
            x0 < Q64 * Q32,
        decreases x,
    {
        proof {
            lemma_pow2_adds(e as nat, 1);
            lemma2_to64();
            assert((x as nat / 2) * pow2(e as nat + 1) <= x as nat * pow2(e as nat))
                by (nonlinear_arith)
                requires pow2(e as nat + 1) == 2 * pow2(e as nat);
            assert(e as nat + 1 <= pow2(e as nat + 1)) by {
                lemma_pow2_bound(e as nat + 1);
            }
            assert((x as nat / 2) >= 1 ==> (x as nat / 2) * pow2(e as nat + 1) >= pow2(
                e as nat + 1,
            )) by (nonlinear_arith);
        }
        x = x / 2;
        e = e + 1;
    }
    proof {
        // x stayed at least 2^32, so at most 64 halvings happened.
        lemma2_to64();
        if e as nat >= 65 {
            lemma_pow2_strictly_increases(64, e as nat);
            assert(x as nat * pow2(e as nat) >= (Q32 as nat) * pow2(e as nat))
                by (nonlinear_arith)
                requires x as nat >= Q32 as nat;
            assert((Q32 as nat) * pow2(e as nat) > (Q32 as nat) * pow2(64)) by (nonlinear_arith)
                requires pow2(e as nat) > pow2(64), (Q32 as nat) > 0;
            assert(false);
        }
    }
    // 32 fractional bits of log2, most significant first.
    let ghost xn = x as nat;
    let mut acc: u128 = 0;
    let mut j: usize = 0;
    while j < 32
        invariant
            j <= 32,
            x < Q33,
            acc + 1 <= pow2(j as nat),
            frac_acc(xn, 0, 32) == frac_acc(x as nat, acc as nat, (32 - j) as nat),
        decreases 32 - j,
    {
        proof {
            lemma_pow2_adds(j as nat, 1);
            lemma2_to64();
        }
        proof {
            assert(x * x < Q33 * Q33) by (nonlinear_arith)
                requires x < Q33;
            assert((x * x) as int / (Q32 as int) < (Q33 * Q33) as int / (Q32 as int))
                by (nonlinear_arith)
                requires x * x < Q33 * Q33;
        }
        let x2: u128 = (x * x) / Q32;
        if x2 >= Q33 {
            x = x2 / 2;
            acc = acc * 2 + 1;
        } else {
            x = x2;
            acc = acc * 2;
        }
        j += 1;
    }
    proof {
        lemma2_to64();
        assert(acc < Q32);
    }
    let log2_val: u128 = e * Q32 + acc;
    proof {
        assert(log2_val as nat == log2_q32(gnum, gden));
        assert(log2_val < 65 * Q32);
    }

    // Total bits, hasher count, bits per hasher.
    let n128: u128 = capacity as u128;
    proof {
        assert(n128 * log2_val <= Q32 * (65 * Q32)) by (nonlinear_arith)
            requires n128 <= Q32, log2_val <= 65 * Q32;
        assert(n128 * log2_val * LOG2E_Q32 <= (Q32 * (65 * Q32)) * LOG2E_Q32)
            by (nonlinear_arith)
            requires n128 * log2_val <= Q32 * (65 * Q32);
    }
    let total: u128 = (n128 * log2_val * LOG2E_Q32 + Q64 - 1) / Q64;
    proof {
        assert(total as nat == spec_total_bits(gn, gnum, gden));
    }
    let k_raw: u128 = (2 * total * LN2_Q32 + n128 * Q32) / (2 * n128 * Q32);
    proof {
        assert(total <= 65 * Q32 * LOG2E_Q32) by (nonlinear_arith)
            requires
                n128 * log2_val * LOG2E_Q32 <= (Q32 * (65 * Q32)) * LOG2E_Q32,
                total as int == ((n128 * log2_val * LOG2E_Q32 + Q64 - 1) as int) / (Q64 as int);
        assert(2 * total * LN2_Q32 <= 2 * (65 * Q32 * LOG2E_Q32) * LN2_Q32)
            by (nonlinear_arith)
            requires total <= 65 * Q32 * LOG2E_Q32;
        assert(n128 * Q32 <= Q32 * Q32) by (nonlinear_arith)
            requires n128 <= Q32;
    }
    let k128: u128 = if k_raw == 0 { 1 } else { k_raw };
    proof {
        assert(k128 as nat == spec_hasher_count(gn, gnum, gden));
        assert(k_raw <= 2 * total * LN2_Q32 + n128 * Q32) by (nonlinear_arith)
            requires
                2 * n128 * Q32 >= 1,
                k_raw == (2 * total * LN2_Q32 + n128 * Q32) / (2 * n128 * Q32);
    }
    let m_raw: u128 = (total + k128 - 1) / k128;
    let m128: u128 = if m_raw == 0 { 1 } else { m_raw };
    proof {
        assert(m128 as nat == spec_bits_per_hasher(gn, gnum, gden));
        vstd::arithmetic::div_mod::lemma_fundamental_div_mod(
            (total + k128 - 1) as int,
            k128 as int,
        );
        vstd::arithmetic::div_mod::lemma_mod_bound((total + k128 - 1) as int, k128 as int);
        assert(m_raw as int * (k128 as int) <= (total + k128 - 1) as int) by (nonlinear_arith)
            requires
                (total + k128 - 1) as int == (k128 as int) * (((total + k128 - 1) as int) / (
                k128 as int)) + ((total + k128 - 1) as int) % (k128 as int),
                ((total + k128 - 1) as int) % (k128 as int) >= 0,
                m_raw as int == ((total + k128 - 1) as int) / (k128 as int);
        assert(m_raw <= total + 1) by (nonlinear_arith)
            requires
                m_raw as int * (k128 as int) <= (total + k128 - 1) as int,
                k128 >= 1;
        assert(m128 <= total + 1);
        // The product of the two derived sizes stays near the total
        // bit count, well inside the wide word.
        assert(k128 * m128 <= total + k128) by (nonlinear_arith)
            requires
                m_raw as int * (k128 as int) <= (total + k128 - 1) as int,
                m128 == m_raw || (m_raw == 0 && m128 == 1),
                k128 >= 1,
                m128 >= 1;
        assert(total <= 0x80000000000000000000) by (nonlinear_arith)
            requires
                total as int == ((n128 * log2_val * LOG2E_Q32 + Q64 - 1) as int) / (
                Q64 as int),
                n128 * log2_val * LOG2E_Q32 <= (Q32 * (65 * Q32)) * LOG2E_Q32;
        assert(k128 <= 0x20000000000000000000000000000) by (nonlinear_arith)
            requires
                k128 <= 2 * total * LN2_Q32 + n128 * Q32 + 1,
                total <= 0x80000000000000000000,
                LN2_Q32 <= 0x100000000,
                n128 <= 0x100000000,
                Q32 == 0x100000000;
    }
    let bits: u128 = k128 * m128;
    if bits + 63 > (usize::MAX as u128) {
        return Err(ChainError::InvalidParameter);
    }
    proof {
        assert(k128 <= bits && m128 <= bits) by (nonlinear_arith)
            requires k128 >= 1, m128 >= 1, bits == k128 * m128;
    }
    let k = k128 as usize;
    let m = m128 as usize;
    proof {
        assert(k as nat * m as nat == bits as nat);
    }
    Ok((k, m))
}

/// Any exponent is below its power of two.
proof fn lemma_pow2_bound(e: nat)
    ensures e < pow2(e),
    decreases e,
{
    if e == 0 {
        assert(pow2(0) == 1) by { lemma2_to64(); }
    } else {
        lemma_pow2_bound((e - 1) as nat);
        lemma_pow2_adds((e - 1) as nat, 1);
        lemma2_to64();
    }
}

/// The shared insertion/lookup contract of the two filter variants: `wf`
/// is the structural invariant, `bit` the state of one slot, `pos` the
/// slot probed by hasher `i` for a value, and `has` the lookup result.
pub trait BloomFilter: Sized {
    spec fn wf(&self) -> bool;

    spec fn k(&self) -> nat;

    spec fn m(&self) -> nat;

    spec fn bit(&self, j: nat) -> bool;

    spec fn pos(&self, i: nat, data: Seq<u8>) -> nat;

    /// Probe positions stay inside the bit array.
    proof fn lemma_pos_in_range(&self, i: nat, data: Seq<u8>)
        requires self.wf(), i < self.k(),
        ensures self.pos(i, data) < self.k() * self.m();

    /// A value is reported present when all its probe slots are set.
    open spec fn has(&self, data: Seq<u8>) -> bool {
        forall|i: nat| i < self.k() ==> self.bit(#[trigger] self.pos(i, data))
    }

    /// Set every probe slot of `data`; everything already present stays
    /// present, and nothing else than the probe slots changes.
    fn insert(&mut self, data: &Vec<u8>)
        requires old(self).wf(),
        ensures
            final(self).wf(),
            final(self).k() == old(self).k(),
            final(self).m() == old(self).m(),
            forall|i: nat, x: Seq<u8>| #[trigger] final(self).pos(i, x) == old(self).pos(i, x),
            forall|j: nat| j < final(self).k() * final(self).m()
                ==> #[trigger] final(self).bit(j) == (old(self).bit(j) || (exists|i: nat|
                    i < old(self).k() && j == old(self).pos(i, data@))),
            final(self).has(data@),
            forall|x: Seq<u8>| old(self).has(x) ==> #[trigger] final(self).has(x);

    /// Report whether every probe slot of `data` is set.
    fn contains(&self, data: &Vec<u8>) -> (r: bool)
        requires self.wf(),
        ensures r == self.has(data@);
}

/// A Bloom filter driven by one seeded hash: hasher `i` uses seed `i`.
#[derive(Clone, Debug)]
pub struct SeededBloomFilter {
    number_of_hashers: usize,
    bits_per_hasher: usize,
    bitset: Bitset,
}

/// The slot hasher `i` probes for `data` in a filter with `m` bits per
/// hasher under the seeded strategy.
pub open spec fn seeded_pos(i: nat, m: nat, data: Seq<u8>) -> nat
    recommends m > 0, i < 0x1_0000_0000_0000_0000,
{
    i * m + (seeded_hash(i as u64, data) as nat) % m
}

impl BloomFilter for SeededBloomFilter {
    closed spec fn wf(&self) -> bool {
        &&& self.number_of_hashers >= 1
        &&& self.bits_per_hasher >= 1
        &&& self.bitset.well_formed()
        &&& self.bitset@.len() == self.k() * self.m()
    }

    closed spec fn k(&self) -> nat {
        self.number_of_hashers as nat
    }

    closed spec fn m(&self) -> nat {
        self.bits_per_hasher as nat
    }

    closed spec fn bit(&self, j: nat) -> bool {
        self.bitset@[j as int]
    }

    closed spec fn pos(&self, i: nat, data: Seq<u8>) -> nat {
        seeded_pos(i, self.m(), data)
    }

    proof fn lemma_pos_in_range(&self, i: nat, data: Seq<u8>) {
        let h = (seeded_hash(i as u64, data) as nat) % self.m();
        assert(h < self.m());
        assert(i * self.m() + h < self.k() * self.m()) by (nonlinear_arith)
            requires i < self.k(), h < self.m();
    }

    fn insert(&mut self, data: &Vec<u8>) {
        let k = self.number_of_hashers;
        let m = self.bits_per_hasher;
        let mut i: usize = 0;
        while i < k
            invariant
                i <= k,
                k == self.number_of_hashers,
                m == self.bits_per_hasher,
                old(self).number_of_hashers == k,
                old(self).bits_per_hasher == m,
                self.wf(),
                old(self).wf(),
                forall|j: nat| j < self.k() * self.m()
                    ==> #[trigger] self.bit(j) == (old(self).bit(j) || (exists|t: nat|
                        t < i && j == seeded_pos(t, m as nat, data@))),
            decreases k - i,
        {
            let ghost pre = *self;
            let h = seeded_hash_bytes(i as u64, data);
            let slot = (h % (m as u64)) as usize;
            proof {
                self.bitset.lemma_len_bound();
                assert(i * m + slot < k * m) by (nonlinear_arith)
                    requires i < k, slot < m;
            }
            let idx = i * m + slot;
            self.bitset.set(idx, true);
            i += 1;
            proof {
                assert(seeded_pos((i - 1) as nat, m as nat, data@) == idx as nat);
                assert forall|j: nat| j < self.k() * self.m() implies #[trigger] self.bit(j) == (
                    old(self).bit(j) || (exists|t: nat| t < i && j == seeded_pos(t, m as nat, data@))
                ) by {
                    assert(pre.bit(j) == (old(self).bit(j) || (exists|t: nat|
                        t < i - 1 && j == seeded_pos(t, m as nat, data@))));
                    if j == idx as nat {
                        assert(self.bit(j));
                        assert(exists|t: nat| t < i && j == seeded_pos(t, m as nat, data@));
                    } else {
                        assert(self.bit(j) == pre.bit(j));
                        if exists|t: nat| t < i && j == seeded_pos(t, m as nat, data@) {
                            let t = choose|t: nat| t < i && j == seeded_pos(t, m as nat, data@);
                            assert(t < i - 1);
                            assert(exists|t2: nat| t2 < i - 1 && j == seeded_pos(
                                t2,
                                m as nat,
                                data@,
                            ));
                        }
                    }
                }
            }
        }
        proof {
            assert forall|j: nat| j < self.k() * self.m() implies #[trigger] self.bit(j) == (
                old(self).bit(j) || (exists|t: nat| t < old(self).k() && j == old(self).pos(
                    t,
                    data@,
                ))
            ) by {
                assert(self.bit(j) == (old(self).bit(j) || (exists|t: nat|
                    t < k && j == seeded_pos(t, m as nat, data@))));
                if exists|t: nat| t < k && j == seeded_pos(t, m as nat, data@) {
                    let t = choose|t: nat| t < k && j == seeded_pos(t, m as nat, data@);
                    assert(old(self).pos(t, data@) == seeded_pos(t, m as nat, data@));
                    assert(exists|t2: nat| t2 < old(self).k() && j == old(self).pos(t2, data@));
                }
                if exists|t: nat| t < old(self).k() && j == old(self).pos(t, data@) {
                    let t = choose|t: nat| t < old(self).k() && j == old(self).pos(t, data@);
                    assert(seeded_pos(t, m as nat, data@) == old(self).pos(t, data@));
                    assert(exists|t2: nat| t2 < k && j == seeded_pos(t2, m as nat, data@));
                }
            }
            assert forall|t: nat| t < self.k() implies self.bit(
                #[trigger] self.pos(t, data@),
            ) by {
                self.lemma_pos_in_range(t, data@);
                let j = self.pos(t, data@);
                assert(j == seeded_pos(t, m as nat, data@));
                assert(exists|t2: nat| t2 < k && j == seeded_pos(t2, m as nat, data@));
                assert(self.bit(j) == (old(self).bit(j) || (exists|t2: nat|
                    t2 < k && j == seeded_pos(t2, m as nat, data@))));
            }
            assert forall|x: Seq<u8>| old(self).has(x) implies #[trigger] self.has(x) by {
                assert forall|t: nat| t < self.k() implies self.bit(
                    #[trigger] self.pos(t, x),
                ) by {
                    self.lemma_pos_in_range(t, x);
                    let j = self.pos(t, x);
                    assert(old(self).bit(old(self).pos(t, x)));
                    assert(old(self).pos(t, x) == j);
                    assert(self.bit(j) == (old(self).bit(j) || (exists|t2: nat|
                        t2 < k && j == seeded_pos(t2, m as nat, data@))));
                }
            }
        }
    }

    fn contains(&self, data: &Vec<u8>) -> (r: bool) {
        let k = self.number_of_hashers;
        let m = self.bits_per_hasher;
        let mut i: usize = 0;
        while i < k
            invariant
                i <= k,
                k == self.number_of_hashers,
                m == self.bits_per_hasher,
                self.wf(),
                forall|t: nat| t < i ==> self.bit(#[trigger] self.pos(t, data@)),
            decreases k - i,
        {
            let h = seeded_hash_bytes(i as u64, data);
            let slot = (h % (m as u64)) as usize;
            proof {
                self.bitset.lemma_len_bound();
                assert(i * m + slot < k * m) by (nonlinear_arith)
                    requires i < k, slot < m;
            }
            let idx = i * m + slot;
            if !self.bitset.get(idx) {
                proof {
                    assert(idx as nat == self.pos(i as nat, data@));
                }
                return false;
            }
            proof {
                assert(idx as nat == self.pos(i as nat, data@));
            }
            i += 1;
        }
        true
    }
}

impl SeededBloomFilter {
    /// A fresh filter for the desired capacity and false-positive rate
    /// fp_num/fp_den; every slot starts clear.
    pub fn new(capacity: usize, fp_num: u64, fp_den: u64) -> (r: Result<Self, ChainError>)
        ensures
            r is Ok <==> bloom_config_ok(capacity as nat, fp_num as nat, fp_den as nat),
            match r {
                Ok(f) => {
                    &&& f.wf()
                    &&& f.k() == spec_hasher_count(capacity as nat, fp_num as nat, fp_den as nat)
                    &&& f.m() == spec_bits_per_hasher(capacity as nat, fp_num as nat, fp_den as nat)
                    &&& forall|j: nat| j < f.k() * f.m() ==> !#[trigger] f.bit(j)
                },
                Err(e) => e == ChainError::InvalidParameter,
            },
    {
        let (k, m) = match derive_config(capacity, fp_num, fp_den) {
            Ok(km) => km,
            Err(e) => {
                return Err(e);
            },
        };
        let bitset = Bitset::new(k * m);
        Ok(SeededBloomFilter { number_of_hashers: k, bits_per_hasher: m, bitset })
    }

    /// Whether the other filter was derived with the same configuration.
    pub fn eq_configuration(&self, other: &Self) -> (r: bool)
        ensures r == (self.k() == other.k() && self.m() == other.m()),
    {
        self.number_of_hashers == other.number_of_hashers
            && self.bits_per_hasher == other.bits_per_hasher
    }

    /// The filter reporting present whatever either input reports
    /// present: the bitwise OR.  Filters of unlike configuration are
    /// refused.
    pub fn union(&self, other: &Self) -> (r: Result<Self, ChainError>)
        requires self.wf(), other.wf(),
        ensures
            r is Ok <==> (self.k() == other.k() && self.m() == other.m()),
            match r {
                Ok(u) => {
                    &&& u.wf()
                    &&& u.k() == self.k()
                    &&& u.m() == self.m()
                    &&& forall|j: nat| j < u.k() * u.m()
                        ==> #[trigger] u.bit(j) == (self.bit(j) || other.bit(j))
                    &&& forall|x: Seq<u8>| self.has(x) || other.has(x) ==> #[trigger] u.has(x)
                },
                Err(e) => e == ChainError::ConfigurationMismatch,
            },
    {
        if !self.eq_configuration(other) {
            return Err(ChainError::ConfigurationMismatch);
        }
        let bitset = self.bitset.union(&other.bitset);
        let u = SeededBloomFilter {
            number_of_hashers: self.number_of_hashers,
            bits_per_hasher: self.bits_per_hasher,
            bitset,
        };
        proof {
            assert forall|x: Seq<u8>| self.has(x) || other.has(x) implies #[trigger] u.has(x) by {
                assert forall|t: nat| t < u.k() implies u.bit(#[trigger] u.pos(t, x)) by {
                    u.lemma_pos_in_range(t, x);
                    assert(u.pos(t, x) == self.pos(t, x));
                    assert(u.pos(t, x) == other.pos(t, x));
                }
            }
        }
        Ok(u)
    }

    /// The bitwise AND: anything it reports present, both inputs report
    /// present.  Filters of unlike configuration are refused.
    pub fn intersect(&self, other: &Self) -> (r: Result<Self, ChainError>)
        requires self.wf(), other.wf(),
        ensures
            r is Ok <==> (self.k() == other.k() && self.m() == other.m()),
            match r {
                Ok(u) => {
                    &&& u.wf()
                    &&& u.k() == self.k()
                    &&& u.m() == self.m()
                    &&& forall|j: nat| j < u.k() * u.m()
                        ==> #[trigger] u.bit(j) == (self.bit(j) && other.bit(j))
                    &&& forall|x: Seq<u8>| #[trigger] u.has(x) ==> self.has(x) && other.has(x)
                },
                Err(e) => e == ChainError::ConfigurationMismatch,
            },
    {
        if !self.eq_configuration(other) {
            return Err(ChainError::ConfigurationMismatch);
        }
        let bitset = self.bitset.intersect(&other.bitset);
        let u = SeededBloomFilter {
            number_of_hashers: self.number_of_hashers,
            bits_per_hasher: self.bits_per_hasher,
            bitset,
        };
        proof {
            assert forall|x: Seq<u8>| #[trigger] u.has(x) implies self.has(x) && other.has(x) by {
                assert forall|t: nat| t < self.k() implies self.bit(
                    #[trigger] self.pos(t, x),
                ) by {
                    u.lemma_pos_in_range(t, x);
                    assert(u.bit(u.pos(t, x)));
                    assert(u.pos(t, x) == self.pos(t, x));
                }
                assert forall|t: nat| t < other.k() implies other.bit(
                    #[trigger] other.pos(t, x),
                ) by {
                    u.lemma_pos_in_range(t, x);
                    assert(u.bit(u.pos(t, x)));
                    assert(u.pos(t, x) == other.pos(t, x));
                }
            }
        }
        Ok(u)
    }

    /// The packed bytes of the bit array, hashed into tree nodes.
    pub fn to_bytes(&self) -> (r: Vec<u8>)
        ensures r@ == crate::bitset::bytes_of_words(self.words()),
    {
        self.bitset.to_bytes()
    }

    /// The packed words of the bit array, for specification purposes.
    pub closed spec fn words(&self) -> Seq<u64> {
        self.bitset.to_words()
    }

    /// Decide well-formedness of an arbitrary filter value.
    pub fn check_wf(&self) -> (r: bool)
        ensures r == self.wf(),
    {
        if self.number_of_hashers == 0 || self.bits_per_hasher == 0 {
            return false;
        }
        if !self.bitset.is_well_formed() {
            return false;
        }
        let bits = self.bitset.size();
        proof {
            self.bitset.lemma_len_bound();
        }
        match self.number_of_hashers.checked_mul(self.bits_per_hasher) {
            Some(p) => p == bits,
            None => {
                proof {
                    assert(self.k() * self.m() > usize::MAX);
                }
                false
            },
        }
    }

    /// An exact copy, sharing nothing with the original.
    pub fn duplicate(&self) -> (r: Self)
        ensures
            r.k() == self.k(),
            r.m() == self.m(),
            r.wf() == self.wf(),
            r.words() == self.words(),
            forall|j: nat| #[trigger] r.bit(j) == self.bit(j),
            forall|x: Seq<u8>| #[trigger] r.has(x) == self.has(x),
    {
        let r = SeededBloomFilter {
            number_of_hashers: self.number_of_hashers,
            bits_per_hasher: self.bits_per_hasher,
            bitset: self.bitset.duplicate(),
        };
        proof {
            assert forall|x: Seq<u8>| #[trigger] r.has(x) == self.has(x) by {
                assert(forall|i: nat| r.pos(i, x) == self.pos(i, x));
                if r.has(x) {
                    assert forall|i: nat| i < self.k() implies self.bit(
                        #[trigger] self.pos(i, x),
                    ) by {
                        assert(r.bit(r.pos(i, x)));
                    }
                }
                if self.has(x) {
                    assert forall|i: nat| i < r.k() implies r.bit(#[trigger] r.pos(i, x)) by {
                        assert(self.bit(self.pos(i, x)));
                    }
                }
            }
        }
        r
    }

    /// How many slots the filter has in all.
    pub fn total_bits(&self) -> (r: usize)
        requires self.wf(),
        ensures r == self.k() * self.m(),
    {
        proof {
            self.bitset.lemma_len_bound();
        }
        self.number_of_hashers * self.bits_per_hasher
    }

    /// The bit array as a sequence, for specification purposes.
    pub closed spec fn bits_seq(&self) -> Seq<bool> {
        self.bitset@
    }

    /// How many slots are set.
    pub fn count_ones(&self) -> (r: usize)
        requires self.wf(),
        ensures r == crate::bitset::count_trues(self.bits_seq()),
    {
        self.bitset.count_ones()
    }

    /// The configuration, for rebuilding the filter elsewhere.
    pub fn config(&self) -> (r: (usize, usize))
        ensures r.0 == self.k(), r.1 == self.m(),
    {
        (self.number_of_hashers, self.bits_per_hasher)
    }

    /// Rebuild a filter from its configuration and packed bytes; it
    /// succeeds exactly on a well-formed configuration whose byte dump
    /// has the right length and clear slack bits.
    pub fn from_parts(k: usize, m: usize, bytes: &Vec<u8>) -> (r: Option<Self>)
        ensures
            r is Some <==> (k >= 1 && m >= 1 && k * m <= usize::MAX - 63 && bytes@.len() == ((
            k * m + 63) / 64) * 8 && crate::bitset::slack_ok(
                (k * m) as int,
                crate::bitset::words_of_bytes(bytes@),
            )),
            match r {
                Some(f) => {
                    &&& f.wf()
                    &&& f.k() == k
                    &&& f.m() == m
                    &&& f.words() == crate::bitset::words_of_bytes(bytes@)
                    &&& crate::bitset::bytes_of_words(f.words()) == bytes@
                },
                None => true,
            },
    {
        if k == 0 || m == 0 {
            return None;
        }
        let bits = match k.checked_mul(m) {
            Some(b) => b,
            None => {
                return None;
            },
        };
        if bits > usize::MAX - 63 {
            return None;
        }
        match Bitset::from_parts(bits, bytes) {
            Some(bitset) => {
                let f = SeededBloomFilter { number_of_hashers: k, bits_per_hasher: m, bitset };
                proof {
                    lemma_words_of_bytes_round_trip(f.bitset.to_words(), bytes@);
                }
                Some(f)
            },
            None => None,
        }
    }
}

/// Reading words back from a byte dump and dumping them again gives the
/// same bytes, provided the dump length matches.
proof fn lemma_words_of_bytes_round_trip(ws: Seq<u64>, bs: Seq<u8>)
    requires
        ws == crate::bitset::words_of_bytes(bs),
        bs.len() == ws.len() * 8,
    ensures
        crate::bitset::bytes_of_words(ws) == bs,
    decreases ws.len(),
{
    vstd::bytes::lemma_auto_spec_u64_to_from_le_bytes();
    if ws.len() == 0 {
        assert(crate::bitset::bytes_of_words(ws) =~= bs);
    } else {
        let n = ws.len() as int;
        let front = bs.subrange(0, (n - 1) * 8);
        assert(ws.drop_last() =~= crate::bitset::words_of_bytes(front)) by {
            assert forall|i: int| 0 <= i < n - 1 implies crate::bitset::words_of_bytes(front)[i]
                == ws.drop_last()[i] by {
                assert(front.subrange(i * 8, i * 8 + 8) =~= bs.subrange(i * 8, i * 8 + 8));
            }
        }
        lemma_words_of_bytes_round_trip(ws.drop_last(), front);
        let last_bytes = bs.subrange((n - 1) * 8, n * 8);
        assert(ws.last() == vstd::bytes::spec_u64_from_le_bytes(last_bytes));
        assert(vstd::bytes::spec_u64_to_le_bytes(ws.last()) =~= last_bytes) by {
            lemma_le_bytes_injective(ws.last(), last_bytes);
        }
        assert(crate::bitset::bytes_of_words(ws) =~= bs);
    }
}

/// A byte sequence of length eight that reads back as `x` is the dump of
/// `x`.
proof fn lemma_le_bytes_injective(x: u64, bs: Seq<u8>)
    requires
        bs.len() == 8,
        x == vstd::bytes::spec_u64_from_le_bytes(bs),
    ensures
        vstd::bytes::spec_u64_to_le_bytes(x) == bs,
{
    vstd::bytes::lemma_auto_spec_u64_to_from_le_bytes();
    assert(vstd::bytes::spec_u64_to_le_bytes(vstd::bytes::spec_u64_from_le_bytes(bs)) == bs);
}

/// Fixed seed of the first hash of the double-hash strategy.
pub const KM_SEED_A: u64 = 0x9e3779b97f4a7c15;

/// Fixed seed of the second hash of the double-hash strategy.
pub const KM_SEED_B: u64 = 0x517cc1b727220a95;

/// The slot hasher `i` probes under the double-hash strategy:
/// hash_a + i * hash_b, wrapping, reduced to the hasher's slice.
pub open spec fn km_pos(i: nat, m: nat, ha: u64, hb: u64) -> nat
    recommends m > 0, i < 0x1_0000_0000_0000_0000,
{
    i * m + (vstd::wrapping::u64_specs::wrapping_add(
        ha,
        vstd::wrapping::u64_specs::wrapping_mul(i as u64, hb),
    ) as nat) % m
}

/// A Bloom filter combining two independent hashes: hasher `i` probes at
/// hash_a + i * hash_b.
#[derive(Clone, Debug)]
pub struct KMBloomFilter {
    number_of_hashers: usize,
    bits_per_hasher: usize,
    bitset: Bitset,
}

impl BloomFilter for KMBloomFilter {
    closed spec fn wf(&self) -> bool {
        &&& self.number_of_hashers >= 1
        &&& self.bits_per_hasher >= 1
        &&& self.bitset.well_formed()
        &&& self.bitset@.len() == self.k() * self.m()
    }

    closed spec fn k(&self) -> nat {
        self.number_of_hashers as nat
    }

    closed spec fn m(&self) -> nat {
        self.bits_per_hasher as nat
    }

    closed spec fn bit(&self, j: nat) -> bool {
        self.bitset@[j as int]
    }

    closed spec fn pos(&self, i: nat, data: Seq<u8>) -> nat {
        km_pos(i, self.m(), seeded_hash(KM_SEED_A, data), seeded_hash(KM_SEED_B, data))
    }

    proof fn lemma_pos_in_range(&self, i: nat, data: Seq<u8>) {
        let ha = seeded_hash(KM_SEED_A, data);
        let hb = seeded_hash(KM_SEED_B, data);
        let h = (vstd::wrapping::u64_specs::wrapping_add(
            ha,
            vstd::wrapping::u64_specs::wrapping_mul(i as u64, hb),
        ) as nat) % self.m();
        assert(h < self.m());
        assert(i * self.m() + h < self.k() * self.m()) by (nonlinear_arith)
            requires i < self.k(), h < self.m();
    }

    fn insert(&mut self, data: &Vec<u8>) {
        let k = self.number_of_hashers;
        let m = self.bits_per_hasher;
        let ha = seeded_hash_bytes(KM_SEED_A, data);
        let hb = seeded_hash_bytes(KM_SEED_B, data);
        let mut i: usize = 0;
        while i < k
            invariant
                i <= k,
                k == self.number_of_hashers,
                m == self.bits_per_hasher,
                old(self).number_of_hashers == k,
                old(self).bits_per_hasher == m,
                ha == seeded_hash(KM_SEED_A, data@),
                hb == seeded_hash(KM_SEED_B, data@),
                self.wf(),
                old(self).wf(),
                forall|j: nat| j < self.k() * self.m()
                    ==> #[trigger] self.bit(j) == (old(self).bit(j) || (exists|t: nat|
                        t < i && j == km_pos(t, m as nat, ha, hb))),
            decreases k - i,
        {
            let ghost pre = *self;
            let mixed = ha.wrapping_add((i as u64).wrapping_mul(hb));
            let slot = (mixed % (m as u64)) as usize;
            proof {
                self.bitset.lemma_len_bound();
                assert(i * m + slot < k * m) by (nonlinear_arith)
                    requires i < k, slot < m;
            }
            let idx = i * m + slot;
            self.bitset.set(idx, true);
            i += 1;
            proof {
                assert(km_pos((i - 1) as nat, m as nat, ha, hb) == idx as nat);
                assert forall|j: nat| j < self.k() * self.m() implies #[trigger] self.bit(j) == (
                    old(self).bit(j) || (exists|t: nat| t < i && j == km_pos(t, m as nat, ha, hb))
                ) by {
                    assert(pre.bit(j) == (old(self).bit(j) || (exists|t: nat|
                        t < i - 1 && j == km_pos(t, m as nat, ha, hb))));
                    if j == idx as nat {
                        assert(self.bit(j));
                        assert(exists|t: nat| t < i && j == km_pos(t, m as nat, ha, hb));
                    } else {
                        assert(self.bit(j) == pre.bit(j));
                        if exists|t: nat| t < i && j == km_pos(t, m as nat, ha, hb) {
                            let t = choose|t: nat| t < i && j == km_pos(t, m as nat, ha, hb);
                            assert(t < i - 1);
                            assert(exists|t2: nat| t2 < i - 1 && j == km_pos(t2, m as nat, ha, hb));
                        }
                    }
                }
            }
        }
        proof {
            assert forall|j: nat| j < self.k() * self.m() implies #[trigger] self.bit(j) == (
                old(self).bit(j) || (exists|t: nat| t < old(self).k() && j == old(self).pos(
                    t,
                    data@,
                ))
            ) by {
                assert(self.bit(j) == (old(self).bit(j) || (exists|t: nat|
                    t < k && j == km_pos(t, m as nat, ha, hb))));
                if exists|t: nat| t < k && j == km_pos(t, m as nat, ha, hb) {
                    let t = choose|t: nat| t < k && j == km_pos(t, m as nat, ha, hb);
                    assert(old(self).pos(t, data@) == km_pos(t, m as nat, ha, hb));
                    assert(exists|t2: nat| t2 < old(self).k() && j == old(self).pos(t2, data@));
                }
                if exists|t: nat| t < old(self).k() && j == old(self).pos(t, data@) {
                    let t = choose|t: nat| t < old(self).k() && j == old(self).pos(t, data@);
                    assert(km_pos(t, m as nat, ha, hb) == old(self).pos(t, data@));
                    assert(exists|t2: nat| t2 < k && j == km_pos(t2, m as nat, ha, hb));
                }
            }
            assert forall|t: nat| t < self.k() implies self.bit(
                #[trigger] self.pos(t, data@),
            ) by {
                self.lemma_pos_in_range(t, data@);
                let j = self.pos(t, data@);
                assert(j == km_pos(t, m as nat, ha, hb));
                assert(exists|t2: nat| t2 < k && j == km_pos(t2, m as nat, ha, hb));
                assert(self.bit(j) == (old(self).bit(j) || (exists|t2: nat|
                    t2 < k && j == km_pos(t2, m as nat, ha, hb))));
            }
            assert forall|x: Seq<u8>| old(self).has(x) implies #[trigger] self.has(x) by {
                assert forall|t: nat| t < self.k() implies self.bit(
                    #[trigger] self.pos(t, x),
                ) by {
                    self.lemma_pos_in_range(t, x);
                    let j = self.pos(t, x);
                    assert(old(self).bit(old(self).pos(t, x)));
                    assert(old(self).pos(t, x) == j);
                    assert(self.bit(j) == (old(self).bit(j) || (exists|t2: nat|
                        t2 < k && j == km_pos(
                            t2,
                            m as nat,
                            seeded_hash(KM_SEED_A, x),
                            seeded_hash(KM_SEED_B, x),
                        ))));
                }
            }
        }
    }

    fn contains(&self, data: &Vec<u8>) -> (r: bool) {
        let k = self.number_of_hashers;
        let m = self.bits_per_hasher;
        let ha = seeded_hash_bytes(KM_SEED_A, data);
        let hb = seeded_hash_bytes(KM_SEED_B, data);
        let mut i: usize = 0;
        while i < k
            invariant
                i <= k,
                k == self.number_of_hashers,
                m == self.bits_per_hasher,
                ha == seeded_hash(KM_SEED_A, data@),
                hb == seeded_hash(KM_SEED_B, data@),
                self.wf(),
                forall|t: nat| t < i ==> self.bit(#[trigger] self.pos(t, data@)),
            decreases k - i,
        {
            let mixed = ha.wrapping_add((i as u64).wrapping_mul(hb));
            let slot = (mixed % (m as u64)) as usize;
            proof {
                self.bitset.lemma_len_bound();
                assert(i * m + slot < k * m) by (nonlinear_arith)
                    requires i < k, slot < m;
            }
            let idx = i * m + slot;
            if !self.bitset.get(idx) {
                proof {
                    assert(idx as nat == self.pos(i as nat, data@));
                }
                return false;
            }
            proof {
                assert(idx as nat == self.pos(i as nat, data@));
            }
            i += 1;
        }
        true
    }
}

impl KMBloomFilter {
    /// A fresh filter for the desired capacity and false-positive rate
    /// fp_num/fp_den; every slot starts clear.
    pub fn new(capacity: usize, fp_num: u64, fp_den: u64) -> (r: Result<Self, ChainError>)
        ensures
            r is Ok <==> bloom_config_ok(capacity as nat, fp_num as nat, fp_den as nat),
            match r {
                Ok(f) => {
                    &&& f.wf()
                    &&& f.k() == spec_hasher_count(capacity as nat, fp_num as nat, fp_den as nat)
                    &&& f.m() == spec_bits_per_hasher(capacity as nat, fp_num as nat, fp_den as nat)
                    &&& forall|j: nat| j < f.k() * f.m() ==> !#[trigger] f.bit(j)
                },
                Err(e) => e == ChainError::InvalidParameter,
            },
    {
        let (k, m) = match derive_config(capacity, fp_num, fp_den) {
            Ok(km) => km,
            Err(e) => {
                return Err(e);
            },
        };
        let bitset = Bitset::new(k * m);
        Ok(KMBloomFilter { number_of_hashers: k, bits_per_hasher: m, bitset })
    }

    /// Whether the other filter was derived with the same configuration.
    pub fn eq_configuration(&self, other: &Self) -> (r: bool)
        ensures r == (self.k() == other.k() && self.m() == other.m()),
    {
        self.number_of_hashers == other.number_of_hashers
            && self.bits_per_hasher == other.bits_per_hasher
    }

    /// The filter reporting present whatever either input reports
    /// present: the bitwise OR.  Filters of unlike configuration are
    /// refused.
    pub fn union(&self, other: &Self) -> (r: Result<Self, ChainError>)
        requires self.wf(), other.wf(),
        ensures
            r is Ok <==> (self.k() == other.k() && self.m() == other.m()),
            match r {
                Ok(u) => {
                    &&& u.wf()
                    &&& u.k() == self.k()
                    &&& u.m() == self.m()
                    &&& forall|j: nat| j < u.k() * u.m()
                        ==> #[trigger] u.bit(j) == (self.bit(j) || other.bit(j))
                    &&& forall|x: Seq<u8>| self.has(x) || other.has(x) ==> #[trigger] u.has(x)
                },
                Err(e) => e == ChainError::ConfigurationMismatch,
            },
    {
        if !self.eq_configuration(other) {
            return Err(ChainError::ConfigurationMismatch);
        }
        let bitset = self.bitset.union(&other.bitset);
        let u = KMBloomFilter {
            number_of_hashers: self.number_of_hashers,
            bits_per_hasher: self.bits_per_hasher,
            bitset,
        };
        proof {
            assert forall|x: Seq<u8>| self.has(x) || other.has(x) implies #[trigger] u.has(x) by {
                assert forall|t: nat| t < u.k() implies u.bit(#[trigger] u.pos(t, x)) by {
                    u.lemma_pos_in_range(t, x);
                    assert(u.pos(t, x) == self.pos(t, x));
                    assert(u.pos(t, x) == other.pos(t, x));
                }
            }
        }
        Ok(u)
    }

    /// The bitwise AND: anything it reports present, both inputs report
    /// present.  Filters of unlike configuration are refused.
    pub fn intersect(&self, other: &Self) -> (r: Result<Self, ChainError>)
        requires self.wf(), other.wf(),
        ensures
            r is Ok <==> (self.k() == other.k() && self.m() == other.m()),
            match r {
                Ok(u) => {
                    &&& u.wf()
                    &&& u.k() == self.k()
                    &&& u.m() == self.m()
                    &&& forall|j: nat| j < u.k() * u.m()
                        ==> #[trigger] u.bit(j) == (self.bit(j) && other.bit(j))
                    &&& forall|x: Seq<u8>| #[trigger] u.has(x) ==> self.has(x) && other.has(x)
                },
                Err(e) => e == ChainError::ConfigurationMismatch,
            },
    {
        if !self.eq_configuration(other) {
            return Err(ChainError::ConfigurationMismatch);
        }
        let bitset = self.bitset.intersect(&other.bitset);
        let u = KMBloomFilter {
            number_of_hashers: self.number_of_hashers,
            bits_per_hasher: self.bits_per_hasher,
            bitset,
        };
        proof {
            assert forall|x: Seq<u8>| #[trigger] u.has(x) implies self.has(x) && other.has(x) by {
                assert forall|t: nat| t < self.k() implies self.bit(
                    #[trigger] self.pos(t, x),
                ) by {
                    u.lemma_pos_in_range(t, x);
                    assert(u.bit(u.pos(t, x)));
                    assert(u.pos(t, x) == self.pos(t, x));
                }
                assert forall|t: nat| t < other.k() implies other.bit(
                    #[trigger] other.pos(t, x),
                ) by {
                    u.lemma_pos_in_range(t, x);
                    assert(u.bit(u.pos(t, x)));
                    assert(u.pos(t, x) == other.pos(t, x));
                }
            }
        }
        Ok(u)
    }

    /// How many slots the filter has in all.
    pub fn total_bits(&self) -> (r: usize)
        requires self.wf(),
        ensures r == self.k() * self.m(),
    {
        proof {
            self.bitset.lemma_len_bound();
        }
        self.number_of_hashers * self.bits_per_hasher
    }

    /// The bit array as a sequence, for specification purposes.
    pub closed spec fn bits_seq(&self) -> Seq<bool> {
        self.bitset@
    }

    /// How many slots are set.
    pub fn count_ones(&self) -> (r: usize)
        requires self.wf(),
        ensures r == crate::bitset::count_trues(self.bits_seq()),
    {
        self.bitset.count_ones()
    }
}

} // verus!
