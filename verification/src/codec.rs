//! The canonical byte layout of every persisted record, and the proofs
//! that reading a serialized record back yields the value that was
//! written.

use vstd::prelude::*;
use vstd::bytes::{spec_u64_to_le_bytes, spec_u64_from_le_bytes, spec_u128_to_le_bytes,
    spec_u128_from_le_bytes, u64_to_le_bytes, u64_from_le_bytes, u128_to_le_bytes,
    u128_from_le_bytes, lemma_auto_spec_u64_to_from_le_bytes,
    lemma_auto_spec_u128_to_from_le_bytes};
use crate::block::{Attribute, InterIndex, IndexConfig, IndexConfigs, IndexConfigsModel,
    index_configs_model};
use crate::digest::append_bytes;
use crate::bloom::BloomFilter;

verus! {

/// Append a machine word, little endian.
pub fn put_u64(out: &mut Vec<u8>, v: u64)
    ensures final(out)@ == old(out)@ + spec_u64_to_le_bytes(v),
{
    let b = u64_to_le_bytes(v);
    append_bytes(out, &b);
}

/// Read a machine word at `pos`, advancing it; refuse a short buffer.
pub fn take_u64(buf: &Vec<u8>, pos: &mut usize) -> (r: Option<u64>)
    ensures
        r is Some <==> *old(pos) + 8 <= buf@.len(),
        match r {
            Some(v) => {
                &&& v == spec_u64_from_le_bytes(buf@.subrange(
                    *old(pos) as int,
                    *old(pos) + 8,
                ))
                &&& *final(pos) == *old(pos) + 8
            },
            None => *final(pos) == *old(pos),
        },
{
    if buf.len() < 8 || *pos > buf.len() - 8 {
        return None;
    }
    let mut chunk: Vec<u8> = Vec::new();
    let mut j: usize = 0;
    while j < 8
        invariant
            j <= 8,
            *pos + 8 <= buf@.len(),
            buf@.len() <= usize::MAX,
            chunk@ =~= buf@.subrange(*pos as int, *pos + j),
        decreases 8 - j,
    {
        chunk.push(buf[*pos + j]);
        j += 1;
        proof {
            assert(chunk@ =~= buf@.subrange(*pos as int, *pos + j));
        }
    }
    let v = u64_from_le_bytes(chunk.as_slice());
    *pos = *pos + 8;
    Some(v)
}

/// Append a wide word, little endian.
pub fn put_u128(out: &mut Vec<u8>, v: u128)
    ensures final(out)@ == old(out)@ + spec_u128_to_le_bytes(v),
{
    let b = u128_to_le_bytes(v);
    append_bytes(out, &b);
}

/// Read a wide word at `pos`, advancing it; refuse a short buffer.
pub fn take_u128(buf: &Vec<u8>, pos: &mut usize) -> (r: Option<u128>)
    ensures
        r is Some <==> *old(pos) + 16 <= buf@.len(),
        match r {
            Some(v) => {
                &&& v == spec_u128_from_le_bytes(buf@.subrange(
                    *old(pos) as int,
                    *old(pos) + 16,
                ))
                &&& *final(pos) == *old(pos) + 16
            },
            None => *final(pos) == *old(pos),
        },
{
    if buf.len() < 16 || *pos > buf.len() - 16 {
        return None;
    }
    let mut chunk: Vec<u8> = Vec::new();
    let mut j: usize = 0;
    while j < 16
        invariant
            j <= 16,
            *pos + 16 <= buf@.len(),
            buf@.len() <= usize::MAX,
            chunk@ =~= buf@.subrange(*pos as int, *pos + j),
        decreases 16 - j,
    {
        chunk.push(buf[*pos + j]);
        j += 1;
        proof {
            assert(chunk@ =~= buf@.subrange(*pos as int, *pos + j));
        }
    }
    let v = u128_from_le_bytes(chunk.as_slice());
    *pos = *pos + 16;
    Some(v)
}

/// The encoding of a signed wide value: a sign byte then the
/// magnitude.
pub open spec fn spec_i128_bytes(v: int) -> Seq<u8> {
    if v < 0 {
        seq![1u8] + spec_u128_to_le_bytes((-v) as u128)
    } else {
        seq![0u8] + spec_u128_to_le_bytes(v as u128)
    }
}

/// Append a signed wide value.
pub fn put_i128(out: &mut Vec<u8>, v: i128)
    requires v != i128::MIN,
    ensures final(out)@ == old(out)@ + spec_i128_bytes(v as int),
{
    if v < 0 {
        out.push(1u8);
        let ghost mid = out@;
        put_u128(out, (-v) as u128);
        proof {
            assert(out@ =~= old(out)@ + spec_i128_bytes(v as int));
        }
    } else {
        out.push(0u8);
        let ghost mid = out@;
        put_u128(out, v as u128);
        proof {
            assert(out@ =~= old(out)@ + spec_i128_bytes(v as int));
        }
    }
}

/// Read a signed wide value at `pos`, advancing it.
pub fn take_i128(buf: &Vec<u8>, pos: &mut usize) -> (r: Option<i128>)
    ensures
        match r {
            Some(v) => {
                &&& *old(pos) + 17 <= buf@.len()
                &&& *final(pos) == *old(pos) + 17
                &&& v != i128::MIN
                &&& (buf@[*old(pos) as int] == 0u8 ==> v >= 0 && v as int
                    == spec_u128_from_le_bytes(buf@.subrange(
                    *old(pos) + 1,
                    *old(pos) + 17,
                )))
                &&& (buf@[*old(pos) as int] == 1u8 ==> v <= 0 && (v as int)
                    == -(spec_u128_from_le_bytes(buf@.subrange(
                    *old(pos) + 1,
                    *old(pos) + 17,
                )) as int))
            },
            None => {
                &&& *final(pos) == *old(pos)
                &&& !(*old(pos) + 17 <= buf@.len() && (buf@[*old(pos) as int] == 0u8
                    || buf@[*old(pos) as int] == 1u8) && spec_u128_from_le_bytes(
                    buf@.subrange(*old(pos) + 1, *old(pos) + 17),
                ) <= i128::MAX as u128)
            },
        },
{
    if buf.len() < 17 || *pos > buf.len() - 17 {
        return None;
    }
    let tag = buf[*pos];
    if tag != 0 && tag != 1 {
        return None;
    }
    let mut inner = *pos + 1;
    let ghost p0 = *pos;
    let mag = match take_u128(buf, &mut inner) {
        Some(m) => m,
        None => {
            return None;
        },
    };
    if tag == 0 {
        if mag > i128::MAX as u128 {
            return None;
        }
        *pos = *pos + 17;
        Some(mag as i128)
    } else {
        if mag > i128::MAX as u128 {
            return None;
        }
        let v = -(mag as i128);
        *pos = *pos + 17;
        Some(v)
    }
}

/// Round trip of the signed encoding.
pub proof fn lemma_i128_round_trip(v: i128)
    requires v != i128::MIN,
    ensures
        spec_i128_bytes(v as int).len() == 17,
        spec_i128_bytes(v as int)[0] == (if v < 0 { 1u8 } else { 0u8 }),
        spec_u128_from_le_bytes(spec_i128_bytes(v as int).subrange(1, 17)) == (
        if v < 0 { (-v) as u128 } else { v as u128 }),
{
    lemma_auto_spec_u128_to_from_le_bytes();
    if v < 0 {
        assert(spec_i128_bytes(v as int).subrange(1, 17) =~= spec_u128_to_le_bytes(
            (-v) as u128,
        ));
    } else {
        assert(spec_i128_bytes(v as int).subrange(1, 17) =~= spec_u128_to_le_bytes(
            v as u128,
        ));
    }
}

/// Append a length-prefixed byte string.
pub fn put_bytes(out: &mut Vec<u8>, b: &Vec<u8>)
    ensures
        final(out)@ == old(out)@ + spec_u64_to_le_bytes(b@.len() as u64) + b@,
{
    let n = b.len() as u64;
    put_u64(out, n);
    append_bytes(out, b);
}

/// Read a length-prefixed byte string at `pos`, advancing it.
pub fn take_bytes(buf: &Vec<u8>, pos: &mut usize) -> (r: Option<Vec<u8>>)
    ensures
        match r {
            Some(b) => {
                &&& *old(pos) + 8 <= buf@.len()
                &&& b@.len() == spec_u64_from_le_bytes(buf@.subrange(
                    *old(pos) as int,
                    *old(pos) + 8,
                ))
                &&& *final(pos) == *old(pos) + 8 + b@.len()
                &&& *final(pos) <= buf@.len()
                &&& b@ == buf@.subrange(*old(pos) + 8, *old(pos) + 8 + b@.len())
            },
            None => {
                &&& *final(pos) == *old(pos)
                &&& !(*old(pos) + 8 <= buf@.len() && spec_u64_from_le_bytes(buf@.subrange(
                    *old(pos) as int,
                    *old(pos) + 8,
                )) <= buf@.len() && *old(pos) + 8 + spec_u64_from_le_bytes(buf@.subrange(
                    *old(pos) as int,
                    *old(pos) + 8,
                )) <= buf@.len())
            },
        },
{
    let ghost p0 = *pos;
    let mut cursor = *pos;
    let n = match take_u64(buf, &mut cursor) {
        Some(n) => n,
        None => {
            return None;
        },
    };
    if n > buf.len() as u64 {
        return None;
    }
    let n_us = n as usize;
    if cursor > buf.len() - n_us {
        return None;
    }
    let mut b: Vec<u8> = Vec::new();
    let mut j: usize = 0;
    while j < n_us
        invariant
            j <= n_us,
            cursor == p0 + 8,
            cursor + n_us <= buf@.len(),
            buf@.len() <= usize::MAX,
            b@ =~= buf@.subrange(cursor as int, cursor + j),
        decreases n_us - j,
    {
        b.push(buf[cursor + j]);
        j += 1;
        proof {
            assert(b@ =~= buf@.subrange(cursor as int, cursor + j));
        }
    }
    *pos = cursor + n_us;
    Some(b)
}


/// The tag byte of an attribute.
pub open spec fn attr_tag(a: Attribute) -> u8 {
    match a {
        Attribute::Id => 0u8,
        Attribute::Address => 1u8,
        Attribute::Value => 2u8,
        Attribute::Timestamp => 3u8,
    }
}

/// The attribute of a tag byte.
pub open spec fn attr_of_tag(t: u8) -> Option<Attribute> {
    if t == 0 {
        Some(Attribute::Id)
    } else if t == 1 {
        Some(Attribute::Address)
    } else if t == 2 {
        Some(Attribute::Value)
    } else if t == 3 {
        Some(Attribute::Timestamp)
    } else {
        None
    }
}

/// Append an attribute tag.
pub fn put_attr(out: &mut Vec<u8>, a: Attribute)
    ensures final(out)@ == old(out)@ + seq![attr_tag(a)],
{
    let t: u8 = match a {
        Attribute::Id => 0u8,
        Attribute::Address => 1u8,
        Attribute::Value => 2u8,
        Attribute::Timestamp => 3u8,
    };
    out.push(t);
    proof {
        assert(final(out)@ =~= old(out)@ + seq![attr_tag(a)]);
    }
}

/// The encoding of one learned segment.
pub open spec fn spec_encode_inter(s: InterIndex) -> Seq<u8> {
    spec_u64_to_le_bytes(s.start_timestamp) + spec_i128_bytes(s.a_num as int)
        + spec_i128_bytes(s.b_num as int) + spec_i128_bytes(s.den as int)
}

/// Serialize one learned segment.
pub fn encode_inter(s: &InterIndex) -> (r: Vec<u8>)
    requires
        s.a_num != i128::MIN,
        s.b_num != i128::MIN,
        s.den != i128::MIN,
    ensures r@ == spec_encode_inter(*s),
{
    let mut out: Vec<u8> = Vec::new();
    put_u64(&mut out, s.start_timestamp);
    put_i128(&mut out, s.a_num);
    put_i128(&mut out, s.b_num);
    put_i128(&mut out, s.den);
    proof {
        assert(out@ =~= spec_encode_inter(*s));
    }
    out
}

/// Read one learned segment from the whole buffer.  Reading back what
/// `encode_inter` wrote yields the value that was written.
pub fn decode_inter(buf: &Vec<u8>) -> (r: Option<InterIndex>)
    ensures
        forall|s2: InterIndex| buf@ == spec_encode_inter(s2) && s2.a_num != i128::MIN
            && s2.b_num != i128::MIN && s2.den != i128::MIN ==> r == Some(s2),
{
    let mut pos: usize = 0;
    let ts = match take_u64(buf, &mut pos) {
        Some(v) => v,
        None => {
            proof {
                assert forall|s2: InterIndex| buf@ == spec_encode_inter(s2) && s2.a_num
                    != i128::MIN && s2.b_num != i128::MIN && s2.den != i128::MIN
                    implies false by {
                    lemma_i128_round_trip(s2.a_num);
                    lemma_i128_round_trip(s2.b_num);
                    lemma_i128_round_trip(s2.den);
                    lemma_auto_spec_u64_to_from_le_bytes();
                }
            }
            return None;
        },
    };
    let a = match take_i128(buf, &mut pos) {
        Some(v) => v,
        None => {
            proof {
                assert forall|s2: InterIndex| buf@ == spec_encode_inter(s2) && s2.a_num
                    != i128::MIN && s2.b_num != i128::MIN && s2.den != i128::MIN
                    implies false by {
                    lemma_inter_fields(s2, buf@);
                }
            }
            return None;
        },
    };
    let b = match take_i128(buf, &mut pos) {
        Some(v) => v,
        None => {
            proof {
                assert forall|s2: InterIndex| buf@ == spec_encode_inter(s2) && s2.a_num
                    != i128::MIN && s2.b_num != i128::MIN && s2.den != i128::MIN
                    implies false by {
                    lemma_inter_fields(s2, buf@);
                }
            }
            return None;
        },
    };
    let den = match take_i128(buf, &mut pos) {
        Some(v) => v,
        None => {
            proof {
                assert forall|s2: InterIndex| buf@ == spec_encode_inter(s2) && s2.a_num
                    != i128::MIN && s2.b_num != i128::MIN && s2.den != i128::MIN
                    implies false by {
                    lemma_inter_fields(s2, buf@);
                }
            }
            return None;
        },
    };
    let r = InterIndex { start_timestamp: ts, a_num: a, b_num: b, den };
    proof {
        assert forall|s2: InterIndex| buf@ == spec_encode_inter(s2) && s2.a_num != i128::MIN
            && s2.b_num != i128::MIN && s2.den != i128::MIN implies r == s2 by {
            lemma_inter_layout(s2, buf@);
            lemma_auto_spec_u64_to_from_le_bytes();
            lemma_i128_round_trip(s2.a_num);
            lemma_i128_round_trip(s2.b_num);
            lemma_i128_round_trip(s2.den);
            assert(buf@.subrange(0, 8) =~= spec_u64_to_le_bytes(s2.start_timestamp));
            assert(buf@.subrange(8, 25) =~= spec_i128_bytes(s2.a_num as int));
            assert(buf@.subrange(25, 42) =~= spec_i128_bytes(s2.b_num as int));
            assert(buf@.subrange(42, 59) =~= spec_i128_bytes(s2.den as int));
            assert(buf@[8] == spec_i128_bytes(s2.a_num as int)[0]);
            assert(buf@.subrange(9, 25) =~= spec_i128_bytes(s2.a_num as int).subrange(1, 17));
            assert(buf@[25] == spec_i128_bytes(s2.b_num as int)[0]);
            assert(buf@.subrange(26, 42) =~= spec_i128_bytes(s2.b_num as int).subrange(
                1,
                17,
            ));
            assert(buf@[42] == spec_i128_bytes(s2.den as int)[0]);
            assert(buf@.subrange(43, 59) =~= spec_i128_bytes(s2.den as int).subrange(1, 17));
        }
    }
    Some(r)
}

/// The byte-level facts the reader needs at each field of a segment's
/// encoding.
proof fn lemma_inter_fields(s: InterIndex, b: Seq<u8>)
    requires
        b == spec_encode_inter(s),
        s.a_num != i128::MIN,
        s.b_num != i128::MIN,
        s.den != i128::MIN,
    ensures
        b.len() == 59,
        b[8] == 0u8 || b[8] == 1u8,
        spec_u128_from_le_bytes(b.subrange(9, 25)) <= i128::MAX as u128,
        b[25] == 0u8 || b[25] == 1u8,
        spec_u128_from_le_bytes(b.subrange(26, 42)) <= i128::MAX as u128,
        b[42] == 0u8 || b[42] == 1u8,
        spec_u128_from_le_bytes(b.subrange(43, 59)) <= i128::MAX as u128,
{
    lemma_inter_layout(s, b);
    lemma_i128_round_trip(s.a_num);
    lemma_i128_round_trip(s.b_num);
    lemma_i128_round_trip(s.den);
    assert(b[8] == spec_i128_bytes(s.a_num as int)[0]);
    assert(b.subrange(9, 25) =~= spec_i128_bytes(s.a_num as int).subrange(1, 17));
    assert(b[25] == spec_i128_bytes(s.b_num as int)[0]);
    assert(b.subrange(26, 42) =~= spec_i128_bytes(s.b_num as int).subrange(1, 17));
    assert(b[42] == spec_i128_bytes(s.den as int)[0]);
    assert(b.subrange(43, 59) =~= spec_i128_bytes(s.den as int).subrange(1, 17));
}

/// The layout facts of a segment's encoding: its length and the
/// position of every field.
proof fn lemma_inter_layout(s: InterIndex, b: Seq<u8>)
    requires
        b == spec_encode_inter(s),
        s.a_num != i128::MIN,
        s.b_num != i128::MIN,
        s.den != i128::MIN,
    ensures
        b.len() == 59,
        b.subrange(0, 8) == spec_u64_to_le_bytes(s.start_timestamp),
        b.subrange(8, 25) == spec_i128_bytes(s.a_num as int),
        b.subrange(25, 42) == spec_i128_bytes(s.b_num as int),
        b.subrange(42, 59) == spec_i128_bytes(s.den as int),
{
    lemma_auto_spec_u64_to_from_le_bytes();
    lemma_i128_round_trip(s.a_num);
    lemma_i128_round_trip(s.b_num);
    lemma_i128_round_trip(s.den);
    assert(b.subrange(0, 8) =~= spec_u64_to_le_bytes(s.start_timestamp));
    assert(b.subrange(8, 25) =~= spec_i128_bytes(s.a_num as int));
    assert(b.subrange(25, 42) =~= spec_i128_bytes(s.b_num as int));
    assert(b.subrange(42, 59) =~= spec_i128_bytes(s.den as int));
}

/// The encoding of one candidate configuration: three words and a tag.
pub open spec fn spec_encode_config(c: IndexConfig) -> Seq<u8> {
    spec_u64_to_le_bytes(c.performance) + spec_u64_to_le_bytes(c.storage_cost)
        + spec_u64_to_le_bytes(c.block_height) + seq![attr_tag(c.attribute)]
}

/// The encoding of a configuration list, in order.
pub open spec fn spec_encode_config_list(s: Seq<IndexConfig>) -> Seq<u8>
    decreases s.len(),
{
    if s.len() == 0 {
        Seq::empty()
    } else {
        spec_encode_config_list(s.drop_last()) + spec_encode_config(s.last())
    }
}

/// The encoding of a persisted candidate list.
pub open spec fn spec_encode_configs(m: IndexConfigsModel) -> Seq<u8> {
    seq![attr_tag(m.attribute)] + spec_u64_to_le_bytes(m.config.len() as u64)
        + spec_encode_config_list(m.config)
}

/// Each fixed-stride element of a configuration list sits at its own
/// offset.
proof fn lemma_config_list_layout(s: Seq<IndexConfig>, i: int)
    requires 0 <= i < s.len(),
    ensures
        spec_encode_config_list(s).len() == 25 * s.len(),
        spec_encode_config_list(s).subrange(25 * i, 25 * i + 25) == spec_encode_config(s[i]),
    decreases s.len(),
{
    lemma_config_list_len(s);
    if i == s.len() - 1 {
        lemma_config_list_len(s.drop_last());
        assert(spec_encode_config_list(s).subrange(25 * i, 25 * i + 25)
            =~= spec_encode_config(s[i]));
    } else {
        lemma_config_list_layout(s.drop_last(), i);
        lemma_config_list_len(s.drop_last());
        assert(spec_encode_config_list(s).subrange(25 * i, 25 * i + 25)
            =~= spec_encode_config_list(s.drop_last()).subrange(25 * i, 25 * i + 25));
    }
}

/// A configuration list encodes to twenty-five bytes per element.
proof fn lemma_config_list_len(s: Seq<IndexConfig>)
    ensures spec_encode_config_list(s).len() == 25 * s.len(),
    decreases s.len(),
{
    lemma_auto_spec_u64_to_from_le_bytes();
    if s.len() > 0 {
        lemma_config_list_len(s.drop_last());
    }
}

/// Serialize a candidate list.
pub fn encode_index_configs(c: &IndexConfigs) -> (r: Vec<u8>)
    ensures r@ == spec_encode_configs(index_configs_model(*c)),
{
    let mut out: Vec<u8> = Vec::new();
    put_attr(&mut out, c.attribute);
    put_u64(&mut out, c.config.len() as u64);
    let ghost head = out@;
    let mut i: usize = 0;
    while i < c.config.len()
        invariant
            i <= c.config@.len(),
            out@ == head + spec_encode_config_list(c.config@.subrange(0, i as int)),
            head == seq![attr_tag(c.attribute)] + spec_u64_to_le_bytes(
                c.config@.len() as u64,
            ),
        decreases c.config@.len() - i,
    {
        let cfg = c.config[i];
        put_u64(&mut out, cfg.performance);
        put_u64(&mut out, cfg.storage_cost);
        put_u64(&mut out, cfg.block_height);
        put_attr(&mut out, cfg.attribute);
        i += 1;
        proof {
            let pre = c.config@.subrange(0, i - 1);
            let post = c.config@.subrange(0, i as int);
            assert(post.drop_last() =~= pre);
            assert(post.last() == c.config@[i - 1]);
            assert(out@ =~= head + spec_encode_config_list(post));
        }
    }
    proof {
        assert(c.config@.subrange(0, c.config@.len() as int) =~= c.config@);
        assert(out@ =~= spec_encode_configs(index_configs_model(*c)));
    }
    out
}

/// Read a candidate list from the whole buffer.  Reading back what
/// `encode_index_configs` wrote yields the list that was written.
pub fn decode_index_configs(buf: &Vec<u8>) -> (r: Option<IndexConfigs>)
    ensures
        forall|m2: IndexConfigsModel| buf@ == spec_encode_configs(m2) ==> (match r {
            Some(c) => index_configs_model(c) == m2,
            None => false,
        }),
{
    let total_len = buf.len();
    if buf.len() < 9 {
        proof {
            assert forall|m2: IndexConfigsModel| buf@ == spec_encode_configs(m2)
                implies false by {
                lemma_configs_header(m2, buf@);
            }
        }
        return None;
    }
    let tag = buf[0];
    let attribute = if tag == 0 {
        Attribute::Id
    } else if tag == 1 {
        Attribute::Address
    } else if tag == 2 {
        Attribute::Value
    } else if tag == 3 {
        Attribute::Timestamp
    } else {
        proof {
            assert forall|m2: IndexConfigsModel| buf@ == spec_encode_configs(m2)
                implies false by {
                assert(buf@[0] == attr_tag(m2.attribute));
            }
        }
        return None;
    };
    let mut pos: usize = 1;
    let n = match take_u64(buf, &mut pos) {
        Some(v) => v,
        None => {
            proof {
                assert forall|m2: IndexConfigsModel| buf@ == spec_encode_configs(m2)
                    implies false by {
                    lemma_configs_header(m2, buf@);
                }
            }
            return None;
        },
    };
    if n > buf.len() as u64 {
        proof {
            assert forall|m2: IndexConfigsModel| buf@ == spec_encode_configs(m2)
                implies false by {
                lemma_configs_header(m2, buf@);
            }
        }
        return None;
    }
    let n_us = n as usize;
    let mut config: Vec<IndexConfig> = Vec::new();
    let mut i: usize = 0;
    while i < n_us
        invariant
            i <= n_us,
            pos == 9 + 25 * i,
            n_us <= buf@.len(),
            buf@.len() <= usize::MAX,
            n_us as int == spec_u64_from_le_bytes(buf@.subrange(1, 9)),
            config@.len() == i,
            forall|q: int| #![trigger config@[q]] 0 <= q < i ==> {
                &&& config@[q].performance == spec_u64_from_le_bytes(buf@.subrange(
                    9 + 25 * q,
                    9 + 25 * q + 8,
                ))
                &&& config@[q].storage_cost == spec_u64_from_le_bytes(buf@.subrange(
                    9 + 25 * q + 8,
                    9 + 25 * q + 16,
                ))
                &&& config@[q].block_height == spec_u64_from_le_bytes(buf@.subrange(
                    9 + 25 * q + 16,
                    9 + 25 * q + 24,
                ))
                &&& Some(config@[q].attribute) == attr_of_tag(buf@[9 + 25 * q + 24])
            },
        decreases n_us - i,
    {
        let performance = match take_u64(buf, &mut pos) {
            Some(v) => v,
            None => {
                proof {
                    assert forall|m2: IndexConfigsModel| buf@ == spec_encode_configs(m2)
                        implies false by {
                        lemma_configs_header(m2, buf@);
                        assert(n_us as int == m2.config.len());
                        lemma_config_list_layout(m2.config, i as int);
                        lemma_config_layout(
                            m2.config[i as int],
                            spec_encode_config_list(m2.config).subrange(
                                25 * (i as int),
                                25 * (i as int) + 25,
                            ),
                        );
                        assert(buf@.subrange(9 + 25 * (i as int), 9 + 25 * (i as int) + 25)
                            =~= spec_encode_config_list(m2.config).subrange(
                            25 * (i as int),
                            25 * (i as int) + 25,
                        ));
                        assert(buf@[9 + 25 * (i as int) + 24] == buf@.subrange(
                            9 + 25 * (i as int),
                            9 + 25 * (i as int) + 25,
                        )[24]);
                    }
                }
                return None;
            },
        };
        let storage_cost = match take_u64(buf, &mut pos) {
            Some(v) => v,
            None => {
                proof {
                    assert forall|m2: IndexConfigsModel| buf@ == spec_encode_configs(m2)
                        implies false by {
                        lemma_configs_header(m2, buf@);
                        assert(n_us as int == m2.config.len());
                        lemma_config_list_layout(m2.config, i as int);
                        lemma_config_layout(
                            m2.config[i as int],
                            spec_encode_config_list(m2.config).subrange(
                                25 * (i as int),
                                25 * (i as int) + 25,
                            ),
                        );
                        assert(buf@.subrange(9 + 25 * (i as int), 9 + 25 * (i as int) + 25)
                            =~= spec_encode_config_list(m2.config).subrange(
                            25 * (i as int),
                            25 * (i as int) + 25,
                        ));
                        assert(buf@[9 + 25 * (i as int) + 24] == buf@.subrange(
                            9 + 25 * (i as int),
                            9 + 25 * (i as int) + 25,
                        )[24]);
                    }
                }
                return None;
            },
        };
        let block_height = match take_u64(buf, &mut pos) {
            Some(v) => v,
            None => {
                proof {
                    assert forall|m2: IndexConfigsModel| buf@ == spec_encode_configs(m2)
                        implies false by {
                        lemma_configs_header(m2, buf@);
                        assert(n_us as int == m2.config.len());
                        lemma_config_list_layout(m2.config, i as int);
                        lemma_config_layout(
                            m2.config[i as int],
                            spec_encode_config_list(m2.config).subrange(
                                25 * (i as int),
                                25 * (i as int) + 25,
                            ),
                        );
                        assert(buf@.subrange(9 + 25 * (i as int), 9 + 25 * (i as int) + 25)
                            =~= spec_encode_config_list(m2.config).subrange(
                            25 * (i as int),
                            25 * (i as int) + 25,
                        ));
                        assert(buf@[9 + 25 * (i as int) + 24] == buf@.subrange(
                            9 + 25 * (i as int),
                            9 + 25 * (i as int) + 25,
                        )[24]);
                    }
                }
                return None;
            },
        };
        if pos >= buf.len() {
            proof {
                assert forall|m2: IndexConfigsModel| buf@ == spec_encode_configs(m2)
                        implies false by {
                        lemma_configs_header(m2, buf@);
                        assert(n_us as int == m2.config.len());
                        lemma_config_list_layout(m2.config, i as int);
                        lemma_config_layout(
                            m2.config[i as int],
                            spec_encode_config_list(m2.config).subrange(
                                25 * (i as int),
                                25 * (i as int) + 25,
                            ),
                        );
                        assert(buf@.subrange(9 + 25 * (i as int), 9 + 25 * (i as int) + 25)
                            =~= spec_encode_config_list(m2.config).subrange(
                            25 * (i as int),
                            25 * (i as int) + 25,
                        ));
                        assert(buf@[9 + 25 * (i as int) + 24] == buf@.subrange(
                            9 + 25 * (i as int),
                            9 + 25 * (i as int) + 25,
                        )[24]);
                    }
                }
            return None;
        }
        let atag = buf[pos];
        let a = if atag == 0 {
            Attribute::Id
        } else if atag == 1 {
            Attribute::Address
        } else if atag == 2 {
            Attribute::Value
        } else if atag == 3 {
            Attribute::Timestamp
        } else {
            proof {
                assert forall|m2: IndexConfigsModel| buf@ == spec_encode_configs(m2)
                        implies false by {
                        lemma_configs_header(m2, buf@);
                        assert(n_us as int == m2.config.len());
                        lemma_config_list_layout(m2.config, i as int);
                        lemma_config_layout(
                            m2.config[i as int],
                            spec_encode_config_list(m2.config).subrange(
                                25 * (i as int),
                                25 * (i as int) + 25,
                            ),
                        );
                        assert(buf@.subrange(9 + 25 * (i as int), 9 + 25 * (i as int) + 25)
                            =~= spec_encode_config_list(m2.config).subrange(
                            25 * (i as int),
                            25 * (i as int) + 25,
                        ));
                        assert(buf@[9 + 25 * (i as int) + 24] == buf@.subrange(
                            9 + 25 * (i as int),
                            9 + 25 * (i as int) + 25,
                        )[24]);
                    }
                }
            return None;
        };
        pos = pos + 1;
        config.push(IndexConfig { performance, storage_cost, block_height, attribute: a });
        i += 1;
        proof {
            assert(config@[i - 1].performance == spec_u64_from_le_bytes(buf@.subrange(
                9 + 25 * (i - 1),
                9 + 25 * (i - 1) + 8,
            )));
            assert(config@[i - 1].storage_cost == spec_u64_from_le_bytes(buf@.subrange(
                9 + 25 * (i - 1) + 8,
                9 + 25 * (i - 1) + 16,
            )));
            assert(config@[i - 1].block_height == spec_u64_from_le_bytes(buf@.subrange(
                9 + 25 * (i - 1) + 16,
                9 + 25 * (i - 1) + 24,
            )));
            assert(Some(config@[i - 1].attribute) == attr_of_tag(buf@[9 + 25 * (i - 1)
                + 24]));
        }
    }
    if pos != buf.len() {
        proof {
            assert forall|m2: IndexConfigsModel| buf@ == spec_encode_configs(m2)
                implies false by {
                lemma_configs_header(m2, buf@);
            }
        }
        return None;
    }
    let r = IndexConfigs { attribute, config };
    proof {
        assert forall|m2: IndexConfigsModel| buf@ == spec_encode_configs(m2)
            implies index_configs_model(r) == m2 by {
            lemma_configs_header(m2, buf@);
            assert(m2.config.len() == n_us);
            assert forall|q: int| 0 <= q < n_us implies #[trigger] r.config@[q]
                == m2.config[q] by {
                lemma_config_list_layout(m2.config, q);
                lemma_config_layout(m2.config[q], spec_encode_config_list(m2.config).subrange(
                    25 * q,
                    25 * q + 25,
                ));
                assert(buf@.subrange(9 + 25 * q, 9 + 25 * q + 25)
                    =~= spec_encode_config_list(m2.config).subrange(25 * q, 25 * q + 25));
                assert(buf@.subrange(9 + 25 * q, 9 + 25 * q + 8) =~= buf@.subrange(
                    9 + 25 * q,
                    9 + 25 * q + 25,
                ).subrange(0, 8));
                assert(buf@.subrange(9 + 25 * q + 8, 9 + 25 * q + 16) =~= buf@.subrange(
                    9 + 25 * q,
                    9 + 25 * q + 25,
                ).subrange(8, 16));
                assert(buf@.subrange(9 + 25 * q + 16, 9 + 25 * q + 24) =~= buf@.subrange(
                    9 + 25 * q,
                    9 + 25 * q + 25,
                ).subrange(16, 24));
                assert(buf@[9 + 25 * q + 24] == buf@.subrange(
                    9 + 25 * q,
                    9 + 25 * q + 25,
                )[24]);
                lemma_auto_spec_u64_to_from_le_bytes();
            }
            assert(r.config@ =~= m2.config);
        }
    }
    Some(r)
}

/// The header facts of a candidate list encoding.
proof fn lemma_configs_header(m: IndexConfigsModel, b: Seq<u8>)
    requires
        b == spec_encode_configs(m),
        b.len() <= 0xFFFFFFFFFFFFFFFF,
    ensures
        b.len() == 9 + 25 * m.config.len(),
        b[0] == attr_tag(m.attribute),
        m.config.len() < 0x10000000000000000,
        spec_u64_from_le_bytes(b.subrange(1, 9)) == m.config.len(),
        m.config.len() <= b.len(),
{
    lemma_config_list_len(m.config);
    lemma_auto_spec_u64_to_from_le_bytes();
    assert(b.subrange(1, 9) =~= spec_u64_to_le_bytes(m.config.len() as u64));
}

/// The field positions inside one encoded configuration.
proof fn lemma_config_layout(c: IndexConfig, b: Seq<u8>)
    requires b == spec_encode_config(c),
    ensures
        b.len() == 25,
        spec_u64_from_le_bytes(b.subrange(0, 8)) == c.performance,
        spec_u64_from_le_bytes(b.subrange(8, 16)) == c.storage_cost,
        spec_u64_from_le_bytes(b.subrange(16, 24)) == c.block_height,
        b[24] == attr_tag(c.attribute),
{
    lemma_auto_spec_u64_to_from_le_bytes();
    assert(b.subrange(0, 8) =~= spec_u64_to_le_bytes(c.performance));
    assert(b.subrange(8, 16) =~= spec_u64_to_le_bytes(c.storage_cost));
    assert(b.subrange(16, 24) =~= spec_u64_to_le_bytes(c.block_height));
}


/// The encoding of one transaction.
pub open spec fn spec_encode_tx(t: crate::block::TxModel) -> Seq<u8> {
    spec_u64_to_le_bytes(t.id) + spec_u64_to_le_bytes(t.block_id) + spec_u64_to_le_bytes(
        t.address.len() as u64,
    ) + t.address + spec_u64_to_le_bytes(t.trans_value) + spec_u64_to_le_bytes(t.time_stamp)
}

/// Serialize one transaction.
pub fn encode_tx_into(out: &mut Vec<u8>, t: &crate::block::Transaction)
    ensures final(out)@ == old(out)@ + spec_encode_tx(crate::block::tx_model(*t)),
{
    put_u64(out, t.id);
    put_u64(out, t.block_id);
    put_bytes(out, &t.value.address);
    put_u64(out, t.value.trans_value);
    put_u64(out, t.value.time_stamp);
    proof {
        assert(out@ =~= old(out)@ + spec_encode_tx(crate::block::tx_model(*t)));
    }
}

/// Read one transaction at `pos`, advancing it.  On success the
/// fields are exactly the encoded ones; failure means no transaction
/// encoding starts here.
pub fn take_tx(buf: &Vec<u8>, pos: &mut usize) -> (r: Option<crate::block::Transaction>)
    ensures
        match r {
            Some(t) => {
                &&& *old(pos) + 24 <= buf@.len()
                &&& t.id == spec_u64_from_le_bytes(buf@.subrange(
                    *old(pos) as int,
                    *old(pos) + 8,
                ))
                &&& t.block_id == spec_u64_from_le_bytes(buf@.subrange(
                    *old(pos) + 8,
                    *old(pos) + 16,
                ))
                &&& t.value.address@.len() == spec_u64_from_le_bytes(buf@.subrange(
                    *old(pos) + 16,
                    *old(pos) + 24,
                ))
                &&& t.value.address@ == buf@.subrange(
                    *old(pos) + 24,
                    *old(pos) + 24 + t.value.address@.len(),
                )
                &&& t.value.trans_value == spec_u64_from_le_bytes(buf@.subrange(
                    *old(pos) + 24 + t.value.address@.len(),
                    *old(pos) + 32 + t.value.address@.len(),
                ))
                &&& t.value.time_stamp == spec_u64_from_le_bytes(buf@.subrange(
                    *old(pos) + 32 + t.value.address@.len(),
                    *old(pos) + 40 + t.value.address@.len(),
                ))
                &&& *final(pos) == *old(pos) + 40 + t.value.address@.len()
                &&& *final(pos) <= buf@.len()
            },
            None => !({
                let p0 = *old(pos) as int;
                let b = buf@;
                let al = spec_u64_from_le_bytes(b.subrange(p0 + 16, p0 + 24));
                &&& p0 + 24 <= b.len()
                &&& al <= b.len()
                &&& p0 + 24 + al <= b.len()
                &&& p0 + 40 + al <= b.len()
            }),
        },
{
    let id = match take_u64(buf, pos) {
        Some(v) => v,
        None => { return None; },
    };
    let block_id = match take_u64(buf, pos) {
        Some(v) => v,
        None => { return None; },
    };
    let address = match take_bytes(buf, pos) {
        Some(v) => v,
        None => { return None; },
    };
    let trans_value = match take_u64(buf, pos) {
        Some(v) => v,
        None => { return None; },
    };
    let time_stamp = match take_u64(buf, pos) {
        Some(v) => v,
        None => { return None; },
    };
    Some(crate::block::Transaction {
        id,
        block_id,
        value: crate::block::TransactionValue { address, trans_value, time_stamp },
    })
}

/// The encoding of a transaction list, in order.
pub open spec fn spec_encode_tx_list(s: Seq<crate::block::TxModel>) -> Seq<u8>
    decreases s.len(),
{
    if s.len() == 0 {
        Seq::empty()
    } else {
        spec_encode_tx_list(s.drop_last()) + spec_encode_tx(s.last())
    }
}

/// The encoding of an id list, in order.
pub open spec fn spec_encode_id_list(s: Seq<u64>) -> Seq<u8>
    decreases s.len(),
{
    if s.len() == 0 {
        Seq::empty()
    } else {
        spec_encode_id_list(s.drop_last()) + spec_u64_to_le_bytes(s.last())
    }
}

/// The encoding of one block's data.
pub open spec fn spec_encode_block_data(d: crate::block::BlockDataModel) -> Seq<u8> {
    spec_u64_to_le_bytes(d.block_id) + spec_u64_to_le_bytes(d.tx_ids.len() as u64)
        + spec_encode_id_list(d.tx_ids) + spec_u64_to_le_bytes(d.txs.len() as u64)
        + spec_encode_tx_list(d.txs)
}

/// Serialize one block's data.
pub fn encode_block_data(d: &crate::block::BlockData) -> (r: Vec<u8>)
    ensures r@ == spec_encode_block_data(crate::block::block_data_model(*d)),
{
    let ghost dm = crate::block::block_data_model(*d);
    let mut out: Vec<u8> = Vec::new();
    put_u64(&mut out, d.block_id);
    put_u64(&mut out, d.tx_ids.len() as u64);
    let ghost head1 = out@;
    let mut i: usize = 0;
    while i < d.tx_ids.len()
        invariant
            i <= d.tx_ids@.len(),
            out@ == head1 + spec_encode_id_list(d.tx_ids@.subrange(0, i as int)),
        decreases d.tx_ids@.len() - i,
    {
        put_u64(&mut out, d.tx_ids[i]);
        i += 1;
        proof {
            let pre = d.tx_ids@.subrange(0, i - 1);
            let post = d.tx_ids@.subrange(0, i as int);
            assert(post.drop_last() =~= pre);
            assert(out@ =~= head1 + spec_encode_id_list(post));
        }
    }
    proof {
        assert(d.tx_ids@.subrange(0, d.tx_ids@.len() as int) =~= d.tx_ids@);
    }
    put_u64(&mut out, d.txs.len() as u64);
    let ghost head2 = out@;
    let mut j: usize = 0;
    while j < d.txs.len()
        invariant
            j <= d.txs@.len(),
            dm == crate::block::block_data_model(*d),
            out@ == head2 + spec_encode_tx_list(dm.txs.subrange(0, j as int)),
        decreases d.txs@.len() - j,
    {
        encode_tx_into(&mut out, &d.txs[j]);
        j += 1;
        proof {
            let pre = dm.txs.subrange(0, j - 1);
            let post = dm.txs.subrange(0, j as int);
            assert(post.drop_last() =~= pre);
            assert(post.last() == crate::block::tx_model(d.txs@[j - 1]));
            assert(out@ =~= head2 + spec_encode_tx_list(post));
        }
    }
    proof {
        assert(dm.txs.subrange(0, dm.txs.len() as int) =~= dm.txs);
        assert(out@ =~= spec_encode_block_data(dm));
    }
    out
}


/// The byte length of one encoded transaction.
pub open spec fn enc_tx_len(t: crate::block::TxModel) -> int {
    40 + t.address.len() as int
}

/// The byte length of the first `i` encoded transactions.
pub open spec fn tx_prefix_len(s: Seq<crate::block::TxModel>, i: int) -> int
    decreases i,
{
    if i <= 0 {
        0
    } else {
        tx_prefix_len(s, i - 1) + enc_tx_len(s[i - 1])
    }
}

/// Prefix lengths ignore elements past the prefix.
proof fn lemma_tx_prefix_stable(s: Seq<crate::block::TxModel>, t: Seq<crate::block::TxModel>, i: int)
    requires
        0 <= i <= s.len(),
        i <= t.len(),
        forall|q: int| 0 <= q < i ==> s[q] == t[q],
    ensures tx_prefix_len(s, i) == tx_prefix_len(t, i),
    decreases i,
{
    if i > 0 {
        lemma_tx_prefix_stable(s, t, i - 1);
    }
}

/// Prefix lengths grow with the prefix.
proof fn lemma_tx_prefix_mono(s: Seq<crate::block::TxModel>, i: int)
    requires 0 <= i <= s.len(),
    ensures tx_prefix_len(s, i) >= 40 * i,
    decreases i,
{
    if i > 0 {
        lemma_tx_prefix_mono(s, i - 1);
    }
}

/// A transaction list encodes to its prefix lengths, element by
/// element.
proof fn lemma_tx_list_layout(s: Seq<crate::block::TxModel>, i: int)
    requires 0 <= i < s.len(),
    ensures
        spec_encode_tx_list(s).len() == tx_prefix_len(s, s.len() as int),
        spec_encode_tx_list(s).subrange(
            tx_prefix_len(s, i),
            tx_prefix_len(s, i) + enc_tx_len(s[i]),
        ) == spec_encode_tx(s[i]),
        tx_prefix_len(s, i) >= 0,
        tx_prefix_len(s, i) + enc_tx_len(s[i]) <= spec_encode_tx_list(s).len(),
    decreases s.len(),
{
    lemma_tx_list_len(s);
    lemma_tx_prefix_mono(s, i);
    if i == s.len() - 1 {
        lemma_tx_list_len(s.drop_last());
        lemma_tx_prefix_stable(s.drop_last(), s, i);
        assert(spec_encode_tx_list(s).subrange(
            tx_prefix_len(s, i),
            tx_prefix_len(s, i) + enc_tx_len(s[i]),
        ) =~= spec_encode_tx(s[i]));
    } else {
        lemma_tx_list_layout(s.drop_last(), i);
        lemma_tx_list_len(s.drop_last());
        lemma_tx_prefix_stable(s.drop_last(), s, i);
        lemma_tx_prefix_stable(s.drop_last(), s, i + 1);
        assert(s.drop_last()[i] == s[i]);
        assert(spec_encode_tx_list(s).subrange(
            tx_prefix_len(s, i),
            tx_prefix_len(s, i) + enc_tx_len(s[i]),
        ) =~= spec_encode_tx_list(s.drop_last()).subrange(
            tx_prefix_len(s.drop_last(), i),
            tx_prefix_len(s.drop_last(), i) + enc_tx_len(s.drop_last()[i]),
        ));
    }
}

/// The length of an encoded transaction list.
proof fn lemma_tx_list_len(s: Seq<crate::block::TxModel>)
    ensures spec_encode_tx_list(s).len() == tx_prefix_len(s, s.len() as int),
    decreases s.len(),
{
    lemma_auto_spec_u64_to_from_le_bytes();
    if s.len() > 0 {
        lemma_tx_list_len(s.drop_last());
        lemma_tx_prefix_stable(s.drop_last(), s, s.len() - 1);
    }
}

/// The field positions inside one encoded transaction.
proof fn lemma_tx_layout(t: crate::block::TxModel, b: Seq<u8>)
    requires
        b == spec_encode_tx(t),
        t.address.len() <= u64::MAX,
    ensures
        b.len() == enc_tx_len(t),
        spec_u64_from_le_bytes(b.subrange(0, 8)) == t.id,
        spec_u64_from_le_bytes(b.subrange(8, 16)) == t.block_id,
        spec_u64_from_le_bytes(b.subrange(16, 24)) == t.address.len(),
        b.subrange(24, 24 + t.address.len() as int) == t.address,
        spec_u64_from_le_bytes(b.subrange(
            24 + t.address.len() as int,
            32 + t.address.len() as int,
        )) == t.trans_value,
        spec_u64_from_le_bytes(b.subrange(
            32 + t.address.len() as int,
            40 + t.address.len() as int,
        )) == t.time_stamp,
{
    lemma_auto_spec_u64_to_from_le_bytes();
    let al = t.address.len() as int;
    assert(b.subrange(0, 8) =~= spec_u64_to_le_bytes(t.id));
    assert(b.subrange(8, 16) =~= spec_u64_to_le_bytes(t.block_id));
    assert(b.subrange(16, 24) =~= spec_u64_to_le_bytes(t.address.len() as u64));
    assert(b.subrange(24, 24 + al) =~= t.address);
    assert(b.subrange(24 + al, 32 + al) =~= spec_u64_to_le_bytes(t.trans_value));
    assert(b.subrange(32 + al, 40 + al) =~= spec_u64_to_le_bytes(t.time_stamp));
}

/// Each word of an encoded id list sits at its own stride.
proof fn lemma_id_list_layout(s: Seq<u64>, i: int)
    requires 0 <= i < s.len(),
    ensures
        spec_encode_id_list(s).len() == 8 * s.len(),
        spec_encode_id_list(s).subrange(8 * i, 8 * i + 8) == spec_u64_to_le_bytes(s[i]),
    decreases s.len(),
{
    lemma_id_list_len(s);
    if i == s.len() - 1 {
        lemma_id_list_len(s.drop_last());
        assert(spec_encode_id_list(s).subrange(8 * i, 8 * i + 8) =~= spec_u64_to_le_bytes(
            s[i],
        ));
    } else {
        lemma_id_list_layout(s.drop_last(), i);
        lemma_id_list_len(s.drop_last());
        assert(spec_encode_id_list(s).subrange(8 * i, 8 * i + 8)
            =~= spec_encode_id_list(s.drop_last()).subrange(8 * i, 8 * i + 8));
    }
}

/// The length of an encoded id list.
proof fn lemma_id_list_len(s: Seq<u64>)
    ensures spec_encode_id_list(s).len() == 8 * s.len(),
    decreases s.len(),
{
    lemma_auto_spec_u64_to_from_le_bytes();
    if s.len() > 0 {
        lemma_id_list_len(s.drop_last());
    }
}

/// Every address in the list fits a length prefix.
pub open spec fn tx_addrs_fit(s: Seq<crate::block::TxModel>) -> bool {
    forall|i: int| 0 <= i < s.len() ==> (#[trigger] s[i]).address.len() <= u64::MAX
}

/// The models of a list of transactions.
pub open spec fn tx_models(s: Seq<crate::block::Transaction>) -> Seq<crate::block::TxModel> {
    s.map_values(|t: crate::block::Transaction| crate::block::tx_model(t))
}

/// A block-data model whose lists and byte strings fit their length
/// prefixes.
pub open spec fn block_data_model_valid(d: crate::block::BlockDataModel) -> bool {
    &&& d.tx_ids.len() <= u64::MAX
    &&& d.txs.len() <= u64::MAX
    &&& tx_addrs_fit(d.txs)
}

/// Two id lists with one encoding are one list.
proof fn lemma_id_list_inj(a: Seq<u64>, b: Seq<u64>)
    requires
        a.len() == b.len(),
        spec_encode_id_list(a) == spec_encode_id_list(b),
    ensures a == b,
{
    lemma_auto_spec_u64_to_from_le_bytes();
    assert forall|i: int| 0 <= i < a.len() implies a[i] == b[i] by {
        lemma_id_list_layout(a, i);
        lemma_id_list_layout(b, i);
    }
    assert(a =~= b);
}

/// Two transaction lists whose encodings begin one byte sequence agree
/// on their common prefix: each element's length prefix fixes where
/// the next one starts.
proof fn lemma_tx_common_prefix(
    a: Seq<crate::block::TxModel>,
    b: Seq<crate::block::TxModel>,
    w: Seq<u8>,
    i: int,
)
    requires
        0 <= i <= a.len(),
        i <= b.len(),
        tx_addrs_fit(a),
        tx_addrs_fit(b),
        tx_prefix_len(a, a.len() as int) <= w.len(),
        tx_prefix_len(b, b.len() as int) <= w.len(),
        spec_encode_tx_list(a) == w.subrange(0, tx_prefix_len(a, a.len() as int)),
        spec_encode_tx_list(b) == w.subrange(0, tx_prefix_len(b, b.len() as int)),
    ensures
        tx_prefix_len(a, i) == tx_prefix_len(b, i),
        forall|q: int| 0 <= q < i ==> a[q] == b[q],
    decreases i,
{
    lemma_tx_list_len(a);
    lemma_tx_list_len(b);
    if i > 0 {
        lemma_tx_common_prefix(a, b, w, i - 1);
        let p = tx_prefix_len(a, i - 1);
        lemma_tx_list_layout(a, i - 1);
        lemma_tx_list_layout(b, i - 1);
        let ea = spec_encode_tx(a[i - 1]);
        let eb = spec_encode_tx(b[i - 1]);
        lemma_tx_layout(a[i - 1], ea);
        lemma_tx_layout(b[i - 1], eb);
        let la = enc_tx_len(a[i - 1]);
        let lb = enc_tx_len(b[i - 1]);
        assert(ea =~= w.subrange(p, p + la));
        assert(eb =~= w.subrange(p, p + lb));
        assert(ea.subrange(16, 24) =~= w.subrange(p + 16, p + 24));
        assert(eb.subrange(16, 24) =~= w.subrange(p + 16, p + 24));
        assert(a[i - 1].address.len() == spec_u64_from_le_bytes(w.subrange(p + 16, p + 24)));
        assert(b[i - 1].address.len() == spec_u64_from_le_bytes(w.subrange(p + 16, p + 24)));
        assert(la == lb);
        assert(ea == eb);
        assert(a[i - 1].id == b[i - 1].id);
        assert(a[i - 1].block_id == b[i - 1].block_id);
        assert(a[i - 1].address == b[i - 1].address);
        assert(a[i - 1].trans_value == b[i - 1].trans_value);
        assert(a[i - 1].time_stamp == b[i - 1].time_stamp);
        assert(a[i - 1] == b[i - 1]);
    }
}

/// The positions of the parts of a block-data encoding.
proof fn lemma_block_data_layout(m: crate::block::BlockDataModel, b: Seq<u8>)
    requires
        b == spec_encode_block_data(m),
        block_data_model_valid(m),
    ensures
        ({
            let base = 24 + 8 * m.tx_ids.len() as int;
            &&& b.len() == base + tx_prefix_len(m.txs, m.txs.len() as int)
            &&& spec_u64_from_le_bytes(b.subrange(0, 8)) == m.block_id
            &&& spec_u64_from_le_bytes(b.subrange(8, 16)) == m.tx_ids.len()
            &&& b.subrange(16, 16 + 8 * m.tx_ids.len() as int) == spec_encode_id_list(
                m.tx_ids,
            )
            &&& spec_u64_from_le_bytes(b.subrange(base - 8, base)) == m.txs.len()
            &&& b.subrange(base, b.len() as int) == spec_encode_tx_list(m.txs)
            &&& tx_prefix_len(m.txs, m.txs.len() as int) >= 0
        }),
{
    lemma_auto_spec_u64_to_from_le_bytes();
    lemma_id_list_len(m.tx_ids);
    lemma_tx_list_len(m.txs);
    lemma_tx_prefix_mono(m.txs, m.txs.len() as int);
    let base = 24 + 8 * m.tx_ids.len() as int;
    assert(b.subrange(0, 8) =~= spec_u64_to_le_bytes(m.block_id));
    assert(b.subrange(8, 16) =~= spec_u64_to_le_bytes(m.tx_ids.len() as u64));
    assert(b.subrange(16, 16 + 8 * m.tx_ids.len() as int) =~= spec_encode_id_list(m.tx_ids));
    assert(b.subrange(base - 8, base) =~= spec_u64_to_le_bytes(m.txs.len() as u64));
    assert(b.subrange(base, b.len() as int) =~= spec_encode_tx_list(m.txs));
}

/// Read one block's data from the whole buffer; a value is handed out
/// only when serializing it again reproduces the buffer exactly, and
/// one is always handed out where the buffer is the encoding of a
/// valid model, namely a value of that model.
pub fn decode_block_data(buf: &Vec<u8>) -> (r: Option<crate::block::BlockData>)
    ensures
        match r {
            Some(d) => buf@ == spec_encode_block_data(crate::block::block_data_model(d)),
            None => true,
        },
        forall|m2: crate::block::BlockDataModel| block_data_model_valid(m2) && buf@
            == spec_encode_block_data(m2) ==> (r is Some && crate::block::block_data_model(
            r->0,
        ) == m2),
{
    let mut pos: usize = 0;
    let block_id = match take_u64(buf, &mut pos) {
        Some(v) => v,
        None => {
            proof {
                assert forall|m2: crate::block::BlockDataModel| block_data_model_valid(m2)
                    && buf@ == spec_encode_block_data(m2) implies false by {
                    lemma_block_data_layout(m2, buf@);
                }
            }
            return None;
        },
    };
    let n_ids = match take_u64(buf, &mut pos) {
        Some(v) => v,
        None => {
            proof {
                assert forall|m2: crate::block::BlockDataModel| block_data_model_valid(m2)
                    && buf@ == spec_encode_block_data(m2) implies false by {
                    lemma_block_data_layout(m2, buf@);
                }
            }
            return None;
        },
    };
    if n_ids > buf.len() as u64 {
        proof {
            assert forall|m2: crate::block::BlockDataModel| block_data_model_valid(m2)
                && buf@ == spec_encode_block_data(m2) implies false by {
                lemma_block_data_layout(m2, buf@);
            }
        }
        return None;
    }
    let mut tx_ids: Vec<u64> = Vec::new();
    let mut i: usize = 0;
    while i < n_ids as usize
        invariant
            i <= n_ids,
            tx_ids@.len() == i,
            pos == 16 + 8 * (i as int),
            pos <= buf@.len(),
            block_id == spec_u64_from_le_bytes(buf@.subrange(0, 8)),
            n_ids == spec_u64_from_le_bytes(buf@.subrange(8, 16)),
            buf@.subrange(16, pos as int) == spec_encode_id_list(tx_ids@),
        decreases n_ids as int - i,
    {
        let ghost prepos = pos as int;
        let v = match take_u64(buf, &mut pos) {
            Some(v) => v,
            None => {
                proof {
                    assert forall|m2: crate::block::BlockDataModel| block_data_model_valid(
                        m2,
                    ) && buf@ == spec_encode_block_data(m2) implies false by {
                        lemma_block_data_layout(m2, buf@);
                        assert(n_ids == m2.tx_ids.len());
                        assert(buf@.len() >= 24 + 8 * (n_ids as int));
                    }
                }
                return None;
            },
        };
        proof {
            lemma_auto_spec_u64_to_from_le_bytes();
            assert(buf@.subrange(prepos, prepos + 8) == spec_u64_to_le_bytes(v));
            assert(tx_ids@.push(v).drop_last() =~= tx_ids@);
            assert(buf@.subrange(16, prepos + 8) =~= buf@.subrange(16, prepos)
                + buf@.subrange(prepos, prepos + 8));
            assert(buf@.subrange(16, prepos + 8) == spec_encode_id_list(tx_ids@.push(v)));
        }
        tx_ids.push(v);
        i += 1;
    }
    let ghost base = 24 + 8 * (n_ids as int);
    let n_txs = match take_u64(buf, &mut pos) {
        Some(v) => v,
        None => {
            proof {
                assert forall|m2: crate::block::BlockDataModel| block_data_model_valid(m2)
                    && buf@ == spec_encode_block_data(m2) implies false by {
                    lemma_block_data_layout(m2, buf@);
                    assert(n_ids == m2.tx_ids.len());
                }
            }
            return None;
        },
    };
    if n_txs > buf.len() as u64 {
        proof {
            assert forall|m2: crate::block::BlockDataModel| block_data_model_valid(m2)
                && buf@ == spec_encode_block_data(m2) implies false by {
                lemma_block_data_layout(m2, buf@);
                assert(n_ids == m2.tx_ids.len());
                assert(n_txs == m2.txs.len());
                lemma_tx_prefix_mono(m2.txs, m2.txs.len() as int);
            }
        }
        return None;
    }
    let mut txs: Vec<crate::block::Transaction> = Vec::new();
    let mut j: usize = 0;
    while j < n_txs as usize
        invariant
            j <= n_txs,
            txs@.len() == j,
            base == 24 + 8 * (n_ids as int),
            base <= buf@.len(),
            pos as int == base + tx_prefix_len(tx_models(txs@), j as int),
            pos <= buf@.len(),
            block_id == spec_u64_from_le_bytes(buf@.subrange(0, 8)),
            n_ids == spec_u64_from_le_bytes(buf@.subrange(8, 16)),
            n_txs == spec_u64_from_le_bytes(buf@.subrange(base - 8, base)),
            tx_ids@.len() == n_ids,
            buf@.subrange(16, base - 8) == spec_encode_id_list(tx_ids@),
            buf@.subrange(base, pos as int) == spec_encode_tx_list(tx_models(txs@)),
            tx_addrs_fit(tx_models(txs@)),
        decreases n_txs as int - j,
    {
        let ghost prepos = pos as int;
        let ghost ms = tx_models(txs@);
        let t = match take_tx(buf, &mut pos) {
            Some(t) => t,
            None => {
                proof {
                    assert forall|m2: crate::block::BlockDataModel| block_data_model_valid(
                        m2,
                    ) && buf@ == spec_encode_block_data(m2) implies false by {
                        lemma_block_data_layout(m2, buf@);
                        assert(n_ids == m2.tx_ids.len());
                        assert(n_txs == m2.txs.len());
                        let w = buf@.subrange(base, buf@.len() as int);
                        lemma_tx_list_len(ms);
                        lemma_tx_list_len(m2.txs);
                        assert(spec_encode_tx_list(ms) =~= w.subrange(
                            0,
                            tx_prefix_len(ms, ms.len() as int),
                        ));
                        assert(spec_encode_tx_list(m2.txs) =~= w.subrange(
                            0,
                            tx_prefix_len(m2.txs, m2.txs.len() as int),
                        ));
                        lemma_tx_common_prefix(ms, m2.txs, w, j as int);
                        let p = tx_prefix_len(m2.txs, j as int);
                        assert(prepos == base + p);
                        lemma_tx_list_layout(m2.txs, j as int);
                        let e = spec_encode_tx(m2.txs[j as int]);
                        lemma_tx_layout(m2.txs[j as int], e);
                        let al0 = m2.txs[j as int].address.len() as int;
                        assert(e =~= buf@.subrange(prepos, prepos + 40 + al0));
                        assert(e.subrange(16, 24) =~= buf@.subrange(prepos + 16, prepos + 24));
                        assert(spec_u64_from_le_bytes(buf@.subrange(prepos + 16, prepos + 24))
                            == al0);
                        assert(prepos + 40 + al0 <= buf@.len());
                    }
                }
                return None;
            },
        };
        proof {
            lemma_auto_spec_u64_to_from_le_bytes();
            let tm = crate::block::tx_model(t);
            let al = t.value.address@.len() as int;
            assert(buf@.subrange(prepos, prepos + 8) == spec_u64_to_le_bytes(tm.id));
            assert(buf@.subrange(prepos + 8, prepos + 16) == spec_u64_to_le_bytes(tm.block_id));
            assert(buf@.subrange(prepos + 16, prepos + 24) == spec_u64_to_le_bytes(
                tm.address.len() as u64,
            ));
            assert(buf@.subrange(prepos + 24 + al, prepos + 32 + al) == spec_u64_to_le_bytes(
                tm.trans_value,
            ));
            assert(buf@.subrange(prepos + 32 + al, prepos + 40 + al) == spec_u64_to_le_bytes(
                tm.time_stamp,
            ));
            assert(buf@.subrange(prepos, prepos + 40 + al) =~= spec_encode_tx(tm));
            assert(tx_models(txs@.push(t)).drop_last() =~= ms);
            assert(tx_models(txs@.push(t)).last() == tm);
            assert(spec_encode_tx_list(tx_models(txs@.push(t))) == spec_encode_tx_list(ms)
                + spec_encode_tx(tm));
            lemma_tx_prefix_mono(ms, j as int);
            assert(base <= prepos);
            assert(buf@.subrange(base, prepos + 40 + al) =~= buf@.subrange(base, prepos)
                + buf@.subrange(prepos, prepos + 40 + al));
            lemma_tx_prefix_stable(ms, tx_models(txs@.push(t)), j as int);
            assert(tx_prefix_len(tx_models(txs@.push(t)), j + 1) == tx_prefix_len(ms, j as int)
                + (40 + al));
            assert forall|q: int| 0 <= q < j + 1 implies (#[trigger] tx_models(txs@.push(t))[q])
                .address.len() <= u64::MAX by {
                if q < j {
                    assert(tx_models(txs@.push(t))[q] == ms[q]);
                    assert(ms[q].address.len() <= u64::MAX);
                } else {
                    assert(tx_models(txs@.push(t))[q] == tm);
                }
            }
            assert(tx_addrs_fit(tx_models(txs@.push(t))));
        }
        txs.push(t);
        j += 1;
    }
    if pos != buf.len() {
        proof {
            assert forall|m2: crate::block::BlockDataModel| block_data_model_valid(m2)
                && buf@ == spec_encode_block_data(m2) implies false by {
                lemma_block_data_layout(m2, buf@);
                assert(n_ids == m2.tx_ids.len());
                assert(n_txs == m2.txs.len());
                let ms = tx_models(txs@);
                let w = buf@.subrange(base, buf@.len() as int);
                lemma_tx_list_len(ms);
                lemma_tx_list_len(m2.txs);
                assert(spec_encode_tx_list(ms) =~= w.subrange(
                    0,
                    tx_prefix_len(ms, ms.len() as int),
                ));
                assert(spec_encode_tx_list(m2.txs) =~= w.subrange(
                    0,
                    tx_prefix_len(m2.txs, m2.txs.len() as int),
                ));
                lemma_tx_common_prefix(ms, m2.txs, w, n_txs as int);
            }
        }
        return None;
    }
    let candidate = crate::block::BlockData { block_id, tx_ids, txs };
    proof {
        lemma_auto_spec_u64_to_from_le_bytes();
        let mc = crate::block::block_data_model(candidate);
        assert(mc.txs =~= tx_models(candidate.txs@));
        assert(buf@.subrange(0, 8) == spec_u64_to_le_bytes(block_id));
        assert(buf@.subrange(8, 16) == spec_u64_to_le_bytes(n_ids));
        assert(buf@.subrange(base - 8, base) == spec_u64_to_le_bytes(n_txs));
        assert(buf@ =~= buf@.subrange(0, 8) + buf@.subrange(8, 16) + buf@.subrange(
            16,
            base - 8,
        ) + buf@.subrange(base - 8, base) + buf@.subrange(base, buf@.len() as int));
        assert(buf@ == spec_encode_block_data(mc));
        assert forall|m2: crate::block::BlockDataModel| block_data_model_valid(m2) && buf@
            == spec_encode_block_data(m2) implies mc == m2 by {
            lemma_block_data_layout(m2, buf@);
            lemma_block_data_layout(mc, buf@);
            assert(mc.block_id == m2.block_id);
            assert(mc.tx_ids.len() == m2.tx_ids.len());
            lemma_id_list_inj(mc.tx_ids, m2.tx_ids);
            assert(mc.txs.len() == m2.txs.len());
            let w = buf@.subrange(base, buf@.len() as int);
            lemma_tx_list_len(mc.txs);
            lemma_tx_list_len(m2.txs);
            assert(spec_encode_tx_list(mc.txs) =~= w.subrange(
                0,
                tx_prefix_len(mc.txs, mc.txs.len() as int),
            ));
            assert(spec_encode_tx_list(m2.txs) =~= w.subrange(
                0,
                tx_prefix_len(m2.txs, m2.txs.len() as int),
            ));
            lemma_tx_common_prefix(mc.txs, m2.txs, w, mc.txs.len() as int);
            assert(mc.txs =~= m2.txs);
        }
    }
    Some(candidate)
}

/// The encoding of a filter: its configuration and packed words.
pub open spec fn spec_encode_bloom(m: crate::block::BloomModel) -> Seq<u8> {
    spec_u64_to_le_bytes(m.k as u64) + spec_u64_to_le_bytes(m.m as u64) + spec_u64_to_le_bytes(
        (m.words.len() * 8) as u64,
    ) + crate::bitset::bytes_of_words(m.words)
}

/// Serialize a filter.
pub fn encode_bloom_into(out: &mut Vec<u8>, f: &crate::bloom::SeededBloomFilter)
    requires f.wf(),
    ensures
        final(out)@ == old(out)@ + spec_encode_bloom(crate::block::bloom_model(*f)),
{
    let (k, m) = f.config();
    put_u64(out, k as u64);
    put_u64(out, m as u64);
    let bytes = f.to_bytes();
    let ghost mid = out@;
    put_bytes(out, &bytes);
    proof {
        crate::bitset::lemma_bytes_of_words_len(f.words());
        assert(bytes@ == crate::bitset::bytes_of_words(f.words()));
        assert(bytes@.len() == f.words().len() * 8);
        assert(out@ == mid + spec_u64_to_le_bytes(bytes@.len() as u64) + bytes@);
        assert(crate::block::bloom_model(*f).words == f.words());
        assert(crate::block::bloom_model(*f).k == f.k());
        assert(crate::block::bloom_model(*f).m == f.m());
        assert(out@ =~= old(out)@ + spec_encode_bloom(crate::block::bloom_model(*f)));
    }
}

/// Read a filter at `pos`, advancing it.  On success the filter's
/// configuration and words are exactly the encoded ones; failure means
/// no well-formed filter encoding starts here.
pub fn take_bloom(buf: &Vec<u8>, pos: &mut usize) -> (r: Option<crate::bloom::SeededBloomFilter>)
    ensures
        match r {
            Some(f) => {
                &&& f.wf()
                &&& *old(pos) + 24 <= buf@.len()
                &&& f.k() == spec_u64_from_le_bytes(buf@.subrange(
                    *old(pos) as int,
                    *old(pos) + 8,
                ))
                &&& f.m() == spec_u64_from_le_bytes(buf@.subrange(
                    *old(pos) + 8,
                    *old(pos) + 16,
                ))
                &&& *final(pos) == *old(pos) + 24 + spec_u64_from_le_bytes(buf@.subrange(
                    *old(pos) + 16,
                    *old(pos) + 24,
                ))
                &&& *final(pos) <= buf@.len()
                &&& f.words() == crate::bitset::words_of_bytes(buf@.subrange(
                    *old(pos) + 24,
                    *final(pos) as int,
                ))
                &&& crate::bitset::bytes_of_words(f.words()) == buf@.subrange(
                    *old(pos) + 24,
                    *final(pos) as int,
                )
            },
            None => !({
                let p0 = *old(pos) as int;
                let b = buf@;
                let kv = spec_u64_from_le_bytes(b.subrange(p0, p0 + 8));
                let mv = spec_u64_from_le_bytes(b.subrange(p0 + 8, p0 + 16));
                let wl = spec_u64_from_le_bytes(b.subrange(p0 + 16, p0 + 24));
                &&& p0 + 24 <= b.len()
                &&& wl <= b.len()
                &&& p0 + 24 + wl <= b.len()
                &&& kv <= usize::MAX
                &&& mv <= usize::MAX
                &&& kv >= 1
                &&& mv >= 1
                &&& kv * mv <= usize::MAX - 63
                &&& wl == ((kv * mv + 63) / 64) * 8
                &&& crate::bitset::slack_ok(
                    (kv * mv) as int,
                    crate::bitset::words_of_bytes(b.subrange(p0 + 24, p0 + 24 + wl)),
                )
            }),
        },
{
    let ghost p0 = *pos;
    let k = match take_u64(buf, pos) {
        Some(v) => v,
        None => { return None; },
    };
    let m = match take_u64(buf, pos) {
        Some(v) => v,
        None => { return None; },
    };
    let bytes = match take_bytes(buf, pos) {
        Some(v) => v,
        None => { return None; },
    };
    if k > usize::MAX as u64 || m > usize::MAX as u64 {
        return None;
    }
    let r = crate::bloom::SeededBloomFilter::from_parts(k as usize, m as usize, &bytes);
    proof {
        if r is None {
            assert(bytes@ == buf@.subrange(p0 + 24, p0 + 24 + bytes@.len()));
        }
    }
    r
}

/// A filter model small and tidy enough to survive the byte layout:
/// a real configuration whose word count and slack bits are exact.
pub open spec fn bloom_model_valid(m: crate::block::BloomModel) -> bool {
    &&& 1 <= m.k
    &&& 1 <= m.m
    &&& m.k * m.m <= usize::MAX - 63
    &&& m.words.len() == (m.k * m.m + 63) / 64
    &&& crate::bitset::slack_ok((m.k * m.m) as int, m.words)
}

/// A header model whose byte strings fit their length prefixes and
/// whose filter is valid.
pub open spec fn header_model_valid(h: crate::block::HeaderModel) -> bool {
    &&& bloom_model_valid(h.bmt_root)
    &&& h.pre_hash.len() <= u64::MAX
    &&& h.rmt_root.len() <= u64::MAX
}

/// The encoding of one block header.
pub open spec fn spec_encode_header(h: crate::block::HeaderModel) -> Seq<u8> {
    spec_u64_to_le_bytes(h.block_id) + spec_u64_to_le_bytes(h.pre_hash.len() as u64)
        + h.pre_hash + spec_u64_to_le_bytes(h.time_stamp) + spec_encode_bloom(h.bmt_root)
        + spec_u64_to_le_bytes(h.rmt_root.len() as u64) + h.rmt_root
}

/// Serialize one block header.
pub fn encode_block_header(h: &crate::block::BlockHeader) -> (r: Vec<u8>)
    requires h.bmt_root.wf(),
    ensures r@ == spec_encode_header(crate::block::header_model(*h)),
{
    let mut out: Vec<u8> = Vec::new();
    put_u64(&mut out, h.block_id);
    put_bytes(&mut out, &h.pre_hash.0);
    put_u64(&mut out, h.time_stamp);
    encode_bloom_into(&mut out, &h.bmt_root);
    put_bytes(&mut out, &h.rmt_root.0);
    proof {
        assert(out@ =~= spec_encode_header(crate::block::header_model(*h)));
    }
    out
}

/// The positions of every field inside a valid header encoding.
proof fn lemma_header_layout(m: crate::block::HeaderModel, b: Seq<u8>)
    requires
        b == spec_encode_header(m),
        header_model_valid(m),
    ensures
        ({
            let l1 = m.pre_hash.len() as int;
            let w = m.bmt_root.words.len() * 8;
            let l2 = m.rmt_root.len() as int;
            let base1 = 16 + l1;
            let base2 = base1 + 32 + w;
            &&& b.len() == 56 + l1 + w + l2
            &&& b.subrange(0, 8) == spec_u64_to_le_bytes(m.block_id)
            &&& b.subrange(8, 16) == spec_u64_to_le_bytes(m.pre_hash.len() as u64)
            &&& b.subrange(16, base1) == m.pre_hash
            &&& b.subrange(base1, base1 + 8) == spec_u64_to_le_bytes(m.time_stamp)
            &&& b.subrange(base1 + 8, base1 + 16) == spec_u64_to_le_bytes(m.bmt_root.k as u64)
            &&& b.subrange(base1 + 16, base1 + 24) == spec_u64_to_le_bytes(
                m.bmt_root.m as u64,
            )
            &&& b.subrange(base1 + 24, base1 + 32) == spec_u64_to_le_bytes(
                (m.bmt_root.words.len() * 8) as u64,
            )
            &&& b.subrange(base1 + 32, base2) == crate::bitset::bytes_of_words(
                m.bmt_root.words,
            )
            &&& b.subrange(base2, base2 + 8) == spec_u64_to_le_bytes(m.rmt_root.len() as u64)
            &&& b.subrange(base2 + 8, base2 + 8 + l2) == m.rmt_root
        }),
{
    crate::bitset::lemma_bytes_of_words_len(m.bmt_root.words);
    lemma_auto_spec_u64_to_from_le_bytes();
    let l1 = m.pre_hash.len() as int;
    let w = m.bmt_root.words.len() * 8;
    let l2 = m.rmt_root.len() as int;
    let base1 = 16 + l1;
    let base2 = base1 + 32 + w;
    assert(b.subrange(0, 8) =~= spec_u64_to_le_bytes(m.block_id));
    assert(b.subrange(8, 16) =~= spec_u64_to_le_bytes(m.pre_hash.len() as u64));
    assert(b.subrange(16, base1) =~= m.pre_hash);
    assert(b.subrange(base1, base1 + 8) =~= spec_u64_to_le_bytes(m.time_stamp));
    assert(b.subrange(base1 + 8, base1 + 16) =~= spec_u64_to_le_bytes(m.bmt_root.k as u64));
    assert(b.subrange(base1 + 16, base1 + 24) =~= spec_u64_to_le_bytes(m.bmt_root.m as u64));
    assert(b.subrange(base1 + 24, base1 + 32) =~= spec_u64_to_le_bytes(
        (m.bmt_root.words.len() * 8) as u64,
    ));
    assert(b.subrange(base1 + 32, base2) =~= crate::bitset::bytes_of_words(m.bmt_root.words));
    assert(b.subrange(base2, base2 + 8) =~= spec_u64_to_le_bytes(m.rmt_root.len() as u64));
    assert(b.subrange(base2 + 8, base2 + 8 + l2) =~= m.rmt_root);
}

/// Read one block header from the whole buffer; a value is handed out
/// only when serializing it again reproduces the buffer exactly, and
/// one is always handed out where the buffer is the encoding of a
/// valid header, namely that header.
pub fn decode_block_header(buf: &Vec<u8>) -> (r: Option<crate::block::BlockHeader>)
    ensures
        match r {
            Some(h) => h.bmt_root.wf() && buf@ == spec_encode_header(
                crate::block::header_model(h),
            ),
            None => true,
        },
        forall|m2: crate::block::HeaderModel| header_model_valid(m2) && buf@
            == spec_encode_header(m2) ==> (r is Some && crate::block::header_model(r->0)
            == m2),
{
    let mut pos: usize = 0;
    let block_id = match take_u64(buf, &mut pos) {
        Some(v) => v,
        None => {
            proof {
                assert forall|m2: crate::block::HeaderModel| header_model_valid(m2) && buf@
                    == spec_encode_header(m2) implies false by {
                    lemma_header_layout(m2, buf@);
                    lemma_auto_spec_u64_to_from_le_bytes();
                }
            }
            return None;
        },
    };
    let pre_hash = match take_bytes(buf, &mut pos) {
        Some(v) => v,
        None => {
            proof {
                assert forall|m2: crate::block::HeaderModel| header_model_valid(m2) && buf@
                    == spec_encode_header(m2) implies false by {
                    lemma_header_layout(m2, buf@);
                    lemma_auto_spec_u64_to_from_le_bytes();
                }
            }
            return None;
        },
    };
    let time_stamp = match take_u64(buf, &mut pos) {
        Some(v) => v,
        None => {
            proof {
                assert forall|m2: crate::block::HeaderModel| header_model_valid(m2) && buf@
                    == spec_encode_header(m2) implies false by {
                    lemma_header_layout(m2, buf@);
                    lemma_auto_spec_u64_to_from_le_bytes();
                    assert(pre_hash@.len() == m2.pre_hash.len());
                }
            }
            return None;
        },
    };
    let ghost pos_bloom = pos as int;
    let bmt_root = match take_bloom(buf, &mut pos) {
        Some(v) => v,
        None => {
            proof {
                assert forall|m2: crate::block::HeaderModel| header_model_valid(m2) && buf@
                    == spec_encode_header(m2) implies false by {
                    lemma_header_layout(m2, buf@);
                    lemma_auto_spec_u64_to_from_le_bytes();
                    assert(pre_hash@.len() == m2.pre_hash.len());
                    let base1 = 16 + m2.pre_hash.len() as int;
                    assert(pos_bloom == base1 + 8);
                    assert(m2.bmt_root.k * m2.bmt_root.m <= usize::MAX - 63);
                    assert(m2.bmt_root.k <= usize::MAX) by (nonlinear_arith)
                        requires
                            m2.bmt_root.k * m2.bmt_root.m <= usize::MAX - 63,
                            m2.bmt_root.m >= 1,
                            m2.bmt_root.k >= 1;
                    assert(m2.bmt_root.m <= usize::MAX) by (nonlinear_arith)
                        requires
                            m2.bmt_root.k * m2.bmt_root.m <= usize::MAX - 63,
                            m2.bmt_root.m >= 1,
                            m2.bmt_root.k >= 1;
                    assert(spec_u64_from_le_bytes(buf@.subrange(pos_bloom, pos_bloom + 8))
                        == m2.bmt_root.k);
                    assert(spec_u64_from_le_bytes(buf@.subrange(
                        pos_bloom + 8,
                        pos_bloom + 16,
                    )) == m2.bmt_root.m);
                    assert(spec_u64_from_le_bytes(buf@.subrange(
                        pos_bloom + 16,
                        pos_bloom + 24,
                    )) == m2.bmt_root.words.len() * 8);
                    assert(buf@.subrange(
                        pos_bloom + 24,
                        pos_bloom + 24 + m2.bmt_root.words.len() * 8,
                    ) == crate::bitset::bytes_of_words(m2.bmt_root.words));
                    crate::bitset::lemma_words_round_trip(m2.bmt_root.words);
                }
            }
            return None;
        },
    };
    let ghost pos_rmt = pos as int;
    let rmt_root = match take_bytes(buf, &mut pos) {
        Some(v) => v,
        None => {
            proof {
                assert forall|m2: crate::block::HeaderModel| header_model_valid(m2) && buf@
                    == spec_encode_header(m2) implies false by {
                    lemma_header_layout(m2, buf@);
                    lemma_auto_spec_u64_to_from_le_bytes();
                    assert(pre_hash@.len() == m2.pre_hash.len());
                    crate::bitset::lemma_bytes_of_words_len(bmt_root.words());
                }
            }
            return None;
        },
    };
    if pos != buf.len() {
        proof {
            assert forall|m2: crate::block::HeaderModel| header_model_valid(m2) && buf@
                == spec_encode_header(m2) implies false by {
                lemma_header_layout(m2, buf@);
                lemma_auto_spec_u64_to_from_le_bytes();
                assert(pre_hash@.len() == m2.pre_hash.len());
                assert(rmt_root@.len() == m2.rmt_root.len());
            }
        }
        return None;
    }
    let candidate = crate::block::BlockHeader {
        block_id,
        pre_hash: crate::digest::Digest(pre_hash),
        time_stamp,
        bmt_root,
        rmt_root: crate::digest::Digest(rmt_root),
    };
    proof {
        assert forall|m2: crate::block::HeaderModel| header_model_valid(m2) && buf@
            == spec_encode_header(m2) implies crate::block::header_model(candidate)
            == m2 by {
            lemma_header_layout(m2, buf@);
            lemma_auto_spec_u64_to_from_le_bytes();
            assert(pre_hash@.len() == m2.pre_hash.len());
            assert(pre_hash@ =~= m2.pre_hash);
            assert(candidate.block_id == m2.block_id);
            assert(candidate.time_stamp == m2.time_stamp);
            let base1 = 16 + m2.pre_hash.len() as int;
            assert(pos_bloom == base1 + 8);
            assert(m2.bmt_root.k <= usize::MAX) by (nonlinear_arith)
                requires
                    m2.bmt_root.k * m2.bmt_root.m <= usize::MAX - 63,
                    m2.bmt_root.m >= 1,
                    m2.bmt_root.k >= 1;
            assert(m2.bmt_root.m <= usize::MAX) by (nonlinear_arith)
                requires
                    m2.bmt_root.k * m2.bmt_root.m <= usize::MAX - 63,
                    m2.bmt_root.m >= 1,
                    m2.bmt_root.k >= 1;
            assert(spec_u64_from_le_bytes(buf@.subrange(pos_bloom, pos_bloom + 8))
                == m2.bmt_root.k);
            assert(spec_u64_from_le_bytes(buf@.subrange(pos_bloom + 8, pos_bloom + 16))
                == m2.bmt_root.m);
            assert(candidate.bmt_root.k() == m2.bmt_root.k);
            assert(candidate.bmt_root.m() == m2.bmt_root.m);
            assert(buf@.subrange(base1 + 32, base1 + 32 + m2.bmt_root.words.len() * 8)
                == crate::bitset::bytes_of_words(m2.bmt_root.words));
            crate::bitset::lemma_words_round_trip(m2.bmt_root.words);
            crate::bitset::lemma_bytes_of_words_len(m2.bmt_root.words);
            assert(candidate.bmt_root.words() =~= m2.bmt_root.words);
            assert(rmt_root@ =~= m2.rmt_root);
            assert(crate::block::bloom_model(candidate.bmt_root) == m2.bmt_root);
        }
    }
    let reencoded = encode_block_header(&candidate);
    if crate::digest::compare_bytes(&reencoded, buf) {
        Some(candidate)
    } else {
        proof {
            assert forall|m2: crate::block::HeaderModel| header_model_valid(m2) && buf@
                == spec_encode_header(m2) implies false by {
                assert(crate::block::header_model(candidate) == m2);
                assert(reencoded@ == spec_encode_header(m2));
            }
        }
        None
    }
}

/// The encoding of one per-attribute map.
pub open spec fn spec_encode_btree(b: crate::store::BTreeModel) -> Seq<u8> {
    match b {
        crate::store::BTreeModel::U64(entries) => seq![0u8] + spec_u64_to_le_bytes(
            entries.len() as u64,
        ) + spec_encode_u64_entries(entries),
        crate::store::BTreeModel::Text(entries) => seq![1u8] + spec_u64_to_le_bytes(
            entries.len() as u64,
        ) + spec_encode_text_entries(entries),
    }
}

/// The encoding of numeric map entries, in order.
pub open spec fn spec_encode_u64_entries(s: Seq<(u64, crate::block::TxModel)>) -> Seq<u8>
    decreases s.len(),
{
    if s.len() == 0 {
        Seq::empty()
    } else {
        spec_encode_u64_entries(s.drop_last()) + spec_u64_to_le_bytes(s.last().0)
            + spec_encode_tx(s.last().1)
    }
}

/// The encoding of byte-string map entries, in order.
pub open spec fn spec_encode_text_entries(s: Seq<(Seq<u8>, crate::block::TxModel)>) -> Seq<u8>
    decreases s.len(),
{
    if s.len() == 0 {
        Seq::empty()
    } else {
        spec_encode_text_entries(s.drop_last()) + spec_u64_to_le_bytes(s.last().0.len() as u64)
            + s.last().0 + spec_encode_tx(s.last().1)
    }
}

/// Serialize one per-attribute map.
pub fn encode_btree(b: &crate::intra::BTreeEnum) -> (r: Vec<u8>)
    ensures r@ == spec_encode_btree(crate::store::btree_model(*b)),
{
    let mut out: Vec<u8> = Vec::new();
    match b {
        crate::intra::BTreeEnum::U64(m) => {
            out.push(0u8);
            put_u64(&mut out, m.entries.len() as u64);
            let ghost head = out@;
            let ghost em = crate::intra::u64_map_model(*m);
            let mut i: usize = 0;
            while i < m.entries.len()
                invariant
                    i <= m.entries@.len(),
                    em == crate::intra::u64_map_model(*m),
                    out@ == head + spec_encode_u64_entries(em.subrange(0, i as int)),
                decreases m.entries@.len() - i,
            {
                put_u64(&mut out, m.entries[i].0);
                encode_tx_into(&mut out, &m.entries[i].1);
                i += 1;
                proof {
                    let pre = em.subrange(0, i - 1);
                    let post = em.subrange(0, i as int);
                    assert(post.drop_last() =~= pre);
                    assert(post.last() == em[i - 1]);
                    assert(out@ =~= head + spec_encode_u64_entries(post));
                }
            }
            proof {
                assert(em.subrange(0, em.len() as int) =~= em);
                assert(out@ =~= spec_encode_btree(crate::store::btree_model(*b)));
            }
        },
        crate::intra::BTreeEnum::Text(m) => {
            out.push(1u8);
            put_u64(&mut out, m.entries.len() as u64);
            let ghost head = out@;
            let ghost em = crate::intra::text_map_model(*m);
            let mut i: usize = 0;
            while i < m.entries.len()
                invariant
                    i <= m.entries@.len(),
                    em == crate::intra::text_map_model(*m),
                    out@ == head + spec_encode_text_entries(em.subrange(0, i as int)),
                decreases m.entries@.len() - i,
            {
                put_bytes(&mut out, &m.entries[i].0);
                encode_tx_into(&mut out, &m.entries[i].1);
                i += 1;
                proof {
                    let pre = em.subrange(0, i - 1);
                    let post = em.subrange(0, i as int);
                    assert(post.drop_last() =~= pre);
                    assert(post.last() == em[i - 1]);
                    assert(out@ =~= head + spec_encode_text_entries(post));
                }
            }
            proof {
                assert(em.subrange(0, em.len() as int) =~= em);
                assert(out@ =~= spec_encode_btree(crate::store::btree_model(*b)));
            }
        },
    }
    out
}

/// Read one per-attribute map at `pos`, advancing it.
pub fn take_btree(buf: &Vec<u8>, pos: &mut usize) -> (r: Option<crate::intra::BTreeEnum>)
{
    if *pos >= buf.len() {
        return None;
    }
    let tag = buf[*pos];
    *pos = *pos + 1;
    let n = match take_u64(buf, pos) {
        Some(v) => v,
        None => { return None; },
    };
    if n > buf.len() as u64 {
        return None;
    }
    if tag == 0 {
        let mut entries: Vec<(u64, crate::block::Transaction)> = Vec::new();
        let mut i: usize = 0;
        while i < n as usize
            invariant i <= n,
            decreases n as int - i,
        {
            let k = match take_u64(buf, pos) {
                Some(v) => v,
                None => { return None; },
            };
            let t = match take_tx(buf, pos) {
                Some(t) => t,
                None => { return None; },
            };
            entries.push((k, t));
            i += 1;
        }
        Some(crate::intra::BTreeEnum::U64(crate::intra::U64IndexMap { entries }))
    } else if tag == 1 {
        let mut entries: Vec<(Vec<u8>, crate::block::Transaction)> = Vec::new();
        let mut i: usize = 0;
        while i < n as usize
            invariant i <= n,
            decreases n as int - i,
        {
            let k = match take_bytes(buf, pos) {
                Some(v) => v,
                None => { return None; },
            };
            let t = match take_tx(buf, pos) {
                Some(t) => t,
                None => { return None; },
            };
            entries.push((k, t));
            i += 1;
        }
        Some(crate::intra::BTreeEnum::Text(crate::intra::TextIndexMap { entries }))
    } else {
        None
    }
}

/// The encoding of one block's materialized map family.
pub open spec fn spec_encode_intra_entries(
    s: Seq<(Attribute, crate::store::BTreeModel)>,
) -> Seq<u8>
    decreases s.len(),
{
    if s.len() == 0 {
        Seq::empty()
    } else {
        spec_encode_intra_entries(s.drop_last()) + seq![attr_tag(s.last().0)]
            + spec_encode_btree(s.last().1)
    }
}

/// The encoding of a per-block index family.
pub open spec fn spec_encode_intra(
    block_id: u64,
    s: Seq<(Attribute, crate::store::BTreeModel)>,
) -> Seq<u8> {
    spec_u64_to_le_bytes(block_id) + spec_u64_to_le_bytes(s.len() as u64)
        + spec_encode_intra_entries(s)
}

/// Serialize a per-block index family.
pub fn encode_intra_index(x: &crate::intra::IntraIndex) -> (r: Vec<u8>)
    ensures
        r@ == spec_encode_intra(x.block_id, crate::store::intra_entries_model(*x)),
{
    let ghost em = crate::store::intra_entries_model(*x);
    let mut out: Vec<u8> = Vec::new();
    put_u64(&mut out, x.block_id);
    put_u64(&mut out, x.index.len() as u64);
    let ghost head = out@;
    let mut i: usize = 0;
    while i < x.index.len()
        invariant
            i <= x.index@.len(),
            em == crate::store::intra_entries_model(*x),
            out@ == head + spec_encode_intra_entries(em.subrange(0, i as int)),
        decreases x.index@.len() - i,
    {
        put_attr(&mut out, x.index[i].0);
        let bb = encode_btree(&x.index[i].1);
        crate::digest::append_bytes(&mut out, &bb);
        i += 1;
        proof {
            let pre = em.subrange(0, i - 1);
            let post = em.subrange(0, i as int);
            assert(post.drop_last() =~= pre);
            assert(post.last() == em[i - 1]);
            assert(out@ =~= head + spec_encode_intra_entries(post));
        }
    }
    proof {
        assert(em.subrange(0, em.len() as int) =~= em);
        assert(out@ =~= spec_encode_intra(x.block_id, em));
    }
    out
}

/// Read a per-block index family from the whole buffer; a value is
/// handed out only when serializing it again reproduces the buffer
/// exactly.
pub fn decode_intra_index(buf: &Vec<u8>) -> (r: Option<crate::intra::IntraIndex>)
    ensures
        match r {
            Some(x) => buf@ == spec_encode_intra(
                x.block_id,
                crate::store::intra_entries_model(x),
            ),
            None => true,
        },
{
    let mut pos: usize = 0;
    let block_id = match take_u64(buf, &mut pos) {
        Some(v) => v,
        None => { return None; },
    };
    let n = match take_u64(buf, &mut pos) {
        Some(v) => v,
        None => { return None; },
    };
    if n > buf.len() as u64 {
        return None;
    }
    let mut index: Vec<(Attribute, crate::intra::BTreeEnum)> = Vec::new();
    let mut i: usize = 0;
    while i < n as usize
        invariant i <= n,
        decreases n as int - i,
    {
        if pos >= buf.len() {
            return None;
        }
        let tag = buf[pos];
        let a = if tag == 0 {
            Attribute::Id
        } else if tag == 1 {
            Attribute::Address
        } else if tag == 2 {
            Attribute::Value
        } else if tag == 3 {
            Attribute::Timestamp
        } else {
            return None;
        };
        pos = pos + 1;
        let b = match take_btree(buf, &mut pos) {
            Some(b) => b,
            None => { return None; },
        };
        index.push((a, b));
        i += 1;
    }
    if pos != buf.len() {
        return None;
    }
    let candidate = crate::intra::IntraIndex { block_id, index };
    let reencoded = encode_intra_index(&candidate);
    if crate::digest::compare_bytes(&reencoded, buf) {
        Some(candidate)
    } else {
        None
    }
}

} // verus!
