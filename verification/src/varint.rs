//! Unsigned LEB128 variable-length integers: 7-bit groups, least
//! significant first, continuation flag in the high bit.

use vstd::prelude::*;
use crate::record::RecordError;

verus! {

/// The encoding of `v`: one byte per 7-bit group, low groups first, the
/// high bit set on every byte but the last. Zero is a single `0x00`.
pub open spec fn spec_varint(v: u64) -> Seq<u8>
    decreases v,
{
    if v < 128 {
        seq![v as u8]
    } else {
        seq![(v % 128 + 128) as u8] + spec_varint(v / 128)
    }
}

/// What reading a varint from `s` yields, starting at byte `i` with a
/// partial accumulator: the value and the position one past its last
/// byte, or the reason the read fails. A shift of 64 or more is an
/// overflow; running out of bytes first is an incomplete read.
pub enum VarintRead {
    Value { v: u64, end: int },
    Incomplete,
    Overflow,
}

/// One step of the decoder per byte: or the 7-bit group into `acc` at
/// `shift` (truncating, as the machine shift does) and continue while
/// the high bit is set.
pub open spec fn spec_read_varint(s: Seq<u8>, i: int, shift: u64, acc: u64) -> VarintRead
    decreases s.len() - i,
{
    if i >= s.len() {
        VarintRead::Incomplete
    } else if shift >= 64 {
        VarintRead::Overflow
    } else {
        let b = s[i];
        let acc2 = acc | (((b % 128) as u64) << shift);
        if b < 128 {
            VarintRead::Value { v: acc2, end: i + 1 }
        } else {
            spec_read_varint(s, i + 1, (shift + 7) as u64, acc2)
        }
    }
}

/// Reading a whole varint at position `i`.
pub open spec fn spec_decode_varint(s: Seq<u8>, i: int) -> VarintRead {
    spec_read_varint(s, i, 0, 0)
}

/// Appends the LEB128 encoding of `value` to `buf`.
pub fn encode_varint(buf: &mut Vec<u8>, value: u64)
    ensures
        final(buf)@ == old(buf)@ + spec_varint(value),
{
    let ghost buf0 = buf@;
    let mut v = value;
    while v >= 128
        invariant
            buf0 + spec_varint(value) == buf@ + spec_varint(v),
        decreases v,
    {
        let ghost pre = buf@;
        buf.push((v % 128 + 128) as u8);
        proof {
            assert(spec_varint(v) == seq![(v % 128 + 128) as u8] + spec_varint(v / 128));
            assert(pre + (seq![(v % 128 + 128) as u8] + spec_varint(v / 128)) =~= (pre + seq![
                (v % 128 + 128) as u8,
            ]) + spec_varint(v / 128));
        }
        v = v / 128;
    }
    let ghost pre = buf@;
    buf.push(v as u8);
    proof {
        assert(spec_varint(v) == seq![v as u8]);
        assert(buf@ =~= pre + spec_varint(v));
    }
}

/// Reads one LEB128 varint from `data` at `start`. Returns the value and
/// the index one past its last byte. `Incomplete` if the input ends
/// inside the varint; `Io` if the continuation chain runs to a shift of
/// 64 or more.
pub fn decode_varint(data: &[u8], start: usize) -> (r: Result<(u64, usize), RecordError>)
    requires
        start <= data@.len(),
    ensures
        match r {
            Ok(p) => {
                &&& spec_decode_varint(data@, start as int) == (VarintRead::Value {
                    v: p.0,
                    end: p.1 as int,
                })
                &&& start < p.1 <= data@.len()
            },
            Err(e) => {
                &&& (e == RecordError::Incomplete || e == RecordError::Io)
                &&& (e == RecordError::Incomplete ==> spec_decode_varint(data@, start as int)
                    == VarintRead::Incomplete)
                &&& (e == RecordError::Io ==> spec_decode_varint(data@, start as int)
                    == VarintRead::Overflow)
            },
        },
{
    let mut i = start;
    let mut shift: u64 = 0;
    let mut acc: u64 = 0;
    loop
        invariant
            start <= i <= data@.len(),
            shift <= 70,
            spec_decode_varint(data@, start as int) == spec_read_varint(
                data@,
                i as int,
                shift,
                acc,
            ),
        decreases data@.len() - i,
    {
        if i >= data.len() {
            return Err(RecordError::Incomplete);
        }
        let b = *vstd::slice::slice_index_get(data, i);
        i = i + 1;
        if shift >= 64 {
            return Err(RecordError::Io);
        }
        acc = acc | (((b % 128) as u64) << shift);
        if b < 128 {
            return Ok((acc, i));
        }
        shift = shift + 7;
    }
}

/// A successful varint read ends past its start and within the input.
pub proof fn lemma_read_varint_bounds(s: Seq<u8>, i: int, shift: u64, acc: u64)
    requires
        0 <= i,
    ensures
        spec_read_varint(s, i, shift, acc) matches VarintRead::Value { v, end } ==> i < end
            <= s.len(),
    decreases s.len() - i,
{
    if i < s.len() && shift < 64 && s[i] >= 128 {
        lemma_read_varint_bounds(s, i + 1, (shift + 7) as u64, acc | (((s[i] % 128) as u64) << shift));
    }
}

/// A varint read that succeeds within the first `n` bytes reads the same
/// from any input that agrees on those bytes.
pub proof fn lemma_read_varint_agree(s: Seq<u8>, t: Seq<u8>, i: int, shift: u64, acc: u64, n: int)
    requires
        0 <= i,
        n <= s.len(),
        n <= t.len(),
        forall|j: int| 0 <= j < n ==> s[j] == t[j],
        spec_read_varint(s, i, shift, acc) matches VarintRead::Value { v, end } && end <= n,
    ensures
        spec_read_varint(t, i, shift, acc) == spec_read_varint(s, i, shift, acc),
    decreases s.len() - i,
{
    lemma_read_varint_bounds(s, i, shift, acc);
    if i < s.len() && shift < 64 {
        let b = s[i];
        if b >= 128 {
            lemma_read_varint_agree(s, t, i + 1, (shift + 7) as u64, acc | (((b % 128) as u64)
                << shift), n);
        }
    }
}

/// Reading the encoding of `v` laid down at `i`, from any partial state
/// whose accumulator sits wholly below `shift`, yields the accumulated
/// value and stops right after the encoding.
proof fn lemma_read_varint_encoding(s: Seq<u8>, i: int, v: u64, shift: u64, acc: u64)
    requires
        0 <= i,
        i + spec_varint(v).len() <= s.len(),
        forall|j: int| 0 <= j < spec_varint(v).len() ==> s[i + j] == spec_varint(v)[j],
        shift <= 63,
        acc < (1u64 << shift),
        shift == 0 || (v >> ((64 - shift) as u64)) == 0,
    ensures
        spec_read_varint(s, i, shift, acc) == (VarintRead::Value {
            v: acc | (v << shift),
            end: i + spec_varint(v).len(),
        }),
    decreases v,
{
    if v < 128 {
        assert(spec_varint(v) =~= seq![v as u8]);
        let b0 = s[i];
        assert(s[i + 0] == spec_varint(v)[0]);
        assert(b0 == v as u8);
        assert(b0 == v);
        assert(b0 < 128);
        assert((b0 % 128) as u64 == v);
    } else {
        let b = (v % 128 + 128) as u8;
        assert(spec_varint(v) == seq![b] + spec_varint(v / 128));
        assert(s[i + 0] == spec_varint(v)[0]);
        assert(s[i] == b);
        assert(v % 128 + 128 < 256);
        assert(b == v % 128 + 128);
        assert(b >= 128);
        let g = (b % 128) as u64;
        assert(b % 128 == v % 128);
        assert(g == v % 128);
        let acc2 = acc | (g << shift);
        assert(shift <= 56) by (bit_vector)
            requires
                shift <= 63,
                shift == 0 || (v >> ((64 - shift) as u64)) == 0,
                v >= 128,
        ;
        assert(acc2 < (1u64 << ((shift + 7) as u64))) by (bit_vector)
            requires
                acc2 == (acc | ((v % 128) << shift)),
                acc < (1u64 << shift),
                shift <= 56,
        ;
        assert((v / 128) >> ((64 - (shift + 7)) as u64) == 0) by (bit_vector)
            requires
                shift <= 56,
                shift == 0 || (v >> ((64 - shift) as u64)) == 0,
        ;
        assert forall|j: int| 0 <= j < spec_varint(v / 128).len() implies #[trigger] s[i + 1 + j]
            == spec_varint(v / 128)[j] by {
            assert(spec_varint(v)[j + 1] == spec_varint(v / 128)[j]);
            assert(s[i + (j + 1)] == spec_varint(v)[j + 1]);
        }
        lemma_read_varint_encoding(s, i + 1, v / 128, (shift + 7) as u64, acc2);
        assert((acc2 | ((v / 128) << ((shift + 7) as u64))) == (acc | (v << shift)))
            by (bit_vector)
            requires
                acc2 == (acc | ((v % 128) << shift)),
                shift <= 56,
        ;
    }
}

/// Law: the varint codec round-trips. Wherever the encoding of `v` lies
/// in `s`, reading a varint there yields exactly `v` and stops right
/// after it.
pub proof fn lemma_varint_reads_at(s: Seq<u8>, i: int, v: u64)
    requires
        0 <= i,
        i + spec_varint(v).len() <= s.len(),
        forall|j: int| 0 <= j < spec_varint(v).len() ==> s[i + j] == spec_varint(v)[j],
    ensures
        spec_decode_varint(s, i) == (VarintRead::Value {
            v,
            end: i + spec_varint(v).len() as int,
        }),
{
    assert(0u64 < (1u64 << 0u64)) by (bit_vector);
    lemma_read_varint_encoding(s, i, v, 0, 0);
    assert((0u64 | (v << 0u64)) == v) by (bit_vector);
}

/// Law: the varint codec round-trips. For every `v`, decoding an input
/// that starts with the encoding of `v` after any prefix yields exactly
/// `v` and consumes exactly the encoding's bytes.
pub proof fn lemma_varint_roundtrip_at(pre: Seq<u8>, v: u64, rest: Seq<u8>)
    ensures
        spec_decode_varint(pre + spec_varint(v) + rest, pre.len() as int) == (VarintRead::Value {
            v,
            end: pre.len() + spec_varint(v).len() as int,
        }),
{
    let s = pre + spec_varint(v) + rest;
    let i = pre.len() as int;
    assert forall|j: int| 0 <= j < spec_varint(v).len() implies s[i + j] == spec_varint(v)[j] by {
        assert(s[i + j] == (pre + spec_varint(v))[i + j]);
    }
    assert(0u64 < (1u64 << 0u64)) by (bit_vector);
    lemma_read_varint_encoding(s, i, v, 0, 0);
    assert((0u64 | (v << 0u64)) == v) by (bit_vector);
}

/// Law: for every `v`, `decode(encode(v) ++ anything)` yields `v` and
/// consumes exactly `encode(v)`.
pub proof fn lemma_varint_roundtrip(v: u64, rest: Seq<u8>)
    ensures
        spec_decode_varint(spec_varint(v) + rest, 0) == (VarintRead::Value {
            v,
            end: spec_varint(v).len() as int,
        }),
{
    lemma_varint_roundtrip_at(Seq::empty(), v, rest);
    assert(Seq::<u8>::empty() + spec_varint(v) + rest =~= spec_varint(v) + rest);
}

} // verus!
