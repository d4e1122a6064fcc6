//! The WAL record and its wire codec.
//!
//! Wire format of one record, in order: key length (varint), value
//! length (varint), one flags byte (bit 0 tombstone, bit 1 TTL present,
//! bits 2-3 compression, bits 4-7 reserved), the TTL in milliseconds
//! (varint, only when its flag is set), the key bytes, the value bytes,
//! and a little-endian CRC-32C over everything before it.

use vstd::prelude::*;
use crate::crc::{checksum, crc32c_of};
use crate::varint::{
    decode_varint, encode_varint, spec_decode_varint, spec_varint, VarintRead,
};

verus! {

/// Why decoding a record failed.
#[derive(Debug, Clone, Copy, PartialEq, Eq, Structural)]
pub enum RecordError {
    /// An I/O-level fault; in the codec itself, a varint whose
    /// continuation chain overflows 64 bits.
    Io,
    /// The stored checksum disagrees with the one computed over the
    /// decoded bytes. `expected` is the stored value.
    CrcMismatch { expected: u32, actual: u32 },
    /// The compression bits are not one of the defined tags.
    InvalidCompression(u8),
    /// The input ends in the middle of a record.
    Incomplete,
}

/// How a record's value was pre-compressed by the caller. Advisory
/// only: the codec never transforms the value bytes.
#[derive(Debug, Clone, Copy, PartialEq, Eq, Structural)]
pub enum Compression {
    Plain,
    Lz4,
    Zstd,
}

impl Compression {
    /// The two compression bits for this tag.
    pub fn to_bits(self) -> (r: u8)
        ensures
            r == self.spec_bits(),
    {
        match self {
            Compression::Plain => 0,
            Compression::Lz4 => 1,
            Compression::Zstd => 2,
        }
    }

    /// The tag named by two compression bits; bit pattern 3 is reserved
    /// and refused.
    pub fn from_bits(bits: u8) -> (r: Result<Self, RecordError>)
        ensures
            r == Self::spec_from_bits(bits),
    {
        match bits {
            0 => Ok(Compression::Plain),
            1 => Ok(Compression::Lz4),
            2 => Ok(Compression::Zstd),
            v => Err(RecordError::InvalidCompression(v)),
        }
    }

    pub open spec fn spec_bits(self) -> u8 {
        match self {
            Compression::Plain => 0,
            Compression::Lz4 => 1,
            Compression::Zstd => 2,
        }
    }

    pub open spec fn spec_from_bits(bits: u8) -> Result<Self, RecordError> {
        match bits {
            0 => Ok(Compression::Plain),
            1 => Ok(Compression::Lz4),
            2 => Ok(Compression::Zstd),
            v => Err(RecordError::InvalidCompression(v)),
        }
    }
}

/// A WAL record: one key-value operation, the unit of durability.
#[derive(Debug, Clone, PartialEq, Eq)]
pub struct Record {
    pub key: Vec<u8>,
    pub value: Vec<u8>,
    pub tombstone: bool,
    /// Time to live in milliseconds; absent means no expiry. Zero is a
    /// TTL, distinct from absence.
    pub ttl: Option<u64>,
    pub compression: Compression,
}

/// The mathematical value of a record.
#[verifier::ext_equal]
pub struct RecordModel {
    pub key: Seq<u8>,
    pub value: Seq<u8>,
    pub tombstone: bool,
    pub ttl: Option<u64>,
    pub compression: Compression,
}

impl RecordModel {
    /// The key and value lengths fit the wire format's 64-bit length
    /// fields; true of every `Record` held in memory.
    pub open spec fn wf(self) -> bool {
        &&& self.key.len() < 0x10000000000000000
        &&& self.value.len() < 0x10000000000000000
    }
}

impl View for Record {
    type V = RecordModel;

    open spec fn view(&self) -> RecordModel {
        RecordModel {
            key: self.key@,
            value: self.value@,
            tombstone: self.tombstone,
            ttl: self.ttl,
            compression: self.compression,
        }
    }
}

/// The flags byte: bit 0 tombstone, bit 1 TTL present, bits 2-3 the
/// compression tag, bits 4-7 zero.
pub open spec fn spec_flags_byte(m: RecordModel) -> u8 {
    ((if m.tombstone {
        1u8
    } else {
        0u8
    }) + (if m.ttl is Some {
        2u8
    } else {
        0u8
    }) + m.compression.spec_bits() * 4) as u8
}

/// Everything before the checksum: both length varints, the flags byte,
/// the TTL varint when present, then the key and value bytes.
pub open spec fn spec_payload(m: RecordModel) -> Seq<u8> {
    spec_varint(m.key.len() as u64) + spec_varint(m.value.len() as u64) + seq![spec_flags_byte(m)]
        + (match m.ttl {
        Some(t) => spec_varint(t),
        None => Seq::empty(),
    }) + m.key + m.value
}

/// A `u32` as four little-endian bytes.
pub open spec fn spec_le32(c: u32) -> Seq<u8> {
    seq![
        (c % 256) as u8,
        ((c / 256) % 256) as u8,
        ((c / 65536) % 256) as u8,
        ((c / 16777216) % 256) as u8,
    ]
}

/// Four little-endian bytes as a `u32`.
pub open spec fn spec_u32_le(b0: u8, b1: u8, b2: u8, b3: u8) -> u32 {
    (b0 + b1 * 256 + b2 * 65536 + b3 * 16777216) as u32
}

/// The full encoding: the payload followed by its CRC-32C.
pub open spec fn spec_encode(m: RecordModel) -> Seq<u8> {
    spec_payload(m) + spec_le32(crc32c_of(spec_payload(m)))
}

/// What decoding one record from the front of `s` yields: the record
/// and the number of bytes consumed, or the first error the parse runs
/// into. This is the reference meaning of `Record::decode`.
pub open spec fn spec_decode(s: Seq<u8>) -> Result<(RecordModel, int), RecordError> {
    if s.len() < 6 {
        Err(RecordError::Incomplete)
    } else {
        match spec_decode_varint(s, 0) {
            VarintRead::Incomplete => Err(RecordError::Incomplete),
            VarintRead::Overflow => Err(RecordError::Io),
            VarintRead::Value { v: klen, end: i1 } => match spec_decode_varint(s, i1) {
                VarintRead::Incomplete => Err(RecordError::Incomplete),
                VarintRead::Overflow => Err(RecordError::Io),
                VarintRead::Value { v: vlen, end: i2 } => {
                    if i2 >= s.len() {
                        Err(RecordError::Incomplete)
                    } else {
                        match Compression::spec_from_bits(((s[i2] / 4) % 4) as u8) {
                            Err(e) => Err(e),
                            Ok(c) => spec_decode_body(s, i2 + 1, klen, vlen, s[i2], c),
                        }
                    }
                },
            },
        }
    }
}

/// The rest of the parse once the lengths and flags are in hand: the
/// optional TTL varint, the key, the value, and the checksum.
pub open spec fn spec_decode_body(
    s: Seq<u8>,
    i3: int,
    klen: u64,
    vlen: u64,
    fb: u8,
    c: Compression,
) -> Result<(RecordModel, int), RecordError> {
    let ttl_present = (fb / 2) % 2 == 1;
    match (if ttl_present {
        spec_decode_varint(s, i3)
    } else {
        VarintRead::Value { v: 0, end: i3 }
    }) {
        VarintRead::Incomplete => Err(RecordError::Incomplete),
        VarintRead::Overflow => Err(RecordError::Io),
        VarintRead::Value { v: ttl, end: i4 } => {
            if s.len() - i4 < klen + vlen + 4 {
                Err(RecordError::Incomplete)
            } else {
                let i5 = i4 + klen + vlen;
                let stored = spec_u32_le(s[i5], s[i5 + 1], s[i5 + 2], s[i5 + 3]);
                let computed = crc32c_of(s.subrange(0, i5));
                if stored != computed {
                    Err(RecordError::CrcMismatch { expected: stored, actual: computed })
                } else {
                    Ok(
                        (
                            RecordModel {
                                key: s.subrange(i4, i4 + klen),
                                value: s.subrange(i4 + klen, i5),
                                tombstone: fb % 2 == 1,
                                ttl: if ttl_present {
                                    Some(ttl)
                                } else {
                                    None
                                },
                                compression: c,
                            },
                            i5 + 4,
                        ),
                    )
                }
            }
        },
    }
}

/// Appends every byte of `src` to `buf`.
fn append_bytes(buf: &mut Vec<u8>, src: &[u8])
    ensures
        final(buf)@ == old(buf)@ + src@,
{
    let ghost buf0 = buf@;
    let mut j: usize = 0;
    while j < src.len()
        invariant
            j <= src@.len(),
            buf@ == buf0 + src@.subrange(0, j as int),
        decreases src@.len() - j,
    {
        buf.push(*vstd::slice::slice_index_get(src, j));
        j = j + 1;
        proof {
            assert(buf@ =~= buf0 + src@.subrange(0, j as int));
        }
    }
    proof {
        assert(src@.subrange(0, src@.len() as int) =~= src@);
    }
}

impl Record {
    /// Encodes the record: payload then CRC-32C, as `spec_encode` lays
    /// it out.
    pub fn encode(&self) -> (out: Vec<u8>)
        ensures
            out@ == spec_encode(self@),
    {
        let mut buf: Vec<u8> = Vec::new();
        encode_varint(&mut buf, self.key.len() as u64);
        encode_varint(&mut buf, self.value.len() as u64);
        let mut flags: u8 = self.compression.to_bits() * 4;
        if self.tombstone {
            flags = flags + 1;
        }
        if self.ttl.is_some() {
            flags = flags + 2;
        }
        buf.push(flags);
        proof {
            assert(flags == spec_flags_byte(self@));
        }
        if let Some(t) = self.ttl {
            encode_varint(&mut buf, t);
        }
        append_bytes(&mut buf, self.key.as_slice());
        append_bytes(&mut buf, self.value.as_slice());
        proof {
            assert(buf@ =~= spec_payload(self@));
        }
        let c = checksum(buf.as_slice());
        buf.push((c % 256) as u8);
        buf.push(((c / 256) % 256) as u8);
        buf.push(((c / 65536) % 256) as u8);
        buf.push(((c / 16777216) % 256) as u8);
        proof {
            assert(buf@ =~= spec_encode(self@));
        }
        buf
    }

    /// Decodes exactly one record from the front of `data`, returning it
    /// with the number of bytes consumed. The result is exactly what
    /// `spec_decode` says for these bytes, error cases included.
    pub fn decode(data: &[u8]) -> (r: Result<(Record, usize), RecordError>)
        ensures
            match r {
                Ok(p) => {
                    &&& spec_decode(data@) matches Ok(q) && q.0 == p.0@ && q.1 == p.1 as int
                    &&& 0 < p.1 <= data@.len()
                },
                Err(e) => spec_decode(data@) == Err::<(RecordModel, int), RecordError>(e),
            },
    {
        let n = data.len();
        if n < 6 {
            return Err(RecordError::Incomplete);
        }
        let (klen, i1) = match decode_varint(data, 0) {
            Ok(p) => p,
            Err(e) => {
                return Err(e);
            },
        };
        let (vlen, i2) = match decode_varint(data, i1) {
            Ok(p) => p,
            Err(e) => {
                return Err(e);
            },
        };
        if i2 >= n {
            return Err(RecordError::Incomplete);
        }
        let fb = *vstd::slice::slice_index_get(data, i2);
        let compression = match Compression::from_bits((fb / 4) % 4) {
            Ok(c) => c,
            Err(e) => {
                return Err(e);
            },
        };
        let i3 = i2 + 1;
        let ttl_present = (fb / 2) % 2 == 1;
        let (ttl, i4): (Option<u64>, usize) = if ttl_present {
            match decode_varint(data, i3) {
                Ok(p) => (Some(p.0), p.1),
                Err(e) => {
                    return Err(e);
                },
            }
        } else {
            (None, i3)
        };
        let rem = (n - i4) as u64;
        if klen > rem {
            return Err(RecordError::Incomplete);
        }
        let rem2 = rem - klen;
        if vlen > rem2 {
            return Err(RecordError::Incomplete);
        }
        if rem2 - vlen < 4 {
            return Err(RecordError::Incomplete);
        }
        let ku = klen as usize;
        let vu = vlen as usize;
        let i5 = i4 + ku + vu;
        let key = vstd::slice::slice_to_vec(vstd::slice::slice_subrange(data, i4, i4 + ku));
        let value = vstd::slice::slice_to_vec(vstd::slice::slice_subrange(data, i4 + ku, i5));
        let b0 = *vstd::slice::slice_index_get(data, i5);
        let b1 = *vstd::slice::slice_index_get(data, i5 + 1);
        let b2 = *vstd::slice::slice_index_get(data, i5 + 2);
        let b3 = *vstd::slice::slice_index_get(data, i5 + 3);
        let stored = b0 as u32 + b1 as u32 * 256 + b2 as u32 * 65536 + b3 as u32 * 16777216;
        let computed = checksum(vstd::slice::slice_subrange(data, 0, i5));
        if stored != computed {
            return Err(RecordError::CrcMismatch { expected: stored, actual: computed });
        }
        let rec = Record { key, value, tombstone: fb % 2 == 1, ttl, compression };
        proof {
            let s = data@;
            let q = spec_decode(s)->Ok_0;
            assert(rec@ =~= q.0);
        }
        Ok((rec, i5 + 4))
    }
}

/// The length of everything before the key bytes: both length varints,
/// the flags byte, and the TTL varint when present.
pub open spec fn spec_header_len(m: RecordModel) -> int {
    spec_varint(m.key.len() as u64).len() + spec_varint(m.value.len() as u64).len() + 1 + (
    match m.ttl {
        Some(t) => spec_varint(t).len() as int,
        None => 0,
    })
}

/// How the flags byte of a well-formed record reads back.
proof fn lemma_flags_byte_facts(m: RecordModel)
    ensures
        (spec_flags_byte(m) / 4) % 4 == m.compression.spec_bits(),
        ((spec_flags_byte(m) / 2) % 2 == 1) == (m.ttl is Some),
        (spec_flags_byte(m) % 2 == 1) == m.tombstone,
{
    let tomb_bit: u8 = if m.tombstone { 1u8 } else { 0u8 };
    let ttl_bit: u8 = if m.ttl is Some { 2u8 } else { 0u8 };
    let cbits = m.compression.spec_bits();
    assert(cbits <= 2);
    assert(spec_flags_byte(m) == tomb_bit + ttl_bit + 4 * cbits);
}

/// The varint reads over an encoded record land where the encoder put
/// them, and the flags byte sits between them.
#[verifier::rlimit(100)]
proof fn lemma_roundtrip_varints(m: RecordModel, rest: Seq<u8>)
    requires
        m.wf(),
    ensures
        ({
            let s = spec_encode(m) + rest;
            let i1 = spec_varint(m.key.len() as u64).len() as int;
            let i2 = i1 + spec_varint(m.value.len() as u64).len() as int;
            &&& spec_decode_varint(s, 0) == (VarintRead::Value { v: m.key.len() as u64, end: i1 })
            &&& spec_decode_varint(s, i1) == (VarintRead::Value {
                v: m.value.len() as u64,
                end: i2,
            })
            &&& s[i2] == spec_flags_byte(m)
            &&& (m.ttl matches Some(tv) ==> spec_decode_varint(s, i2 + 1) == (VarintRead::Value {
                v: tv,
                end: spec_header_len(m),
            }))
        }),
{
    let kl = m.key.len() as u64;
    let vl = m.value.len() as u64;
    let hk = spec_varint(kl);
    let hv = spec_varint(vl);
    let fb = spec_flags_byte(m);
    let ts = match m.ttl {
        Some(t) => spec_varint(t),
        None => Seq::<u8>::empty(),
    };
    let p = spec_payload(m);
    let cb = spec_le32(crc32c_of(p));
    let e = spec_encode(m);
    let s = e + rest;
    let i1 = hk.len() as int;
    let i2 = i1 + hv.len() as int;
    let i3 = i2 + 1;

    assert(p == hk + hv + seq![fb] + ts + m.key + m.value);
    assert(e == p + cb);
    assert forall|j: int| 0 <= j < p.len() implies #[trigger] s[j] == p[j] by {
        assert(s[j] == e[j]);
        assert(e[j] == p[j]);
    }

    assert forall|j: int| 0 <= j < hk.len() implies #[trigger] s[0 + j] == hk[j] by {
        assert((hk + hv)[j] == hk[j]);
        assert((hk + hv + seq![fb])[j] == (hk + hv)[j]);
        assert((hk + hv + seq![fb] + ts)[j] == (hk + hv + seq![fb])[j]);
        assert((hk + hv + seq![fb] + ts + m.key)[j] == (hk + hv + seq![fb] + ts)[j]);
        assert(p[j] == (hk + hv + seq![fb] + ts + m.key)[j]);
    }
    crate::varint::lemma_varint_reads_at(s, 0, kl);

    assert forall|j: int| 0 <= j < hv.len() implies #[trigger] s[i1 + j] == hv[j] by {
        assert((hk + hv)[i1 + j] == hv[j]);
        assert((hk + hv + seq![fb])[i1 + j] == (hk + hv)[i1 + j]);
        assert((hk + hv + seq![fb] + ts)[i1 + j] == (hk + hv + seq![fb])[i1 + j]);
        assert((hk + hv + seq![fb] + ts + m.key)[i1 + j] == (hk + hv + seq![fb] + ts)[i1 + j]);
        assert(p[i1 + j] == (hk + hv + seq![fb] + ts + m.key)[i1 + j]);
    }
    crate::varint::lemma_varint_reads_at(s, i1, vl);

    assert(s[i2] == fb) by {
        assert((hk + hv + seq![fb])[i2] == seq![fb][0]);
        assert((hk + hv + seq![fb] + ts)[i2] == (hk + hv + seq![fb])[i2]);
        assert((hk + hv + seq![fb] + ts + m.key)[i2] == (hk + hv + seq![fb] + ts)[i2]);
        assert(p[i2] == (hk + hv + seq![fb] + ts + m.key)[i2]);
    }

    if m.ttl is Some {
        let tv = m.ttl->0;
        assert(ts == spec_varint(tv));
        assert forall|j: int| 0 <= j < ts.len() implies #[trigger] s[i3 + j] == ts[j] by {
            assert((hk + hv + seq![fb] + ts)[i3 + j] == ts[j]);
            assert((hk + hv + seq![fb] + ts + m.key)[i3 + j] == (hk + hv + seq![fb] + ts)[i3 + j]);
            assert(p[i3 + j] == (hk + hv + seq![fb] + ts + m.key)[i3 + j]);
        }
        crate::varint::lemma_varint_reads_at(s, i3, tv);
        assert(i3 + ts.len() == spec_header_len(m));
    }
}

/// The key, value, and checksum bytes of an encoded record sit at their
/// computed offsets, and the consumed prefix is exactly the payload.
#[verifier::rlimit(100)]
proof fn lemma_roundtrip_slices(m: RecordModel, rest: Seq<u8>)
    requires
        m.wf(),
    ensures
        ({
            let s = spec_encode(m) + rest;
            let p = spec_payload(m);
            let i4 = spec_header_len(m);
            let i5 = i4 + m.key.len() + m.value.len();
            &&& p.len() == i5
            &&& spec_encode(m).len() == i5 + 4
            &&& s.subrange(i4, i4 + m.key.len()) == m.key
            &&& s.subrange(i4 + m.key.len(), i5) == m.value
            &&& (forall|j: int|
                0 <= j < 4 ==> #[trigger] s[i5 + j] == spec_le32(crc32c_of(p))[j])
            &&& s.subrange(0, i5) == p
        }),
{
    let kl = m.key.len() as u64;
    let vl = m.value.len() as u64;
    let hk = spec_varint(kl);
    let hv = spec_varint(vl);
    let fb = spec_flags_byte(m);
    let ts = match m.ttl {
        Some(t) => spec_varint(t),
        None => Seq::<u8>::empty(),
    };
    let p = spec_payload(m);
    let cb = spec_le32(crc32c_of(p));
    let e = spec_encode(m);
    let s = e + rest;
    let i4 = spec_header_len(m);
    let i5 = i4 + m.key.len() + m.value.len();

    assert(p == hk + hv + seq![fb] + ts + m.key + m.value);
    assert(e == p + cb);
    assert(p.len() == i5);
    assert(e.len() == i5 + 4);
    assert forall|j: int| 0 <= j < p.len() implies #[trigger] s[j] == p[j] by {
        assert(s[j] == e[j]);
        assert(e[j] == p[j]);
    }

    assert(s.subrange(i4, i4 + m.key.len()) =~= m.key) by {
        assert forall|j: int|
            0 <= j < m.key.len() implies #[trigger] s.subrange(i4, i4 + m.key.len() as int)[j]
            == m.key[j] by {
            assert((hk + hv + seq![fb] + ts + m.key)[i4 + j] == m.key[j]);
            assert(p[i4 + j] == (hk + hv + seq![fb] + ts + m.key)[i4 + j]);
            assert(s[i4 + j] == p[i4 + j]);
        }
    }
    assert(s.subrange(i4 + m.key.len(), i5 as int) =~= m.value) by {
        assert forall|j: int|
            0 <= j < m.value.len() implies #[trigger] s.subrange(
            i4 + m.key.len() as int,
            i5 as int,
        )[j] == m.value[j] by {
            assert(p[i4 + m.key.len() + j] == m.value[j]);
            assert(s[i4 + m.key.len() + j] == p[i4 + m.key.len() + j]);
        }
    }
    assert forall|j: int| 0 <= j < 4 implies #[trigger] s[i5 + j] == cb[j] by {
        assert(e[i5 + j] == cb[j]);
        assert(s[i5 + j] == e[i5 + j]);
    }
    assert(s.subrange(0, i5 as int) =~= p) by {
        assert forall|j: int| 0 <= j < i5 implies #[trigger] s.subrange(0, i5 as int)[j]
            == p[j] by {
            assert(s[j] == p[j]);
        }
    }
}

/// Law: the codec round-trips. Decoding an input that starts with the
/// encoding of any record yields that record exactly and consumes
/// exactly the encoding's length, whatever follows it.
#[verifier::rlimit(60)]
pub proof fn lemma_record_roundtrip_at(m: RecordModel, rest: Seq<u8>)
    requires
        m.wf(),
    ensures
        spec_decode(spec_encode(m) + rest) == Ok::<(RecordModel, int), RecordError>(
            (m, spec_encode(m).len() as int),
        ),
{
    let s = spec_encode(m) + rest;
    let p = spec_payload(m);
    let c = crc32c_of(p);
    let cb = spec_le32(c);
    let fb = spec_flags_byte(m);
    let i1 = spec_varint(m.key.len() as u64).len() as int;
    let i2 = i1 + spec_varint(m.value.len() as u64).len() as int;
    let i4 = spec_header_len(m);
    let i5 = i4 + m.key.len() + m.value.len();

    lemma_flags_byte_facts(m);
    lemma_roundtrip_varints(m, rest);
    lemma_roundtrip_slices(m, rest);
    assert(s.len() >= 6);
    assert(s[i2] == fb);
    assert(Compression::spec_from_bits((fb / 4) % 4) == Ok::<Compression, RecordError>(
        m.compression,
    ));

    // The four checksum bytes read back as the checksum.
    assert(c % 256 + ((c / 256) % 256) * 256 + ((c / 65536) % 256) * 65536 + ((c / 16777216) % 256)
        * 16777216 == c) by (bit_vector);
    assert(s[i5 + 0] == cb[0] && s[i5 + 1] == cb[1] && s[i5 + 2] == cb[2] && s[i5 + 3] == cb[3]);
    assert(spec_u32_le(s[i5], s[i5 + 1], s[i5 + 2], s[i5 + 3]) == c);
    assert(crc32c_of(s.subrange(0, i5 as int)) == c);

    let body = spec_decode_body(s, i2 + 1, m.key.len() as u64, m.value.len() as u64, fb,
        m.compression);
    assert(spec_decode(s) == body);
    let parsed = RecordModel {
        key: s.subrange(i4, i4 + m.key.len()),
        value: s.subrange(i4 + m.key.len(), i5 as int),
        tombstone: fb % 2 == 1,
        ttl: m.ttl,
        compression: m.compression,
    };
    assert(parsed =~= m);
    assert(body == Ok::<(RecordModel, int), RecordError>((m, spec_encode(m).len() as int)));
}

/// Law: for every record, `decode(encode(r))` yields `r` back and
/// consumes the whole encoding.
pub proof fn lemma_record_roundtrip(m: RecordModel)
    requires
        m.wf(),
    ensures
        spec_decode(spec_encode(m)) == Ok::<(RecordModel, int), RecordError>(
            (m, spec_encode(m).len() as int),
        ),
{
    lemma_record_roundtrip_at(m, Seq::empty());
    assert(spec_encode(m) + Seq::<u8>::empty() =~= spec_encode(m));
}

/// A decoded record consumes at least its three fixed header bytes and
/// checksum, and never more than the input.
pub proof fn lemma_decode_ok_bounds(s: Seq<u8>)
    ensures
        spec_decode(s) matches Ok(p) ==> 7 <= p.1 <= s.len(),
{
    if s.len() >= 6 {
        crate::varint::lemma_read_varint_bounds(s, 0, 0, 0);
        if let VarintRead::Value { v: klen, end: i1 } = spec_decode_varint(s, 0) {
            crate::varint::lemma_read_varint_bounds(s, i1, 0, 0);
            if let VarintRead::Value { v: vlen, end: i2 } = spec_decode_varint(s, i1) {
                if i2 < s.len() {
                    crate::varint::lemma_read_varint_bounds(s, i2 + 1, 0, 0);
                }
            }
        }
    }
}

/// A record that decodes within the first `n` bytes decodes identically
/// from any input that agrees on those bytes.
#[verifier::rlimit(60)]
pub proof fn lemma_decode_agree(s: Seq<u8>, t: Seq<u8>, n: int)
    requires
        spec_decode(s) matches Ok(p) && p.1 <= n,
        n <= s.len(),
        n <= t.len(),
        forall|j: int| 0 <= j < n ==> s[j] == t[j],
    ensures
        spec_decode(t) == spec_decode(s),
{
    lemma_decode_ok_bounds(s);
    crate::varint::lemma_read_varint_bounds(s, 0, 0, 0);
    let r1 = spec_decode_varint(s, 0);
    if let VarintRead::Value { v: klen, end: i1 } = r1 {
        let r2 = spec_decode_varint(s, i1);
        crate::varint::lemma_read_varint_bounds(s, i1, 0, 0);
        if let VarintRead::Value { v: vlen, end: i2 } = r2 {
            let i3 = i2 + 1;
            let fb = s[i2];
            let ttl_present = (fb / 2) % 2 == 1;
            let r3 = if ttl_present {
                spec_decode_varint(s, i3)
            } else {
                VarintRead::Value { v: 0, end: i3 }
            };
            crate::varint::lemma_read_varint_bounds(s, i3, 0, 0);
            if let VarintRead::Value { v: ttl, end: i4 } = r3 {
                let i5 = i4 + klen + vlen;
                let consumed = i5 + 4;
                assert(spec_decode(s)->Ok_0.1 == consumed);
                crate::varint::lemma_read_varint_agree(s, t, 0, 0, 0, n);
                crate::varint::lemma_read_varint_agree(s, t, i1, 0, 0, n);
                assert(t[i2] == fb);
                if ttl_present {
                    crate::varint::lemma_read_varint_agree(s, t, i3, 0, 0, n);
                }
                assert(t.subrange(i4, i4 + klen) =~= s.subrange(i4, i4 + klen));
                assert(t.subrange(i4 + klen, i5) =~= s.subrange(i4 + klen, i5));
                assert(t.subrange(0, i5) =~= s.subrange(0, i5));
                assert(t[i5] == s[i5] && t[i5 + 1] == s[i5 + 1] && t[i5 + 2] == s[i5 + 2] && t[i5
                    + 3] == s[i5 + 3]);
                assert(spec_decode(t) == spec_decode(s));
            }
        }
    }
}

/// Law (corruption detection): altering one byte of an encoded record
/// inside its key or value region makes decoding fail with a checksum
/// mismatch, whenever the altered payload's CRC-32C differs from the
/// stored one. (That the checksum does differ for every single-byte
/// change is a property of CRC-32C itself, outside this model.)
#[verifier::rlimit(60)]
pub proof fn lemma_corruption_detected(m: RecordModel, i: int, b: u8)
    requires
        m.wf(),
        spec_header_len(m) <= i < spec_payload(m).len(),
        b != spec_encode(m)[i],
        crc32c_of(spec_encode(m).update(i, b).subrange(0, spec_payload(m).len() as int))
            != crc32c_of(spec_payload(m)),
    ensures
        spec_decode(spec_encode(m).update(i, b)) == Err::<(RecordModel, int), RecordError>(
            RecordError::CrcMismatch {
                expected: crc32c_of(spec_payload(m)),
                actual: crc32c_of(
                    spec_encode(m).update(i, b).subrange(0, spec_payload(m).len() as int),
                ),
            },
        ),
{
    let e0 = spec_encode(m);
    let e = e0 + Seq::<u8>::empty();
    assert(e =~= e0);
    let s2 = e0.update(i, b);
    let p = spec_payload(m);
    let c = crc32c_of(p);
    let cb = spec_le32(c);
    let fb = spec_flags_byte(m);
    let i1 = spec_varint(m.key.len() as u64).len() as int;
    let i2 = i1 + spec_varint(m.value.len() as u64).len() as int;
    let i4 = spec_header_len(m);
    let i5 = i4 + m.key.len() + m.value.len();

    lemma_flags_byte_facts(m);
    lemma_roundtrip_varints(m, Seq::empty());
    lemma_roundtrip_slices(m, Seq::empty());
    crate::varint::lemma_read_varint_bounds(e, 0, 0, 0);
    crate::varint::lemma_read_varint_bounds(e, i1, 0, 0);
    assert(s2.len() == e.len());
    assert(i5 == p.len() && e.len() == i5 + 4);
    assert(forall|j: int| 0 <= j < i4 ==> s2[j] == e[j]);

    crate::varint::lemma_read_varint_agree(e, s2, 0, 0, 0, i4);
    crate::varint::lemma_read_varint_agree(e, s2, i1, 0, 0, i4);
    assert(i2 + 1 <= i4);
    assert(s2[i2] == fb);
    if m.ttl is Some {
        crate::varint::lemma_read_varint_agree(e, s2, i2 + 1, 0, 0, i4);
    }
    assert(Compression::spec_from_bits((fb / 4) % 4) == Ok::<Compression, RecordError>(
        m.compression,
    ));
    assert(s2.len() >= 6);

    // The stored checksum bytes sit past the corrupted byte.
    assert(s2[i5 + 0] == cb[0] && s2[i5 + 1] == cb[1] && s2[i5 + 2] == cb[2] && s2[i5 + 3]
        == cb[3]);
    assert(c % 256 + ((c / 256) % 256) * 256 + ((c / 65536) % 256) * 65536 + ((c / 16777216) % 256)
        * 16777216 == c) by (bit_vector);
    assert(spec_u32_le(s2[i5], s2[i5 + 1], s2[i5 + 2], s2[i5 + 3]) == c);
    assert(crc32c_of(s2.subrange(0, i5 as int)) != c);

    assert(spec_decode(s2) == spec_decode_body(s2, i2 + 1, m.key.len() as u64,
        m.value.len() as u64, fb, m.compression));
}

impl Record {
    /// A PUT of `value` under `key`.
    pub fn put(key: Vec<u8>, value: Vec<u8>) -> (r: Record)
        ensures
            r@ == (RecordModel {
                key: key@,
                value: value@,
                tombstone: false,
                ttl: None,
                compression: Compression::Plain,
            }),
    {
        Record { key, value, tombstone: false, ttl: None, compression: Compression::Plain }
    }

    /// A PUT that expires `ttl_ms` milliseconds after it is applied.
    pub fn put_with_ttl(key: Vec<u8>, value: Vec<u8>, ttl_ms: u64) -> (r: Record)
        ensures
            r@ == (RecordModel {
                key: key@,
                value: value@,
                tombstone: false,
                ttl: Some(ttl_ms),
                compression: Compression::Plain,
            }),
    {
        Record { key, value, tombstone: false, ttl: Some(ttl_ms), compression: Compression::Plain }
    }

    /// A DELETE of `key`: a tombstone with an empty value.
    pub fn delete(key: Vec<u8>) -> (r: Record)
        ensures
            r@ == (RecordModel {
                key: key@,
                value: Seq::empty(),
                tombstone: true,
                ttl: None,
                compression: Compression::Plain,
            }),
    {
        Record {
            key,
            value: Vec::new(),
            tombstone: true,
            ttl: None,
            compression: Compression::Plain,
        }
    }

    /// The same record with its compression tag replaced.
    pub fn with_compression(self, compression: Compression) -> (r: Record)
        ensures
            r@ == (RecordModel { compression, ..self@ }),
    {
        Record { compression, ..self }
    }
}

} // verus!
