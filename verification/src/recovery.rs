//! Recovery: replaying segment contents through the codec, stopping at
//! the first bad boundary, and reporting what to truncate. Runs once
//! per open, on bytes the caller read from disk; the caller applies the
//! one truncation this reports.

use vstd::prelude::*;
use crate::record::{
    lemma_decode_agree, lemma_decode_ok_bounds, lemma_record_roundtrip_at, spec_decode,
    spec_encode, Record, RecordModel,
};
use crate::segment::Position;

verus! {

/// What scanning one segment's bytes from the front found.
#[derive(Debug, Clone, Copy, PartialEq, Eq, Structural)]
pub struct SegmentScan {
    /// Records that decoded cleanly before the first bad boundary.
    pub records: u64,
    /// Bytes of the valid prefix: the offset just past the last record
    /// that decoded.
    pub good_prefix: u64,
    /// Whether the scan reached the end of the data without a fault.
    pub clean: bool,
}

/// The mathematical value of a scan.
pub struct ScanModel {
    pub records: int,
    pub good_prefix: int,
    pub clean: bool,
}

/// Scanning from `pos`: records decode one after another until the data
/// ends exactly (clean) or a decode fails (torn or corrupt, and the
/// good prefix ends here).
pub open spec fn spec_scan_from(s: Seq<u8>, pos: int) -> ScanModel
    decreases s.len() - pos,
{
    if pos < 0 || pos >= s.len() {
        ScanModel { records: 0, good_prefix: pos, clean: pos == s.len() }
    } else {
        match spec_decode(s.skip(pos)) {
            Ok(p) => {
                if 1 <= p.1 <= s.len() - pos {
                    let rest = spec_scan_from(s, pos + p.1);
                    ScanModel {
                        records: rest.records + 1,
                        good_prefix: rest.good_prefix,
                        clean: rest.clean,
                    }
                } else {
                    ScanModel { records: 0, good_prefix: pos, clean: false }
                }
            },
            Err(_) => ScanModel { records: 0, good_prefix: pos, clean: false },
        }
    }
}

pub open spec fn spec_scan(s: Seq<u8>) -> ScanModel {
    spec_scan_from(s, 0)
}

/// A scan's good prefix sits between its start and the end of the data,
/// reaches the end exactly when the scan is clean, and holds at least
/// seven bytes per record.
pub proof fn lemma_scan_bounds(s: Seq<u8>, pos: int)
    requires
        0 <= pos <= s.len(),
    ensures
        ({
            let m = spec_scan_from(s, pos);
            &&& pos <= m.good_prefix <= s.len()
            &&& m.clean == (m.good_prefix == s.len())
            &&& m.records >= 0
            &&& m.records * 7 <= m.good_prefix - pos
        }),
    decreases s.len() - pos,
{
    if pos < s.len() {
        lemma_decode_ok_bounds(s.skip(pos));
        if let Ok(p) = spec_decode(s.skip(pos)) {
            assert(p.1 <= s.len() - pos);
            lemma_scan_bounds(s, pos + p.1);
        }
    }
}

/// Scans one segment's bytes, counting records until the data ends or a
/// decode fails; exactly `spec_scan` of the bytes.
pub fn scan_segment(data: &[u8]) -> (r: SegmentScan)
    ensures
        ({
            let m = spec_scan(data@);
            &&& r.records == m.records
            &&& r.good_prefix == m.good_prefix
            &&& r.clean == m.clean
        }),
{
    let n = data.len();
    let mut pos: usize = 0;
    let mut records: u64 = 0;
    loop
        invariant
            pos <= n,
            n == data@.len(),
            records * 7 <= pos,
            spec_scan(data@).records == records + spec_scan_from(data@, pos as int).records,
            spec_scan(data@).good_prefix == spec_scan_from(data@, pos as int).good_prefix,
            spec_scan(data@).clean == spec_scan_from(data@, pos as int).clean,
        decreases n - pos,
    {
        if pos == n {
            return SegmentScan { records, good_prefix: pos as u64, clean: true };
        }
        let tail = vstd::slice::slice_subrange(data, pos, n);
        proof {
            assert(tail@ =~= data@.skip(pos as int));
        }
        match Record::decode(tail) {
            Ok(p) => {
                proof {
                    lemma_decode_ok_bounds(data@.skip(pos as int));
                }
                records = records + 1;
                pos = pos + p.1;
            },
            Err(_) => {
                return SegmentScan { records, good_prefix: pos as u64, clean: false };
            },
        }
    }
}

/// What reading records out of a segment's bytes from `pos` yields:
/// each record with its offset, ending cleanly where the data runs out
/// (`Incomplete` is the normal end of a tailing read), or the first
/// fault that is not a mere end of data.
pub open spec fn spec_read_records(s: Seq<u8>, pos: int) -> Result<
    Seq<(RecordModel, int)>,
    crate::record::RecordError,
>
    decreases s.len() - pos,
{
    if pos < 0 || pos >= s.len() {
        Ok(Seq::empty())
    } else {
        match spec_decode(s.skip(pos)) {
            Ok(p) => {
                if 1 <= p.1 <= s.len() - pos {
                    match spec_read_records(s, pos + p.1) {
                        Ok(rest) => Ok(seq![(p.0, pos)] + rest),
                        Err(e) => Err(e),
                    }
                } else {
                    Ok(Seq::empty())
                }
            },
            Err(crate::record::RecordError::Incomplete) => Ok(Seq::empty()),
            Err(e) => Err(e),
        }
    }
}

/// Reads every record out of `data` from offset `start`, with the
/// offset each was found at. Running out of bytes, mid-record included,
/// is the normal end of the stream; a checksum or format fault is an
/// error, as general reads must surface corruption.
pub fn read_records(data: &[u8], start: usize) -> (r: Result<
    Vec<(Record, usize)>,
    crate::record::RecordError,
>)
    requires
        start <= data@.len(),
    ensures
        match r {
            Ok(out) => spec_read_records(data@, start as int) matches Ok(q) && out@.len()
                == q.len() && (forall|i: int|
                0 <= i < q.len() ==> (#[trigger] out@[i]).0@ == q[i].0 && out@[i].1 as int
                    == q[i].1),
            Err(e) => spec_read_records(data@, start as int) == Err::<
                Seq<(RecordModel, int)>,
                crate::record::RecordError,
            >(e),
        },
{
    let n = data.len();
    let mut out: Vec<(Record, usize)> = Vec::new();
    let mut pos = start;
    loop
        invariant
            start <= pos <= n,
            n == data@.len(),
            (match spec_read_records(data@, pos as int) {
                Ok(rest) => spec_read_records(data@, start as int) matches Ok(full) && full.len()
                    == out@.len() + rest.len() && (forall|i: int|
                    0 <= i < out@.len() ==> (#[trigger] out@[i]).0@ == full[i].0 && out@[i].1 as int
                        == full[i].1) && (forall|j: int|
                    0 <= j < rest.len() ==> #[trigger] rest[j] == full[out@.len() + j]),
                Err(e) => spec_read_records(data@, start as int) == Err::<
                    Seq<(RecordModel, int)>,
                    crate::record::RecordError,
                >(e),
            }),
        decreases n - pos,
    {
        if pos == n {
            return Ok(out);
        }
        let tail = vstd::slice::slice_subrange(data, pos, n);
        proof {
            assert(tail@ =~= data@.skip(pos as int));
        }
        match Record::decode(tail) {
            Ok(p) => {
                proof {
                    lemma_decode_ok_bounds(data@.skip(pos as int));
                }
                let ghost old_pos = pos as int;
                let ghost old_out = out@;
                out.push((p.0, pos));
                pos = pos + p.1;
                proof {
                    let s = data@;
                    let dm = spec_decode(s.skip(old_pos))->Ok_0.0;
                    let rest = spec_read_records(s, old_pos);
                    let rest2 = spec_read_records(s, pos as int);
                    assert(out@ == old_out.push((p.0, (old_pos) as usize)));
                    match rest2 {
                        Ok(r2) => {
                            let rr = seq![(dm, old_pos)] + r2;
                            assert(rest == Ok::<
                                Seq<(RecordModel, int)>,
                                crate::record::RecordError,
                            >(rr));
                            if let Ok(full) = spec_read_records(s, start as int) {
                                assert forall|i: int|
                                    0 <= i < out@.len() implies (#[trigger] out@[i]).0@
                                    == full[i].0 && out@[i].1 as int == full[i].1 by {
                                    if i < old_out.len() {
                                        assert(out@[i] == old_out[i]);
                                    } else {
                                        assert(rr[0] == full[old_out.len() as int]);
                                        assert(rr[0] == (dm, old_pos));
                                        assert(out@[i] == (p.0, (old_pos) as usize));
                                    }
                                }
                                assert forall|j: int|
                                    0 <= j < r2.len() implies #[trigger] r2[j] == full[out@.len()
                                    + j] by {
                                    assert(rr[j + 1] == full[old_out.len() + (j + 1)]);
                                    assert(rr[j + 1] == r2[j]);
                                }
                            }
                        },
                        Err(_) => {},
                    }
                }
            },
            Err(crate::record::RecordError::Incomplete) => {
                return Ok(out);
            },
            Err(e) => {
                return Err(e);
            },
        }
    }
}

/// One on-disk segment as recovery sees it: its id and its bytes.
#[derive(Debug, Clone, PartialEq, Eq)]
pub struct SegmentData {
    pub id: u64,
    pub data: Vec<u8>,
}

/// The summary a recovery run reports.
#[derive(Debug, Clone, Copy, PartialEq, Eq, Structural)]
pub struct RecoveryInfo {
    /// Segments looked at, the one that stopped the run included.
    pub segments_scanned: u64,
    /// Records that decoded cleanly over all scanned segments.
    pub valid_records: u64,
    /// Whether any segment held bytes past its valid prefix.
    pub corruption_detected: bool,
    /// Bytes past the valid prefix of the segment that stopped the run.
    pub truncated_bytes: u64,
    /// The end of the last segment considered: where appends resume.
    pub last_position: Position,
}

/// The one truncation a recovery run asks for: cut the named segment's
/// file down to `new_len` bytes.
#[derive(Debug, Clone, Copy, PartialEq, Eq, Structural)]
pub struct Truncation {
    pub segment_id: u64,
    pub new_len: u64,
}

/// The bytes all the segments hold together.
pub open spec fn spec_total_len(segs: Seq<SegmentData>) -> int
    decreases segs.len(),
{
    if segs.len() == 0 {
        0
    } else {
        spec_total_len(segs.drop_last()) + segs.last().data@.len()
    }
}

proof fn lemma_total_len_nonneg(segs: Seq<SegmentData>)
    ensures
        spec_total_len(segs) >= 0,
    decreases segs.len(),
{
    if segs.len() > 0 {
        lemma_total_len_nonneg(segs.drop_last());
    }
}

proof fn lemma_total_len_prefix(segs: Seq<SegmentData>, k: int)
    requires
        0 <= k <= segs.len(),
    ensures
        spec_total_len(segs.subrange(0, k)) <= spec_total_len(segs),
    decreases segs.len() - k,
{
    if k == segs.len() {
        assert(segs.subrange(0, segs.len() as int) =~= segs);
    } else {
        lemma_total_len_prefix(segs, k + 1);
        assert(segs.subrange(0, k + 1).drop_last() =~= segs.subrange(0, k));
        assert(segs.subrange(0, k + 1).last() == segs[k]);
    }
}

/// The mathematical value of a recovery run.
pub struct RecoveryModel {
    pub scanned: int,
    pub valid: int,
    pub corrupt: bool,
    pub truncated: int,
    /// The last segment considered and its retained size, if any
    /// segment was.
    pub last: Option<(u64, int)>,
}

/// Recovery from segment `k` on, the segments sorted by id: scan each
/// in turn; a clean segment adds its records and the run moves on; a
/// segment with a bad boundary ends the run, everything past its good
/// prefix to be truncated.
pub open spec fn spec_recover_from(segs: Seq<SegmentData>, k: int) -> RecoveryModel
    decreases segs.len() - k,
{
    if k < 0 || k >= segs.len() {
        RecoveryModel { scanned: 0, valid: 0, corrupt: false, truncated: 0, last: None }
    } else {
        let sc = spec_scan(segs[k].data@);
        if sc.clean {
            let rest = spec_recover_from(segs, k + 1);
            RecoveryModel {
                scanned: rest.scanned + 1,
                valid: rest.valid + sc.records,
                corrupt: rest.corrupt,
                truncated: rest.truncated,
                last: if rest.last is Some {
                    rest.last
                } else {
                    Some((segs[k].id, sc.good_prefix))
                },
            }
        } else {
            RecoveryModel {
                scanned: 1,
                valid: sc.records,
                corrupt: true,
                truncated: segs[k].data@.len() - sc.good_prefix,
                last: Some((segs[k].id, sc.good_prefix)),
            }
        }
    }
}

pub open spec fn spec_recover(segs: Seq<SegmentData>) -> RecoveryModel {
    spec_recover_from(segs, 0)
}

/// Replays the segments, in the order given (sorted by id ascending),
/// and reports what a reopening log must know: how much was valid,
/// whether a tail must go, and where appends resume. The segment that
/// stops the run, if any, comes back as the truncation to apply; the
/// segments after it are not considered.
pub fn recover_segments(segments: &Vec<SegmentData>) -> (r: (RecoveryInfo, Option<Truncation>))
    requires
        spec_total_len(segments@) <= u64::MAX,
    ensures
        ({
            let m = spec_recover(segments@);
            &&& r.0.segments_scanned == m.scanned
            &&& r.0.valid_records == m.valid
            &&& r.0.corruption_detected == m.corrupt
            &&& r.0.truncated_bytes == m.truncated
            &&& (m.last matches Some(lp) ==> r.0.last_position == (Position {
                segment_id: lp.0,
                offset: lp.1 as u64,
            }))
            &&& (m.last is None ==> r.0.last_position == (Position { segment_id: 0, offset: 0 }))
            &&& (m.corrupt ==> (m.last matches Some(lp) && r.1 == Some(
                Truncation { segment_id: lp.0, new_len: lp.1 as u64 },
            )))
            &&& (!m.corrupt ==> r.1 is None)
        }),
{
    let ghost gsegs = segments@;
    let ghost m = spec_recover(gsegs);
    let n = segments.len();
    let mut k: usize = 0;
    let mut valid: u64 = 0;
    let mut last: Option<(u64, u64)> = None;
    proof {
        assert(gsegs.subrange(0, 0) =~= Seq::<SegmentData>::empty());
        lemma_total_len_nonneg(gsegs.subrange(0, 0));
    }
    while k < n
        invariant
            gsegs == segments@,
            n == gsegs.len(),
            k <= n,
            m == spec_recover(gsegs),
            spec_total_len(gsegs) <= u64::MAX,
            m.scanned == k + spec_recover_from(gsegs, k as int).scanned,
            m.valid == valid + spec_recover_from(gsegs, k as int).valid,
            m.corrupt == spec_recover_from(gsegs, k as int).corrupt,
            m.truncated == spec_recover_from(gsegs, k as int).truncated,
            (spec_recover_from(gsegs, k as int).last matches Some(lp) ==> m.last == Some(lp)),
            (spec_recover_from(gsegs, k as int).last is None ==> (match last {
                Some(acc) => m.last == Some((acc.0, acc.1 as int)),
                None => m.last is None,
            })),
            valid * 7 <= spec_total_len(gsegs.subrange(0, k as int)),
        decreases n - k,
    {
        let ghost rest = spec_recover_from(gsegs, k as int);
        let seg = vec_index_segment(segments, k);
        let sc = scan_segment(seg.data.as_slice());
        let ghost scm = spec_scan(seg.data@);
        proof {
            lemma_scan_bounds(seg.data@, 0);
            lemma_total_len_prefix(gsegs, k + 1);
            assert(gsegs.subrange(0, k + 1).drop_last() =~= gsegs.subrange(0, k as int));
            assert(gsegs.subrange(0, k + 1).last() == gsegs[k as int]);
            lemma_total_len_nonneg(gsegs.subrange(0, k as int));
            assert(spec_total_len(gsegs.subrange(0, k + 1)) == spec_total_len(
                gsegs.subrange(0, k as int),
            ) + seg.data@.len());
        }
        if sc.clean {
            proof {
                let rest2 = spec_recover_from(gsegs, k + 1);
                assert(rest.scanned == rest2.scanned + 1);
                assert(rest.valid == rest2.valid + scm.records);
                assert(rest.corrupt == rest2.corrupt);
                assert(rest.truncated == rest2.truncated);
                assert(rest.last == (if rest2.last is Some {
                    rest2.last
                } else {
                    Some((seg.id, scm.good_prefix))
                }));
                assert((valid + sc.records) * 7 <= spec_total_len(gsegs.subrange(0, k + 1)));
            }
            valid = valid + sc.records;
            last = Some((seg.id, sc.good_prefix));
            k = k + 1;
        } else {
            proof {
                assert(rest.scanned == 1 && rest.corrupt && rest.valid == scm.records
                    && rest.truncated == seg.data@.len() - scm.good_prefix && rest.last == Some(
                    (seg.id, scm.good_prefix),
                ));
                assert((valid + sc.records) * 7 <= spec_total_len(gsegs.subrange(0, k + 1)));
            }
            let scanned = (k + 1) as u64;
            valid = valid + sc.records;
            let truncated = seg.data.len() as u64 - sc.good_prefix;
            let info = RecoveryInfo {
                segments_scanned: scanned,
                valid_records: valid,
                corruption_detected: true,
                truncated_bytes: truncated,
                last_position: Position { segment_id: seg.id, offset: sc.good_prefix },
            };
            return (
                info,
                Some(Truncation { segment_id: seg.id, new_len: sc.good_prefix }),
            );
        }
    }
    let info = RecoveryInfo {
        segments_scanned: k as u64,
        valid_records: valid,
        corruption_detected: false,
        truncated_bytes: 0,
        last_position: match last {
            Some(acc) => Position { segment_id: acc.0, offset: acc.1 },
            None => Position { segment_id: 0, offset: 0 },
        },
    };
    (info, None)
}

/// Borrows one segment of the list.
fn vec_index_segment(segments: &Vec<SegmentData>, k: usize) -> (r: &SegmentData)
    requires
        k < segments@.len(),
    ensures
        r == segments@[k as int],
{
    &segments[k]
}

/// A scan does not care what sits before its starting point: scanning
/// `pre + s` from past `pre` is the scan of `s`, its good prefix moved
/// by `pre`'s length.
proof fn lemma_scan_shift_from(pre: Seq<u8>, s: Seq<u8>, pos: int)
    requires
        0 <= pos <= s.len(),
    ensures
        ({
            let a = spec_scan_from(pre + s, pre.len() + pos);
            let b = spec_scan_from(s, pos);
            &&& a.records == b.records
            &&& a.good_prefix == pre.len() + b.good_prefix
            &&& a.clean == b.clean
        }),
    decreases s.len() - pos,
{
    let t = pre + s;
    if pos < s.len() {
        assert(t.skip(pre.len() + pos) =~= s.skip(pos));
        if let Ok(p) = spec_decode(s.skip(pos)) {
            lemma_decode_ok_bounds(s.skip(pos));
            lemma_scan_shift_from(pre, s, pos + p.1);
        }
    }
}

/// The concatenation of whole encoded records, front first.
pub open spec fn spec_encode_all(rs: Seq<RecordModel>) -> Seq<u8>
    decreases rs.len(),
{
    if rs.len() == 0 {
        Seq::empty()
    } else {
        spec_encode(rs.first()) + spec_encode_all(rs.drop_first())
    }
}

/// Scanning the encodings of `rs` followed by anything finds every one
/// of the records, then carries on into the tail: the count, good
/// prefix, and cleanliness are the tail's scan shifted past the
/// records.
pub proof fn lemma_scan_encoded(rs: Seq<RecordModel>, tail: Seq<u8>)
    requires
        forall|i: int| 0 <= i < rs.len() ==> (#[trigger] rs[i]).wf(),
    ensures
        ({
            let s = spec_encode_all(rs) + tail;
            let st = spec_scan(tail);
            &&& spec_scan(s).records == rs.len() + st.records
            &&& spec_scan(s).good_prefix == spec_encode_all(rs).len() + st.good_prefix
            &&& spec_scan(s).clean == st.clean
        }),
    decreases rs.len(),
{
    if rs.len() == 0 {
        assert(spec_encode_all(rs) + tail =~= tail);
    } else {
        let r0 = rs.first();
        let rest = rs.drop_first();
        let e0 = spec_encode(r0);
        let s = spec_encode_all(rs) + tail;
        let s1 = spec_encode_all(rest) + tail;
        assert(spec_encode_all(rs) == e0 + spec_encode_all(rest));
        assert(s =~= e0 + s1);
        assert(rs[0].wf());
        lemma_record_roundtrip_at(r0, s1);
        assert(s.skip(0) =~= s);
        assert(spec_decode(s.skip(0)) == Ok::<(RecordModel, int), crate::record::RecordError>(
            (r0, e0.len() as int),
        ));
        lemma_decode_ok_bounds(s.skip(0));
        lemma_scan_shift_from(e0, s1, 0);
        assert forall|i: int| 0 <= i < rest.len() implies (#[trigger] rest[i]).wf() by {
            assert(rest[i] == rs[i + 1]);
        }
        lemma_scan_encoded(rest, tail);
        assert(spec_scan_from(s, 0 + e0.len() as int).records == spec_scan(s1).records);
    }
}

proof fn lemma_read_records_shift(pre: Seq<u8>, s: Seq<u8>, pos: int)
    requires
        0 <= pos <= s.len(),
    ensures
        match spec_read_records(s, pos) {
            Ok(b) => spec_read_records(pre + s, pre.len() + pos) matches Ok(a) && a.len()
                == b.len() && (forall|i: int|
                0 <= i < b.len() ==> (#[trigger] a[i]).0 == b[i].0 && a[i].1 == pre.len()
                    + b[i].1),
            Err(e) => spec_read_records(pre + s, pre.len() + pos) == Err::<
                Seq<(RecordModel, int)>,
                crate::record::RecordError,
            >(e),
        },
    decreases s.len() - pos,
{
    let t = pre + s;
    if pos < s.len() {
        assert(t.skip(pre.len() + pos) =~= s.skip(pos));
        match spec_decode(s.skip(pos)) {
            Ok(p) => {
                lemma_decode_ok_bounds(s.skip(pos));
                lemma_read_records_shift(pre, s, pos + p.1);
                if let Ok(b2) = spec_read_records(s, pos + p.1) {
                    let b = seq![(p.0, pos)] + b2;
                    let a2 = spec_read_records(t, pre.len() + pos + p.1)->Ok_0;
                    let a = seq![(p.0, pre.len() + pos)] + a2;
                    assert forall|i: int|
                        0 <= i < b.len() implies (#[trigger] a[i]).0 == b[i].0 && a[i].1
                        == pre.len() + b[i].1 by {
                        if i > 0 {
                            assert(a[i] == a2[i - 1] && b[i] == b2[i - 1]);
                        }
                    }
                }
            },
            Err(_) => {},
        }
    }
}

/// Law (log round-trip): reading back a segment that holds a run of
/// encoded records yields exactly those records, in order, each at the
/// offset where its encoding starts.
pub proof fn lemma_read_records_roundtrip(rs: Seq<RecordModel>)
    requires
        forall|i: int| 0 <= i < rs.len() ==> (#[trigger] rs[i]).wf(),
    ensures
        spec_read_records(spec_encode_all(rs), 0) matches Ok(q) && q.len() == rs.len() && (forall|
            i: int,
        |
            0 <= i < rs.len() ==> (#[trigger] q[i]).0 == rs[i]),
    decreases rs.len(),
{
    if rs.len() > 0 {
        let r0 = rs.first();
        let rest = rs.drop_first();
        let e0 = spec_encode(r0);
        let s = spec_encode_all(rs);
        let s1 = spec_encode_all(rest);
        assert(s == e0 + s1);
        assert(rs[0].wf());
        lemma_record_roundtrip_at(r0, s1);
        assert(s.skip(0) =~= s);
        lemma_decode_ok_bounds(s.skip(0));
        assert forall|i: int| 0 <= i < rest.len() implies (#[trigger] rest[i]).wf() by {
            assert(rest[i] == rs[i + 1]);
        }
        lemma_read_records_roundtrip(rest);
        lemma_read_records_shift(e0, s1, 0);
        let q1 = spec_read_records(s1, 0)->Ok_0;
        let qs = spec_read_records(s, e0.len() as int)->Ok_0;
        let q = seq![(r0, 0int)] + qs;
        assert(spec_read_records(s, 0) == Ok::<
            Seq<(RecordModel, int)>,
            crate::record::RecordError,
        >(q));
        assert forall|i: int| 0 <= i < rs.len() implies (#[trigger] q[i]).0 == rs[i] by {
            if i > 0 {
                assert(q[i] == qs[i - 1]);
                assert(qs[i - 1].0 == q1[i - 1].0);
                assert(q1[i - 1].0 == rest[i - 1]);
                assert(rest[i - 1] == rs[i]);
            }
        }
    }
}

/// Law (clean reopen): a log whose segments each hold exactly a run of
/// encoded records reopens with every record counted, no corruption
/// reported, and nothing truncated; appends resume at the end of the
/// last segment.
pub proof fn lemma_recover_clean_log(segs: Seq<SegmentData>, rss: Seq<Seq<RecordModel>>)
    requires
        segs.len() == rss.len(),
        forall|i: int| 0 <= i < segs.len() ==> (#[trigger] segs[i].data@) == spec_encode_all(
            rss[i],
        ),
        forall|i: int, j: int|
            0 <= i < rss.len() && 0 <= j < rss[i].len() ==> (#[trigger] rss[i][j]).wf(),
    ensures
        spec_recover(segs).valid == spec_count_records(rss),
        !spec_recover(segs).corrupt,
        spec_recover(segs).truncated == 0,
        spec_recover(segs).scanned == segs.len(),
        segs.len() > 0 ==> spec_recover(segs).last == Some(
            (segs.last().id, segs.last().data@.len() as int),
        ),
{
    lemma_recover_clean_log_from(segs, rss, 0);
    assert(rss.skip(0) =~= rss);
}

/// The records in a run of segments, all together.
pub open spec fn spec_count_records(rss: Seq<Seq<RecordModel>>) -> int
    decreases rss.len(),
{
    if rss.len() == 0 {
        0
    } else {
        rss.first().len() + spec_count_records(rss.drop_first())
    }
}

proof fn lemma_recover_clean_log_from(segs: Seq<SegmentData>, rss: Seq<Seq<RecordModel>>, k: int)
    requires
        0 <= k <= segs.len(),
        segs.len() == rss.len(),
        forall|i: int| 0 <= i < segs.len() ==> (#[trigger] segs[i].data@) == spec_encode_all(
            rss[i],
        ),
        forall|i: int, j: int|
            0 <= i < rss.len() && 0 <= j < rss[i].len() ==> (#[trigger] rss[i][j]).wf(),
    ensures
        ({
            let m = spec_recover_from(segs, k);
            &&& m.valid == spec_count_records(rss.skip(k))
            &&& !m.corrupt
            &&& m.truncated == 0
            &&& m.scanned == segs.len() - k
            &&& (k < segs.len() ==> m.last == Some(
                (segs.last().id, segs.last().data@.len() as int),
            ))
        }),
    decreases segs.len() - k,
{
    if k < segs.len() {
        let d = segs[k].data@;
        assert(d == spec_encode_all(rss[k]));
        assert forall|j: int| 0 <= j < rss[k].len() implies (#[trigger] rss[k][j]).wf() by {}
        lemma_scan_encoded(rss[k], Seq::empty());
        assert(spec_encode_all(rss[k]) + Seq::<u8>::empty() =~= d);
        assert(spec_scan(d).records == rss[k].len() && spec_scan(d).clean && spec_scan(
            d,
        ).good_prefix == d.len());
        lemma_recover_clean_log_from(segs, rss, k + 1);
        assert(rss.skip(k).first() == rss[k]);
        assert(rss.skip(k).drop_first() =~= rss.skip(k + 1));
        assert(spec_count_records(rss.skip(k)) == rss[k].len() + spec_count_records(
            rss.skip(k + 1),
        ));
        if k + 1 == segs.len() {
            assert(segs.last() == segs[k]);
        }
    } else {
        assert(rss.skip(k) =~= Seq::<Seq<RecordModel>>::empty());
    }
}

/// Law (torn tail): a segment holding a run of encoded records followed
/// by trailing bytes that do not decode reopens with every record
/// counted, corruption reported, and exactly the trailing bytes
/// truncated; appends resume at the end of the valid prefix.
pub proof fn lemma_recover_torn_tail(seg: SegmentData, rs: Seq<RecordModel>, garbage: Seq<u8>)
    requires
        seg.data@ == spec_encode_all(rs) + garbage,
        garbage.len() > 0,
        spec_decode(garbage) is Err,
        forall|i: int| 0 <= i < rs.len() ==> (#[trigger] rs[i]).wf(),
    ensures
        ({
            let m = spec_recover(seq![seg]);
            &&& m.valid == rs.len()
            &&& m.corrupt
            &&& m.truncated == garbage.len()
            &&& m.scanned == 1
            &&& m.last == Some((seg.id, spec_encode_all(rs).len() as int))
        }),
{
    lemma_scan_encoded(rs, garbage);
    assert(garbage.skip(0) =~= garbage);
    assert(spec_scan(garbage).records == 0 && !spec_scan(garbage).clean && spec_scan(
        garbage,
    ).good_prefix == 0);
    let segs = seq![seg];
    assert(segs[0] == seg);
    let sc = spec_scan(seg.data@);
    assert(sc.records == rs.len() && !sc.clean && sc.good_prefix == spec_encode_all(rs).len());
}

/// Truncating a scanned segment to its good prefix leaves a segment
/// that scans clean with the same records.
proof fn lemma_scan_truncate_from(s: Seq<u8>, pos: int)
    requires
        0 <= pos <= s.len(),
        pos <= spec_scan_from(s, pos).good_prefix,
    ensures
        ({
            let m = spec_scan_from(s, pos);
            let t = s.subrange(0, m.good_prefix);
            let mt = spec_scan_from(t, pos);
            &&& mt.records == m.records
            &&& mt.good_prefix == m.good_prefix
            &&& mt.clean
        }),
    decreases s.len() - pos,
{
    let m = spec_scan_from(s, pos);
    let t = s.subrange(0, m.good_prefix);
    lemma_scan_bounds(s, pos);
    if pos == s.len() {
    } else {
        match spec_decode(s.skip(pos)) {
            Ok(p) => {
                lemma_decode_ok_bounds(s.skip(pos));
                lemma_scan_bounds(s, pos + p.1);
                assert(spec_scan_from(s, pos + p.1).good_prefix == m.good_prefix);
                assert(pos + p.1 <= m.good_prefix);
                lemma_scan_truncate_from(s, pos + p.1);
                // The record decodes the same from the truncated bytes.
                assert forall|j: int| 0 <= j < m.good_prefix - pos implies #[trigger] t.skip(
                    pos,
                )[j] == s.skip(pos)[j] by {
                    assert(t.skip(pos)[j] == t[pos + j]);
                    assert(t[pos + j] == s[pos + j]);
                }
                lemma_decode_agree(s.skip(pos), t.skip(pos), p.1);
            },
            Err(_) => {
                assert(m.good_prefix == pos);
                assert(t.len() == pos);
            },
        }
    }
}

/// Law (idempotent recovery): applying the truncation one recovery run
/// asks for, when the run stopped in the last segment or found nothing
/// wrong, leaves a log whose next recovery reports no corruption,
/// truncates nothing, and counts the same records at the same resume
/// position. (A run that stops before the last segment leaves the later
/// segments unexamined, and a second run may still find fault there.)
pub proof fn lemma_recovery_idempotent(segs: Seq<SegmentData>, segs2: Seq<SegmentData>)
    requires
        spec_recover(segs).corrupt ==> spec_recover(segs).scanned == segs.len(),
        segs2.len() == segs.len(),
        forall|i: int| 0 <= i < segs.len() ==> (#[trigger] segs2[i].id) == segs[i].id,
        forall|i: int|
            0 <= i < segs.len() ==> (#[trigger] segs2[i].data@) == (if spec_recover(segs).corrupt
                && i == segs.len() - 1 {
                segs[i].data@.subrange(0, spec_scan(segs[i].data@).good_prefix)
            } else {
                segs[i].data@
            }),
    ensures
        !spec_recover(segs2).corrupt,
        spec_recover(segs2).valid == spec_recover(segs).valid,
        spec_recover(segs2).truncated == 0,
        spec_recover(segs2).scanned == segs.len(),
        spec_recover(segs2).last == spec_recover(segs).last,
{
    if spec_recover(segs).corrupt {
        lemma_scanned_prefix_clean(segs, 0);
    } else {
        lemma_recover_all_clean(segs, 0);
    }
    lemma_recovery_idempotent_from(segs, segs2, 0);
}

/// In a run that reached the last segment, every earlier segment
/// scanned clean.
proof fn lemma_scanned_prefix_clean(segs: Seq<SegmentData>, k: int)
    requires
        0 <= k <= segs.len(),
        spec_recover_from(segs, k).scanned == segs.len() - k,
    ensures
        forall|i: int|
            k <= i < segs.len() - 1 ==> (#[trigger] spec_scan(segs[i].data@)).clean,
    decreases segs.len() - k,
{
    if k < segs.len() {
        let sc = spec_scan(segs[k].data@);
        if sc.clean {
            lemma_recover_scanned_bound(segs, k + 1);
            lemma_scanned_prefix_clean(segs, k + 1);
        } else {
            assert(spec_recover_from(segs, k).scanned == 1);
        }
    }
}

/// A run never scans more segments than there are.
proof fn lemma_recover_scanned_bound(segs: Seq<SegmentData>, k: int)
    requires
        0 <= k <= segs.len(),
    ensures
        spec_recover_from(segs, k).scanned <= segs.len() - k,
    decreases segs.len() - k,
{
    if k < segs.len() {
        lemma_recover_scanned_bound(segs, k + 1);
    }
}

/// In a run that found no corruption, every segment scanned clean.
proof fn lemma_recover_all_clean(segs: Seq<SegmentData>, k: int)
    requires
        0 <= k <= segs.len(),
        !spec_recover_from(segs, k).corrupt,
    ensures
        forall|i: int| k <= i < segs.len() ==> (#[trigger] spec_scan(segs[i].data@)).clean,
    decreases segs.len() - k,
{
    if k < segs.len() {
        lemma_recover_all_clean(segs, k + 1);
    }
}

proof fn lemma_recovery_idempotent_from(segs: Seq<SegmentData>, segs2: Seq<SegmentData>, k: int)
    requires
        0 <= k <= segs.len(),
        spec_recover(segs).corrupt ==> spec_recover(segs).scanned == segs.len(),
        forall|i: int|
            0 <= i < segs.len() - 1 ==> (#[trigger] spec_scan(segs[i].data@)).clean,
        !spec_recover(segs).corrupt && segs.len() > 0 ==> spec_scan(
            segs[segs.len() - 1].data@,
        ).clean,
        segs2.len() == segs.len(),
        forall|i: int| 0 <= i < segs.len() ==> (#[trigger] segs2[i].id) == segs[i].id,
        forall|i: int|
            0 <= i < segs.len() ==> (#[trigger] segs2[i].data@) == (if spec_recover(segs).corrupt
                && i == segs.len() - 1 {
                segs[i].data@.subrange(0, spec_scan(segs[i].data@).good_prefix)
            } else {
                segs[i].data@
            }),
    ensures
        ({
            let a = spec_recover_from(segs, k);
            let b = spec_recover_from(segs2, k);
            &&& !b.corrupt
            &&& b.valid == a.valid
            &&& b.truncated == 0
            &&& b.scanned == segs.len() - k
            &&& b.last == a.last
        }),
    decreases segs.len() - k,
{
    if k < segs.len() {
        let d = segs[k].data@;
        let sc = spec_scan(d);
        lemma_scan_bounds(d, 0);
        if k == segs.len() - 1 && spec_recover(segs).corrupt {
            // The last segment: either already clean, or truncated to
            // its good prefix, which scans clean with the same count.
            if sc.clean {
                assert(segs2[k].data@ == d.subrange(0, sc.good_prefix));
                assert(d.subrange(0, sc.good_prefix) =~= d);
                lemma_recovery_idempotent_from(segs, segs2, k + 1);
            } else {
                lemma_scan_truncate_from(d, 0);
                lemma_recovery_idempotent_from(segs, segs2, k + 1);
                let t = segs2[k].data@;
                assert(spec_scan(t).clean && spec_scan(t).records == sc.records && spec_scan(
                    t,
                ).good_prefix == sc.good_prefix);
            }
        } else {
            assert(spec_scan(segs[k].data@).clean);
            assert(segs2[k].data@ == d);
            lemma_recovery_idempotent_from(segs, segs2, k + 1);
        }
    }
}

} // verus!
