//! The segment layer's pure state: the single appender's position,
//! rotation at a size threshold, fsync policy decisions, and segment
//! file naming. All file handling against this state is the caller's.

use vstd::prelude::*;
use vstd::string::StringExecFns;
use crate::observe::{WalEvt, WalKind};
use crate::record::RecordError;

verus! {

/// Why a segment operation failed.
#[derive(Debug, Clone, Copy, PartialEq, Eq, Structural)]
pub enum SegmentError {
    /// A filesystem fault.
    Io,
    /// The bytes at the read position do not decode.
    Record(RecordError),
    /// `read_from` named a segment whose file does not exist.
    NotFound(u64),
}

/// A position in the log: the first byte of a record within a segment.
/// Ordered lexicographically on `(segment_id, offset)`.
#[derive(Debug, Clone, Copy, PartialEq, Eq, PartialOrd, Ord, Structural)]
pub struct Position {
    pub segment_id: u64,
    pub offset: u64,
}

/// Strict lexicographic order on positions.
pub open spec fn spec_pos_lt(a: Position, b: Position) -> bool {
    a.segment_id < b.segment_id || (a.segment_id == b.segment_id && a.offset < b.offset)
}

/// When the appender flushes to stable storage.
#[derive(Debug, Clone, Copy, PartialEq, Eq, Structural)]
pub enum FsyncPolicy {
    /// Fsync after every append.
    Always,
    /// Fsync on the first append, then at most once per this many
    /// milliseconds of wall-clock time.
    Batch(u64),
    /// Never fsync from `append`; only an explicit `sync` does.
    Os,
}

impl Default for FsyncPolicy {
    /// A five-millisecond batching window.
    fn default() -> (r: Self)
        ensures
            r == FsyncPolicy::Batch(5),
    {
        FsyncPolicy::Batch(5)
    }
}

/// Configuration of the segment layer.
#[derive(Debug, Clone)]
pub struct SegmentConfig {
    /// Soft rotation threshold in bytes. A record that would push the
    /// active segment past it goes whole into a fresh segment instead.
    pub max_segment_size: u64,
    /// Directory holding the `NNNNNN.wal` files.
    pub dir: String,
    pub fsync_policy: FsyncPolicy,
}

impl Default for SegmentConfig {
    /// 128 MiB segments under `wal`, with the default batch window.
    fn default() -> (r: Self)
        ensures
            r.max_segment_size == 134217728,
            r.dir@ == "wal"@,
            r.fsync_policy == FsyncPolicy::Batch(5),
    {
        SegmentConfig {
            max_segment_size: 134217728,
            dir: String::from_str("wal"),
            fsync_policy: FsyncPolicy::Batch(5),
        }
    }
}

/// The appender's whole mutable state: the active segment's id and how
/// many bytes it holds.
#[derive(Debug, Clone, Copy, PartialEq, Eq, Structural)]
pub struct WalState {
    pub segment_id: u64,
    pub size: u64,
}

impl WalState {
    /// The position the next append would be written at.
    pub fn current_position(self) -> (r: Position)
        ensures
            r == (Position { segment_id: self.segment_id, offset: self.size }),
    {
        Position { segment_id: self.segment_id, offset: self.size }
    }
}

/// What one append does to the appender state: whether the active
/// segment rotates first (and the roll event to emit if so), where the
/// encoded record lands, and the state afterwards.
#[derive(Debug, Clone, PartialEq, Eq)]
pub struct AppendPlan {
    /// The rotation event to emit before writing, naming the old
    /// segment and its final size; present exactly when the append
    /// rotates.
    pub roll: Option<WalEvt>,
    /// The segment file to write to; freshly created on rotation.
    pub segment_id: u64,
    /// The position returned to the caller: segment and pre-write
    /// offset.
    pub position: Position,
    /// The appender state once the bytes are written.
    pub state_after: WalState,
}

/// Plans one append of `encoded_len` bytes under threshold `max`: if
/// the bytes would push the active segment past `max`, the log rotates
/// to the next segment id and the record starts a fresh file; the
/// returned position names the segment and offset the bytes land at.
pub fn plan_append(state: WalState, encoded_len: u64, max: u64, node_id: u32) -> (p: AppendPlan)
    requires
        state.size + encoded_len <= u64::MAX,
        state.segment_id < u64::MAX,
    ensures
        state.size + encoded_len > max ==> p == (AppendPlan {
            roll: Some(
                WalEvt {
                    node: node_id,
                    seg: state.segment_id,
                    kind: WalKind::SegmentRoll { bytes: state.size },
                },
            ),
            segment_id: (state.segment_id + 1) as u64,
            position: Position { segment_id: (state.segment_id + 1) as u64, offset: 0 },
            state_after: WalState {
                segment_id: (state.segment_id + 1) as u64,
                size: encoded_len,
            },
        }),
        state.size + encoded_len <= max ==> p == (AppendPlan {
            roll: None,
            segment_id: state.segment_id,
            position: Position { segment_id: state.segment_id, offset: state.size },
            state_after: WalState {
                segment_id: state.segment_id,
                size: (state.size + encoded_len) as u64,
            },
        }),
        p.state_after == spec_plan_append(state, encoded_len, max).0,
        p.position == spec_plan_append(state, encoded_len, max).1,
{
    if state.size + encoded_len > max {
        let new_id = state.segment_id + 1;
        AppendPlan {
            roll: Some(
                WalEvt {
                    node: node_id,
                    seg: state.segment_id,
                    kind: WalKind::SegmentRoll { bytes: state.size },
                },
            ),
            segment_id: new_id,
            position: Position { segment_id: new_id, offset: 0 },
            state_after: WalState { segment_id: new_id, size: encoded_len },
        }
    } else {
        AppendPlan {
            roll: None,
            segment_id: state.segment_id,
            position: Position { segment_id: state.segment_id, offset: state.size },
            state_after: WalState { segment_id: state.segment_id, size: state.size + encoded_len },
        }
    }
}

/// Whether an append must fsync under `policy`, given the milliseconds
/// since the last fsync (`None` when none has happened yet): `Always`
/// always does, `Os` never does, and `Batch(w)` does on the first
/// append and once the window has elapsed.
pub fn fsync_due(policy: FsyncPolicy, elapsed_ms_since_last: Option<u64>) -> (r: bool)
    ensures
        r == match policy {
            FsyncPolicy::Always => true,
            FsyncPolicy::Os => false,
            FsyncPolicy::Batch(w) => elapsed_ms_since_last matches Some(e) ==> e >= w,
        },
{
    match policy {
        FsyncPolicy::Always => true,
        FsyncPolicy::Os => false,
        FsyncPolicy::Batch(w) => match elapsed_ms_since_last {
            None => true,
            Some(e) => e >= w,
        },
    }
}

/// Law: appends hand out strictly increasing positions. Whatever two
/// records follow each other, the second append's position is strictly
/// greater, lexicographically, than the first's.
pub proof fn lemma_append_positions_increase(
    state: WalState,
    n1: u64,
    n2: u64,
    max: u64,
)
    requires
        n1 >= 1,
        n2 >= 1,
        state.size + n1 <= u64::MAX,
        state.segment_id + 1 < u64::MAX,
    ensures
        ({
            let p1 = spec_plan_append(state, n1, max);
            spec_pos_lt(p1.1, spec_plan_append(p1.0, n2, max).1)
        }),
{
}

/// The character for one decimal digit.
pub open spec fn spec_digit_char(d: u64) -> char {
    if d == 0 {
        '0'
    } else if d == 1 {
        '1'
    } else if d == 2 {
        '2'
    } else if d == 3 {
        '3'
    } else if d == 4 {
        '4'
    } else if d == 5 {
        '5'
    } else if d == 6 {
        '6'
    } else if d == 7 {
        '7'
    } else if d == 8 {
        '8'
    } else {
        '9'
    }
}

/// The decimal digits of `n`, most significant first.
pub open spec fn spec_decimal(n: u64) -> Seq<char>
    decreases n,
{
    if n < 10 {
        seq![spec_digit_char(n)]
    } else {
        spec_decimal(n / 10) + seq![spec_digit_char(n % 10)]
    }
}

/// The file name of segment `id`: its decimal digits zero-padded to at
/// least six, then `.wal`.
pub open spec fn spec_segment_name(id: u64) -> Seq<char> {
    (if spec_decimal(id).len() >= 6 {
        Seq::<char>::empty()
    } else {
        Seq::new((6 - spec_decimal(id).len()) as nat, |i: int| '0')
    }) + spec_decimal(id) + seq!['.', 'w', 'a', 'l']
}

/// The digits of `ds` read back as chars, least significant first in
/// `ds`, most significant first out.
pub open spec fn spec_rev_digit_chars(ds: Seq<u64>) -> Seq<char>
    decreases ds.len(),
{
    if ds.len() == 0 {
        Seq::empty()
    } else {
        seq![spec_digit_char(ds.last())] + spec_rev_digit_chars(ds.drop_last())
    }
}

proof fn lemma_rev_digit_chars_len(ds: Seq<u64>)
    ensures
        spec_rev_digit_chars(ds).len() == ds.len(),
    decreases ds.len(),
{
    if ds.len() > 0 {
        lemma_rev_digit_chars_len(ds.drop_last());
    }
}

/// One decimal digit as a string slice.
fn digit_str(d: u64) -> (r: &'static str)
    requires
        d < 10,
    ensures
        r@ == seq![spec_digit_char(d)],
{
    proof {
        reveal_strlit("0");
        reveal_strlit("1");
        reveal_strlit("2");
        reveal_strlit("3");
        reveal_strlit("4");
        reveal_strlit("5");
        reveal_strlit("6");
        reveal_strlit("7");
        reveal_strlit("8");
        reveal_strlit("9");
    }
    match d {
        0 => "0",
        1 => "1",
        2 => "2",
        3 => "3",
        4 => "4",
        5 => "5",
        6 => "6",
        7 => "7",
        8 => "8",
        _ => "9",
    }
}

/// The file name of segment `id`, in the on-disk layout's
/// `NNNNNN.wal` shape: decimal digits zero-padded to at least six
/// characters. The caller joins it onto the log directory.
pub fn segment_path(id: u64) -> (r: String)
    ensures
        r@ == spec_segment_name(id),
{
    // The digits of `id`, least significant first.
    let mut digits: Vec<u64> = Vec::new();
    digits.push(id % 10);
    let mut v = id / 10;
    proof {
        assert(digits@.drop_last() =~= Seq::<u64>::empty());
        assert(digits@.last() == id % 10);
        assert(spec_rev_digit_chars(Seq::<u64>::empty()) == Seq::<char>::empty());
        assert(spec_rev_digit_chars(digits@) == seq![spec_digit_char(id % 10)]
            + spec_rev_digit_chars(digits@.drop_last()));
        assert(spec_rev_digit_chars(digits@) =~= seq![spec_digit_char(id % 10)]);
        if id < 10 {
            assert(spec_decimal(id) == seq![spec_digit_char(id)]);
            assert(Seq::<char>::empty() + spec_rev_digit_chars(digits@) =~= spec_decimal(id));
        } else {
            assert(spec_decimal(id) == spec_decimal(id / 10) + seq![spec_digit_char(id % 10)]);
            assert(spec_decimal(id / 10) + spec_rev_digit_chars(digits@) =~= spec_decimal(id));
        }
    }
    while v > 0
        invariant
            spec_decimal(id) == (if v == 0 {
                Seq::<char>::empty()
            } else {
                spec_decimal(v)
            }) + spec_rev_digit_chars(digits@),
            digits@.len() >= 1,
            forall|i: int| 0 <= i < digits@.len() ==> digits@[i] < 10,
        decreases v,
    {
        let ghost pre = digits@;
        digits.push(v % 10);
        proof {
            assert(digits@.drop_last() =~= pre);
            if v < 10 {
                assert(spec_decimal(v) == seq![spec_digit_char(v)]);
                assert(seq![spec_digit_char(v % 10)] + spec_rev_digit_chars(pre)
                    =~= spec_decimal(v) + spec_rev_digit_chars(pre));
            } else {
                assert(spec_decimal(v) == spec_decimal(v / 10) + seq![spec_digit_char(v % 10)]);
                assert(spec_decimal(v / 10) + (seq![spec_digit_char(v % 10)]
                    + spec_rev_digit_chars(pre)) =~= spec_decimal(v) + spec_rev_digit_chars(pre));
            }
        }
        v = v / 10;
    }
    proof {
        lemma_rev_digit_chars_len(digits@);
        assert(Seq::<char>::empty() + spec_rev_digit_chars(digits@)
            =~= spec_rev_digit_chars(digits@));
        assert(spec_decimal(id) == spec_rev_digit_chars(digits@));
    }
    let ghost all_digits = digits@;

    let mut name = String::new();
    proof {
        reveal_strlit("0");
    }
    let mut pad: usize = digits.len();
    while pad < 6
        invariant
            digits@.len() <= pad <= 6 || pad == digits@.len(),
            name@ == Seq::new((pad - digits@.len()) as nat, |i: int| '0'),
            digits@ == all_digits,
        decreases 6 - pad,
    {
        name.append("0");
        pad = pad + 1;
        proof {
            reveal_strlit("0");
            assert(name@ =~= Seq::new((pad - digits@.len()) as nat, |i: int| '0'));
        }
    }
    let ghost padded = name@;

    while digits.len() > 0
        invariant
            forall|i: int| 0 <= i < digits@.len() ==> digits@[i] < 10,
            name@ + spec_rev_digit_chars(digits@) == padded + spec_rev_digit_chars(all_digits),
        decreases digits@.len(),
    {
        let ghost pre = digits@;
        let d = digits.pop().unwrap();
        name.append(digit_str(d));
        proof {
            assert(spec_rev_digit_chars(pre) == seq![spec_digit_char(d)]
                + spec_rev_digit_chars(digits@));
            assert(name@ + spec_rev_digit_chars(digits@) =~= padded + spec_rev_digit_chars(
                all_digits,
            ));
        }
    }
    name.append(".wal");
    proof {
        reveal_strlit(".wal");
        assert(spec_rev_digit_chars(Seq::<u64>::empty()) == Seq::<char>::empty());
        lemma_rev_digit_chars_len(all_digits);
        assert(name@ =~= spec_segment_name(id));
    }
    name
}

pub open spec fn spec_is_digit(c: char) -> bool {
    48 <= c as int <= 57
}

pub open spec fn spec_digit_val(c: char) -> int {
    c as int - 48
}

/// The number the decimal digit characters `ds` spell, most significant
/// first; unbounded, so overflow can be spoken about.
pub open spec fn spec_digits_value(ds: Seq<char>) -> int
    decreases ds.len(),
{
    if ds.len() == 0 {
        0
    } else {
        spec_digits_value(ds.drop_last()) * 10 + spec_digit_val(ds.last())
    }
}

/// The segment id a file name denotes: `None` unless the name is one or
/// more decimal digits followed by `.wal`, with the digits' value
/// fitting 64 bits. Every other file in the directory is ignored.
pub open spec fn spec_parse_segment_name(s: Seq<char>) -> Option<u64> {
    if s.len() < 5 {
        None
    } else if !(s[s.len() - 4] == '.' && s[s.len() - 3] == 'w' && s[s.len() - 2] == 'a' && s[s.len()
        - 1] == 'l') {
        None
    } else if !(forall|i: int| 0 <= i < s.len() - 4 ==> spec_is_digit(s[i])) {
        None
    } else if spec_digits_value(s.subrange(0, s.len() - 4)) > u64::MAX {
        None
    } else {
        Some(spec_digits_value(s.subrange(0, s.len() - 4)) as u64)
    }
}

proof fn lemma_digits_value_nonneg(ds: Seq<char>)
    requires
        forall|i: int| 0 <= i < ds.len() ==> spec_is_digit(ds[i]),
    ensures
        spec_digits_value(ds) >= 0,
    decreases ds.len(),
{
    if ds.len() > 0 {
        lemma_digits_value_nonneg(ds.drop_last());
    }
}

proof fn lemma_digits_value_mono(ds: Seq<char>, k: int)
    requires
        0 <= k <= ds.len(),
        forall|i: int| 0 <= i < ds.len() ==> spec_is_digit(ds[i]),
    ensures
        spec_digits_value(ds) >= spec_digits_value(ds.subrange(0, k)),
    decreases ds.len() - k,
{
    if k == ds.len() {
        assert(ds.subrange(0, ds.len() as int) =~= ds);
    } else {
        lemma_digits_value_mono(ds, k + 1);
        assert(ds.subrange(0, k + 1).drop_last() =~= ds.subrange(0, k));
        assert(ds.subrange(0, k + 1).last() == ds[k]);
        assert forall|i: int| 0 <= i < ds.subrange(0, k).len() implies spec_is_digit(
            #[trigger] ds.subrange(0, k)[i],
        ) by {
            assert(ds.subrange(0, k)[i] == ds[i]);
        }
        lemma_digits_value_nonneg(ds.subrange(0, k));
    }
}

/// Parses a directory entry's name as a segment file name: one or more
/// decimal digits then `.wal`. Anything else, including a digit string
/// too large for a `u64`, is `None`.
pub fn parse_segment_file_name(name: &str) -> (r: Option<u64>)
    ensures
        r == spec_parse_segment_name(name@),
{
    let n = name.unicode_len();
    if n < 5 {
        return None;
    }
    let dot_ok = name.get_char(n - 4) == '.';
    let w_ok = name.get_char(n - 3) == 'w';
    let a_ok = name.get_char(n - 2) == 'a';
    let l_ok = name.get_char(n - 1) == 'l';
    if !(dot_ok && w_ok && a_ok && l_ok) {
        return None;
    }
    let mut value: u64 = 0;
    let mut i: usize = 0;
    while i < n - 4
        invariant
            5 <= n == name@.len(),
            name@[n - 4] == '.' && name@[n - 3] == 'w' && name@[n - 2] == 'a' && name@[n - 1]
                == 'l',
            i <= n - 4,
            forall|j: int| 0 <= j < i ==> spec_is_digit(name@[j]),
            value == spec_digits_value(name@.subrange(0, i as int)),
        decreases n - 4 - i,
    {
        let c = name.get_char(i);
        let cu = c as u32;
        if cu < 48 || cu > 57 {
            return None;
        }
        let d = (cu - 48) as u64;
        proof {
            assert(name@.subrange(0, i + 1).drop_last() =~= name@.subrange(0, i as int));
            assert(name@.subrange(0, i + 1).last() == name@[i as int]);
        }
        if value > (u64::MAX - d) / 10 {
            // The digits overflow a `u64`: the name is not a segment's.
            proof {
                let ds = name@.subrange(0, n - 4);
                if forall|j: int| 0 <= j < n - 4 ==> spec_is_digit(name@[j]) {
                    assert forall|j: int| 0 <= j < ds.len() implies spec_is_digit(
                        #[trigger] ds[j],
                    ) by {
                        assert(ds[j] == name@[j]);
                    }
                    lemma_digits_value_mono(ds, i + 1);
                    assert(ds.subrange(0, i + 1) =~= name@.subrange(0, i + 1));
                }
            }
            return None;
        }
        value = value * 10 + d;
        i = i + 1;
    }
    proof {
        assert(name@.subrange(0, n - 4) =~= name@.subrange(0, i as int));
    }
    Some(value)
}

/// The largest segment id any of these file names denotes; 0 when none
/// does. This is the segment a fresh log opens as its active one.
pub open spec fn spec_latest_segment_id(names: Seq<String>) -> u64
    decreases names.len(),
{
    if names.len() == 0 {
        0
    } else {
        let rest = spec_latest_segment_id(names.drop_last());
        match spec_parse_segment_name(names.last()@) {
            Some(id) => if id > rest {
                id
            } else {
                rest
            },
            None => rest,
        }
    }
}

/// Scans a directory listing for segment files and returns the largest
/// id found, 0 when there is none.
pub fn latest_segment_id(names: &Vec<String>) -> (r: u64)
    ensures
        r == spec_latest_segment_id(names@),
{
    let mut max_id: u64 = 0;
    let mut i: usize = 0;
    proof {
        assert(names@.subrange(0, 0) =~= Seq::<String>::empty());
    }
    while i < names.len()
        invariant
            i <= names@.len(),
            max_id == spec_latest_segment_id(names@.subrange(0, i as int)),
        decreases names@.len() - i,
    {
        let parsed = parse_segment_file_name(vec_index_string(names, i).as_str());
        match parsed {
            Some(id) => {
                if id > max_id {
                    max_id = id;
                }
            },
            None => {},
        }
        i = i + 1;
        proof {
            assert(names@.subrange(0, i as int).drop_last() =~= names@.subrange(0, i - 1));
            assert(names@.subrange(0, i as int).last() == names@[i - 1]);
        }
    }
    proof {
        assert(names@.subrange(0, names@.len() as int) =~= names@);
    }
    max_id
}

proof fn lemma_decimal_digits(n: u64)
    ensures
        forall|i: int|
            0 <= i < spec_decimal(n).len() ==> spec_is_digit(#[trigger] spec_decimal(n)[i]),
        spec_decimal(n).len() >= 1,
    decreases n,
{
    assert(spec_is_digit(spec_digit_char(n % 10)));
    assert(spec_is_digit(spec_digit_char(n)));
    if n >= 10 {
        lemma_decimal_digits(n / 10);
        assert forall|i: int| 0 <= i < spec_decimal(n).len() implies spec_is_digit(
            #[trigger] spec_decimal(n)[i],
        ) by {
            if i < spec_decimal(n / 10).len() {
                assert(spec_decimal(n)[i] == spec_decimal(n / 10)[i]);
            }
        }
    }
}

proof fn lemma_decimal_value(n: u64)
    ensures
        spec_digits_value(spec_decimal(n)) == n,
    decreases n,
{
    if n < 10 {
        assert(spec_decimal(n) == seq![spec_digit_char(n)]);
        assert(spec_decimal(n).drop_last() =~= Seq::<char>::empty());
        assert(spec_decimal(n).last() == spec_digit_char(n));
        assert(spec_digits_value(Seq::<char>::empty()) == 0);
        assert(spec_digit_val(spec_digit_char(n)) == n);
        assert(spec_digits_value(spec_decimal(n)) == spec_digits_value(
            spec_decimal(n).drop_last(),
        ) * 10 + spec_digit_val(spec_decimal(n).last()));
    } else {
        lemma_decimal_value(n / 10);
        assert(spec_decimal(n).drop_last() =~= spec_decimal(n / 10));
        assert(spec_decimal(n).last() == spec_digit_char(n % 10));
        assert(spec_digit_val(spec_digit_char(n % 10)) == n % 10);
        assert(spec_digits_value(spec_decimal(n)) == spec_digits_value(
            spec_decimal(n).drop_last(),
        ) * 10 + spec_digit_val(spec_decimal(n).last()));
        assert(n / 10 * 10 + n % 10 == n) by (nonlinear_arith);
    }
}

proof fn lemma_leading_zeros_value(pad: Seq<char>, ds: Seq<char>)
    requires
        forall|i: int| 0 <= i < pad.len() ==> pad[i] == '0',
    ensures
        spec_digits_value(pad + ds) == spec_digits_value(ds),
    decreases ds.len(),
{
    if ds.len() == 0 {
        assert(pad + ds =~= pad);
        lemma_zeros_value(pad);
    } else {
        lemma_leading_zeros_value(pad, ds.drop_last());
        assert((pad + ds).drop_last() =~= pad + ds.drop_last());
        assert((pad + ds).last() == ds.last());
    }
}

proof fn lemma_zeros_value(pad: Seq<char>)
    requires
        forall|i: int| 0 <= i < pad.len() ==> pad[i] == '0',
    ensures
        spec_digits_value(pad) == 0,
    decreases pad.len(),
{
    if pad.len() > 0 {
        lemma_zeros_value(pad.drop_last());
        assert(spec_digit_val(pad.last()) == 0);
    }
}

/// Law: segment file names round-trip. The name written for any id
/// parses back to exactly that id.
pub proof fn lemma_segment_name_parses(id: u64)
    ensures
        spec_parse_segment_name(spec_segment_name(id)) == Some(id),
{
    let dec = spec_decimal(id);
    let pad = if dec.len() >= 6 {
        Seq::<char>::empty()
    } else {
        Seq::new((6 - dec.len()) as nat, |i: int| '0')
    };
    let suffix = seq!['.', 'w', 'a', 'l'];
    let s = spec_segment_name(id);
    lemma_decimal_digits(id);
    assert(s == pad + dec + suffix);
    let nd = s.len() - 4;
    assert(nd == pad.len() + dec.len());
    assert(s[nd + 0] == suffix[0] && s[nd + 1] == suffix[1] && s[nd + 2] == suffix[2] && s[nd + 3]
        == suffix[3]) by {
        assert(s[nd + 0] == (pad + dec + suffix)[nd + 0]);
    }
    assert forall|i: int| 0 <= i < nd implies spec_is_digit(s[i]) by {
        if i < pad.len() {
            assert(s[i] == (pad + dec)[i]);
            assert(pad[i] == '0');
        } else {
            assert(s[i] == (pad + dec)[i]);
            assert((pad + dec)[i] == dec[i - pad.len()]);
        }
    }
    assert(s.subrange(0, nd) =~= pad + dec);
    lemma_decimal_value(id);
    lemma_leading_zeros_value(pad, dec);
    assert(spec_digits_value(s.subrange(0, nd)) == id);
}

/// Whether the ids run in non-decreasing order.
pub open spec fn spec_sorted(s: Seq<u64>) -> bool {
    forall|i: int, j: int| 0 <= i < j < s.len() ==> s[i] <= s[j]
}

/// Inserts `id` into a sorted list of segment ids, keeping it sorted:
/// the result is the old list with `id` slotted in at one place.
pub fn insert_sorted(ids: &mut Vec<u64>, id: u64)
    requires
        spec_sorted(old(ids)@),
    ensures
        spec_sorted(final(ids)@),
        exists|i: int| 0 <= i <= old(ids)@.len() && final(ids)@ == old(ids)@.insert(i, id),
{
    let ghost ids0 = ids@;
    let mut pos: usize = 0;
    while pos < ids.len() && *vec_index_id(ids, pos) <= id
        invariant
            ids@ == ids0,
            pos <= ids@.len(),
            forall|j: int| 0 <= j < pos ==> ids@[j] <= id,
        decreases ids@.len() - pos,
    {
        pos = pos + 1;
    }
    proof {
        if pos < ids@.len() {
            assert(ids@[pos as int] > id);
        }
    }
    ids.insert(pos, id);
    proof {
        assert forall|i: int, j: int| 0 <= i < j < ids@.len() implies ids@[i] <= ids@[j] by {
            if j < pos {
            } else if i < pos && j == pos {
            } else if i < pos && j > pos {
                assert(ids@[j] == ids0[j - 1]);
                assert(ids0[j - 1] >= ids0[pos as int]);
            } else if i == pos {
                assert(ids@[j] == ids0[j - 1]);
                assert(ids0[j - 1] >= ids0[pos as int]);
            } else {
                assert(ids@[i] == ids0[i - 1] && ids@[j] == ids0[j - 1]);
            }
        }
        assert(ids@ == ids0.insert(pos as int, id));
    }
}

/// Borrows one id of a sorted list.
fn vec_index_id(ids: &Vec<u64>, i: usize) -> (r: &u64)
    requires
        i < ids@.len(),
    ensures
        r == ids@[i as int],
{
    &ids[i]
}

/// Borrows one element of a vector of names.
fn vec_index_string(names: &Vec<String>, i: usize) -> (r: &String)
    requires
        i < names@.len(),
    ensures
        r == names@[i as int],
{
    &names[i]
}

/// The state transition and returned position of `plan_append`, as a
/// spec-level pair `(state after, position)`.
pub open spec fn spec_plan_append(state: WalState, encoded_len: u64, max: u64) -> (WalState, Position) {
    if state.size + encoded_len > max {
        (
            WalState { segment_id: (state.segment_id + 1) as u64, size: encoded_len },
            Position { segment_id: (state.segment_id + 1) as u64, offset: 0 },
        )
    } else {
        (
            WalState { segment_id: state.segment_id, size: (state.size + encoded_len) as u64 },
            Position { segment_id: state.segment_id, offset: state.size },
        )
    }
}

} // verus!
