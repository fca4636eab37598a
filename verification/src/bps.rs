//! The BPS format: the header `BPS1`, the source, target and metadata sizes
//! as variable-length integers, the metadata, the records, then three
//! little-endian CRC-32s: of the source, of the target, and of the patch
//! before this last one.
//!
//! A record starts with a variable-length integer: its low two bits are the
//! action and the rest is the length minus one. The target is built by
//! appending the bytes of each record in turn.
use vstd::prelude::*;
use vstd::utf8::{decode_utf8, valid_utf8};

use crate::bytes::{inline_bytes_contents, read_u32_le, u32_le, InlineBytes};
use crate::varint::{lemma_uvar_advances, read_uvar, uvar_at};
use crate::{crc32, crc32_checksum, eof_error, error_matches, outcome_matches, Error, Failure, Outcome};

verus! {

/// The bytes `BPS1` that open a BPS file.
pub open spec fn bps_header() -> Seq<u8> {
    seq![0x42u8, 0x50u8, 0x53u8, 0x31u8]
}

/// The signed number that the unsigned number `raw` encodes: its low bit is
/// the sign and the rest is the magnitude.
pub open spec fn signed_of(raw: int) -> int {
    if raw % 2 == 1 {
        -(raw / 2)
    } else {
        raw / 2
    }
}

/// The signed number encoded at `pos`, and the position after it.
pub open spec fn ivar_at(s: Seq<u8>, pos: int) -> Result<(int, int), Failure> {
    match uvar_at(s, pos) {
        Ok((raw, end)) => Ok((signed_of(raw), end)),
        Err(f) => Err(f),
    }
}

/// Reads the signed number that starts at `pos`: the number and the
/// position after it.
pub fn read_ivar(data: &[u8], pos: usize) -> (r: Result<(i128, usize), Error>)
    ensures
        match ivar_at(data@, pos as int) {
            Ok((v, end)) => r matches Ok((x, e)) && x == v && e == end,
            Err(f) => r matches Err(e) && error_matches(e, f),
        },
{
    let (raw, end) = match read_uvar(data, pos) {
        Ok(v) => v,
        Err(e) => {
            return Err(e);
        },
    };
    let bit: u128 = raw & 0x1;
    let half: u128 = raw >> 1;
    assert(bit == raw % 2) by (bit_vector)
        requires
            bit == raw & 0x1,
    ;
    assert(half == raw / 2) by (bit_vector)
        requires
            half == raw >> 1,
    ;
    let magnitude: i128 = half as i128;
    if bit != 0 {
        Ok((-magnitude, end))
    } else {
        Ok((magnitude, end))
    }
}

/// A BPS record
#[derive(Clone, PartialEq, Eq, Debug)]
pub enum Record {
    /// Copy directly from the source file at the current outputOffset
    SourceRead(usize),
    /// Copy directly from the patch file
    TargetRead(InlineBytes),
    /// Copy from the source file at the current sourceRelativeOffset+offset
    SourceCopy { length: usize, offset: i64 },
    /// Copy from the target file at the current targetRelativeOffset+offset
    TargetCopy { length: usize, offset: i64 },
}

/// The model of a [`Record`].
pub enum RecordModel {
    SourceRead(usize),
    TargetRead(Seq<u8>),
    SourceCopy { length: usize, offset: i64 },
    TargetCopy { length: usize, offset: i64 },
}

impl RecordModel {
    /// The number of bytes the record appends to the target.
    pub open spec fn len(self) -> int {
        match self {
            RecordModel::SourceRead(length) => length as int,
            RecordModel::TargetRead(data) => data.len() as int,
            RecordModel::SourceCopy { length, .. } => length as int,
            RecordModel::TargetCopy { length, .. } => length as int,
        }
    }
}

impl View for Record {
    type V = RecordModel;

    open spec fn view(&self) -> RecordModel {
        match self {
            Record::SourceRead(length) => RecordModel::SourceRead(*length),
            Record::TargetRead(data) => RecordModel::TargetRead(inline_bytes_contents(*data)),
            Record::SourceCopy { length, offset } => RecordModel::SourceCopy {
                length: *length,
                offset: *offset,
            },
            Record::TargetCopy { length, offset } => RecordModel::TargetCopy {
                length: *length,
                offset: *offset,
            },
        }
    }
}

/// The record that starts at `pos`, and the position after it. The length
/// field keeps the low `usize::BITS` bits of the number; where they are all
/// ones the length overflows, which is an `Abort`.
pub open spec fn record_at(s: Seq<u8>, pos: int) -> Outcome<(RecordModel, int)> {
    match uvar_at(s, pos) {
        Err(f) => Outcome::Fail(f),
        Ok((raw, p)) => {
            let action = raw % 4;
            let length_minus_one = (raw / 4) % (usize::MAX as int + 1);
            if length_minus_one == usize::MAX {
                Outcome::Abort
            } else {
                let length = (length_minus_one + 1) as usize;
                if action == 0 {
                    Outcome::Value((RecordModel::SourceRead(length), p))
                } else if action == 1 {
                    if p + length > s.len() {
                        Outcome::Fail(crate::eof_failure())
                    } else {
                        Outcome::Value((RecordModel::TargetRead(s.subrange(p, p + length)), p + length))
                    }
                } else {
                    match ivar_at(s, p) {
                        Err(f) => Outcome::Fail(f),
                        Ok((offset, q)) => if offset < i64::MIN || offset > i64::MAX {
                            Outcome::Fail(Failure::VariableIntegerOverflow("record offset"@))
                        } else if action == 2 {
                            Outcome::Value(
                                (RecordModel::SourceCopy { length, offset: offset as i64 }, q),
                            )
                        } else {
                            Outcome::Value(
                                (RecordModel::TargetCopy { length, offset: offset as i64 }, q),
                            )
                        },
                    }
                }
            }
        },
    }
}

/// A record that parses ends after its start and within the data.
pub proof fn lemma_record_at_advances(s: Seq<u8>, pos: int)
    ensures
        record_at(s, pos) matches Outcome::Value((_, end)) ==> pos < end <= s.len(),
{
    lemma_uvar_advances(s, pos, 0, 1);
    if let Ok((_, p)) = uvar_at(s, pos) {
        lemma_uvar_advances(s, p, 0, 1);
    }
}

/// The records from `pos` while the position is before `end`.
pub open spec fn records_from(s: Seq<u8>, pos: int, end: int) -> Outcome<Seq<RecordModel>>
    decreases s.len() - pos,
{
    if pos >= end {
        Outcome::Value(Seq::empty())
    } else {
        match record_at(s, pos) {
            Outcome::Fail(f) => Outcome::Fail(f),
            Outcome::Abort => Outcome::Abort,
            Outcome::Value((r, next)) => {
                proof {
                    lemma_record_at_advances(s, pos);
                }
                match records_from(s, next, end) {
                    Outcome::Value(rest) => Outcome::Value(seq![r] + rest),
                    Outcome::Fail(f) => Outcome::Fail(f),
                    Outcome::Abort => Outcome::Abort,
                }
            },
        }
    }
}

/// The model of a [`File`].
pub struct FileModel {
    pub source_size: u64,
    pub target_size: u64,
    pub metadata: Seq<char>,
    pub records: Seq<RecordModel>,
    pub source_checksum: u32,
    pub target_checksum: u32,
}

/// The metadata that starts at `pos` and is `size` bytes long, and the
/// position after it.
pub open spec fn metadata_at(s: Seq<u8>, pos: int, size: int) -> Result<(Seq<char>, int), Failure> {
    if size == 0 {
        Ok((Seq::empty(), pos))
    } else if pos + size > s.len() {
        Err(crate::eof_failure())
    } else if !valid_utf8(s.subrange(pos, pos + size)) {
        Err(Failure::InvalidMetadata)
    } else {
        Ok((decode_utf8(s.subrange(pos, pos + size)), pos + size))
    }
}

/// The BPS file `s`.
pub open spec fn parse_spec(s: Seq<u8>) -> Outcome<FileModel> {
    if s.len() < 4 {
        Outcome::Fail(crate::eof_failure())
    } else if s.take(4) != bps_header() {
        Outcome::Fail(Failure::InvalidHeader)
    } else {
        match uvar_at(s, 4) {
            Err(f) => Outcome::Fail(f),
            Ok((source_size, p1)) => if source_size > u64::MAX {
                Outcome::Fail(Failure::VariableIntegerOverflow("input filesize"@))
            } else {
                match uvar_at(s, p1) {
                    Err(f) => Outcome::Fail(f),
                    Ok((target_size, p2)) => if target_size > u64::MAX {
                        Outcome::Fail(Failure::VariableIntegerOverflow("output filesize"@))
                    } else {
                        match uvar_at(s, p2) {
                            Err(f) => Outcome::Fail(f),
                            Ok((metadata_size, p3)) => if metadata_size > usize::MAX {
                                Outcome::Fail(Failure::VariableIntegerOverflow("metadata size"@))
                            } else if s.len() < 12 {
                                Outcome::Fail(crate::seek_failure())
                            } else if u32_le(s, s.len() - 4) != crc32_checksum(s.take(s.len() - 4)) {
                                Outcome::Fail(
                                    Failure::InvalidInputChecksum {
                                        expected: u32_le(s, s.len() - 4) as u32,
                                        actual: crc32_checksum(s.take(s.len() - 4)),
                                    },
                                )
                            } else {
                                match metadata_at(s, p3, metadata_size) {
                                    Err(f) => Outcome::Fail(f),
                                    Ok((metadata, p4)) => match records_from(s, p4, s.len() - 12) {
                                        Outcome::Fail(f) => Outcome::Fail(f),
                                        Outcome::Abort => Outcome::Abort,
                                        Outcome::Value(records) => Outcome::Value(
                                            FileModel {
                                                source_size: source_size as u64,
                                                target_size: target_size as u64,
                                                metadata,
                                                records,
                                                source_checksum: u32_le(s, s.len() - 12) as u32,
                                                target_checksum: u32_le(s, s.len() - 8) as u32,
                                            },
                                        ),
                                    },
                                }
                            },
                        }
                    },
                }
            },
        }
    }
}

/// Where the patch is read and written while it is applied: the relative
/// offsets into the source and the target.
#[derive(Clone, Copy, Debug, PartialEq, Eq)]
pub struct Positions {
    /// The source position (sourceRelativeOffset).
    pub source: u64,
    /// The target position (targetRelativeOffset).
    pub target: u64,
}

/// The state of applying a patch: the two positions and the target so far.
pub struct State {
    pub source_pos: int,
    pub target_pos: int,
    pub target: Seq<u8>,
}

/// The state that `at` and `target` hold.
pub open spec fn state_of(at: Positions, target: Seq<u8>) -> State {
    State { source_pos: at.source as int, target_pos: at.target as int, target }
}

/// The bytes that a target copy appends: read from `start` of the target,
/// and from the bytes it appends itself once the read passes the end of the
/// target, which repeats the bytes from `start` to the end.
pub open spec fn target_copy_bytes(target: Seq<u8>, start: int, length: int) -> Seq<u8> {
    Seq::new(length as nat, |i: int| target[start + i % (target.len() - start)])
}

/// Applies the record `r` to the state `st`, with `source` as the source.
pub open spec fn step_spec(source: Seq<u8>, st: State, r: RecordModel) -> Outcome<State> {
    match r {
        RecordModel::SourceRead(length) => {
            let eof = st.target.len() as int;
            if eof + length > source.len() {
                Outcome::Fail(crate::eof_failure())
            } else {
                Outcome::Value(
                    State { target: st.target + source.subrange(eof, eof + length), ..st },
                )
            }
        },
        RecordModel::TargetRead(data) => Outcome::Value(State { target: st.target + data, ..st }),
        RecordModel::SourceCopy { length, offset } => {
            let start = st.source_pos + offset;
            if start < 0 {
                Outcome::Fail(Failure::OffsetOverflow("Record::SourceCopy offset"@))
            } else if start + length > source.len() {
                Outcome::Fail(crate::eof_failure())
            } else {
                Outcome::Value(
                    State {
                        source_pos: start + length,
                        target: st.target + source.subrange(start, start + length),
                        ..st
                    },
                )
            }
        },
        RecordModel::TargetCopy { length, offset } => {
            let eof = st.target.len() as int;
            let start = st.target_pos + offset;
            if start < 0 || start > u64::MAX {
                Outcome::Fail(Failure::OffsetOverflow("Record::TargetCopy offset"@))
            } else if start >= eof {
                if start - eof > usize::MAX {
                    Outcome::Fail(Failure::OffsetOverflow("Record::TargetCopy RLE length"@))
                } else {
                    Outcome::Abort
                }
            } else if start + length > u64::MAX {
                Outcome::Abort
            } else {
                Outcome::Value(
                    State {
                        target_pos: start + length,
                        target: st.target + target_copy_bytes(st.target, start, length as int),
                        ..st
                    },
                )
            }
        },
    }
}

/// Applies the records in order from the state `st`: whether all applied,
/// and the state after the last record that did.
pub open spec fn run(source: Seq<u8>, st: State, recs: Seq<RecordModel>) -> (Outcome<()>, State)
    decreases recs.len(),
{
    if recs.len() == 0 {
        (Outcome::Value(()), st)
    } else {
        let (o, last) = run(source, st, recs.drop_last());
        match o {
            Outcome::Value(_) => match step_spec(source, last, recs.last()) {
                Outcome::Value(next) => (Outcome::Value(()), next),
                Outcome::Fail(f) => (Outcome::Fail(f), last),
                Outcome::Abort => (Outcome::Abort, last),
            },
            _ => (o, last),
        }
    }
}

/// Once a record fails or aborts, the records after it change nothing.
pub proof fn lemma_run_stops(source: Seq<u8>, st: State, recs: Seq<RecordModel>, i: int, k: int)
    requires
        0 <= i <= k <= recs.len(),
        !(run(source, st, recs.take(i)).0 is Value),
    ensures
        run(source, st, recs.take(k)) == run(source, st, recs.take(i)),
    decreases k - i,
{
    if k > i {
        lemma_run_stops(source, st, recs, i, k - 1);
        assert(recs.take(k).drop_last() =~= recs.take(k - 1));
    }
}

/// The result of applying the file `f` to `source`, with the target holding
/// `target` before, and the target after it. The records are applied from
/// the start of the source and of the target, and append to the target.
pub open spec fn apply_spec(f: FileModel, source: Seq<u8>, target: Seq<u8>) -> (Outcome<()>, Seq<u8>) {
    if source.len() != f.source_size {
        (
            Outcome::Fail(
                Failure::InvalidInputSize { expected: f.source_size, actual: source.len() as u64 },
            ),
            target,
        )
    } else if crc32_checksum(source) != f.source_checksum {
        (
            Outcome::Fail(
                Failure::InvalidInputChecksum {
                    expected: f.source_checksum,
                    actual: crc32_checksum(source),
                },
            ),
            target,
        )
    } else {
        let (o, last) = run(
            source,
            State { source_pos: 0, target_pos: 0, target },
            f.records,
        );
        match o {
            Outcome::Value(_) => if last.target.len() != f.target_size {
                (
                    Outcome::Fail(
                        Failure::InvalidOutputSize {
                            expected: f.target_size,
                            actual: last.target.len() as u64,
                        },
                    ),
                    last.target,
                )
            } else if crc32_checksum(last.target) != f.target_checksum {
                (
                    Outcome::Fail(
                        Failure::InvalidOutputChecksum {
                            expected: f.target_checksum,
                            actual: crc32_checksum(last.target),
                        },
                    ),
                    last.target,
                )
            } else {
                (Outcome::Value(()), last.target)
            },
            _ => (o, last.target),
        }
    }
}

/// Appends `bytes` to `target`.
fn append(target: &mut Vec<u8>, bytes: &[u8])
    ensures
        final(target)@ == old(target)@ + bytes@,
{
    let ghost start = target@;
    let mut i: usize = 0;
    while i < bytes.len()
        invariant
            i <= bytes@.len(),
            target@ == start + bytes@.take(i as int),
        decreases bytes@.len() - i,
    {
        target.push(bytes[i]);
        proof {
            assert(bytes@.take(i + 1) =~= bytes@.take(i as int).push(bytes@[i as int]));
        }
        i = i + 1;
    }
    proof {
        assert(bytes@.take(bytes@.len() as int) =~= bytes@);
    }
}

/// `r` is the exec result of a step that `s` describes, with the positions
/// and target after it.
pub open spec fn step_matches(
    r: Option<Result<(), Error>>,
    s: Outcome<State>,
    at0: Positions,
    at: Positions,
    target0: Seq<u8>,
    target: Seq<u8>,
) -> bool {
    match s {
        Outcome::Value(st) => r == Some(Ok::<(), Error>(())) && state_of(at, target) == st,
        Outcome::Fail(f) => r matches Some(Err(e)) && error_matches(e, f) && at == at0 && target
            == target0,
        Outcome::Abort => r is None && at == at0 && target == target0,
    }
}

impl Record {
    /// Reads the record at `pos`: `None` where its length overflows `usize`.
    fn parse(bps: &[u8], pos: usize) -> (r: Option<Result<(Record, usize), Error>>)
        ensures
            match record_at(bps@, pos as int) {
                Outcome::Value((m, end)) => r matches Some(Ok((rec, e))) && rec@ == m && e == end,
                Outcome::Fail(f) => r matches Some(Err(e)) && error_matches(e, f),
                Outcome::Abort => r is None,
            },
    {
        let (raw, p) = match read_uvar(bps, pos) {
            Ok(v) => v,
            Err(e) => {
                return Some(Err(e));
            },
        };
        proof {
            lemma_uvar_advances(bps@, pos as int, 0, 1);
        }
        let action: u128 = raw & 0x3;
        let quarter: u128 = raw >> 2;
        assert(action == raw % 4) by (bit_vector)
            requires
                action == raw & 0x3,
        ;
        assert(quarter == raw / 4) by (bit_vector)
            requires
                quarter == raw >> 2,
        ;
        let length_minus_one: usize = if quarter <= usize::MAX as u128 {
            quarter as usize
        } else {
            (quarter % (usize::MAX as u128 + 1)) as usize
        };
        proof {
            let m: int = usize::MAX as int + 1;
            if quarter <= usize::MAX as u128 {
                vstd::arithmetic::div_mod::lemma_small_mod(quarter as nat, m as nat);
            }
            assert(length_minus_one as int == (raw as int / 4) % m);
        }
        if length_minus_one == usize::MAX {
            return None;
        }
        let length: usize = length_minus_one + 1;
        if action == 0 {
            Some(Ok((Record::SourceRead(length), p)))
        } else if action == 1 {
            if bps.len() - p < length {
                return Some(Err(eof_error()));
            }
            let data = InlineBytes::from_slice(&bps[p..p + length]);
            Some(Ok((Record::TargetRead(data), p + length)))
        } else {
            let (offset, q) = match read_ivar(bps, p) {
                Ok(v) => v,
                Err(e) => {
                    return Some(Err(e));
                },
            };
            if offset < i64::MIN as i128 || offset > i64::MAX as i128 {
                return Some(Err(Error::VariableIntegerOverflow("record offset")));
            }
            let offset: i64 = offset as i64;
            if action == 2 {
                Some(Ok((Record::SourceCopy { length, offset }, q)))
            } else {
                Some(Ok((Record::TargetCopy { length, offset }, q)))
            }
        }
    }

    /// Applies the record: `None` where it is an `Abort` (a target copy from
    /// at or past the end of the target, or past `u64::MAX`), and then
    /// nothing changes.
    fn step(&self, source: &[u8], target: &mut Vec<u8>, at: &mut Positions) -> (r: Option<
        Result<(), Error>,
    >)
        ensures
            step_matches(
                r,
                step_spec(source@, state_of(*old(at), old(target)@), self@),
                *old(at),
                *final(at),
                old(target)@,
                final(target)@,
            ),
    {
        match self {
            Record::SourceRead(length) => {
                let length: usize = *length;
                let eof: usize = target.len();
                if eof > source.len() || source.len() - eof < length {
                    return Some(Err(eof_error()));
                }
                append(target, &source[eof..eof + length]);
                Some(Ok(()))
            },
            Record::TargetRead(data) => {
                append(target, data.as_slice());
                Some(Ok(()))
            },
            Record::SourceCopy { length, offset } => {
                let length: usize = *length;
                let source_len: usize = source.len();
                let start: u64 = match at.source.checked_add_signed(*offset) {
                    Some(s) => s,
                    None => {
                        if *offset < 0 {
                            return Some(Err(Error::OffsetOverflow("Record::SourceCopy offset")));
                        }
                        proof {
                            assert(source_len <= usize::MAX);
                            assert(source@.len() <= u64::MAX);
                        }
                        return Some(Err(eof_error()));
                    },
                };
                if start > source.len() as u64 || (source.len() as u64 - start) < length as u64 {
                    return Some(Err(eof_error()));
                }
                let begin: usize = start as usize;
                append(target, &source[begin..begin + length]);
                at.source = start + length as u64;
                Some(Ok(()))
            },
            Record::TargetCopy { length, offset } => {
                let length: usize = *length;
                let target_len: usize = target.len();
                let eof: u64 = target_len as u64;
                let start: u64 = match at.target.checked_add_signed(*offset) {
                    Some(s) => s,
                    None => {
                        return Some(Err(Error::OffsetOverflow("Record::TargetCopy offset")));
                    },
                };
                if start >= eof {
                    if start - eof > usize::MAX as u64 {
                        return Some(Err(Error::OffsetOverflow("Record::TargetCopy RLE length")));
                    }
                    return None;
                }
                if start > u64::MAX - length as u64 {
                    return None;
                }
                let ghost t = target@;
                let ghost period: int = eof - start;
                let mut buf = InlineBytes::with_capacity(length);
                let mut i: usize = 0;
                while i < length
                    invariant
                        target@ == t,
                        eof == t.len(),
                        t.len() <= usize::MAX,
                        start < eof,
                        period == eof - start,
                        start + length <= u64::MAX,
                        i <= length,
                        inline_bytes_contents(buf) == Seq::new(
                            i as nat,
                            |j: int| t[start + j % period],
                        ),
                    decreases length - i,
                {
                    let read_pos: u64 = start + i as u64;
                    let b: u8 = if read_pos >= eof {
                        let index: usize = (read_pos - eof) as usize;
                        proof {
                            vstd::arithmetic::div_mod::lemma_mod_sub_multiples_vanish(
                                i as int,
                                period,
                            );
                            assert(index == i - period);
                        }
                        let b: u8 = buf.as_slice()[index];
                        proof {
                            assert(b == t[start + (index as int) % period]);
                            assert(b == t[start + (i as int) % period]);
                        }
                        b
                    } else {
                        proof {
                            vstd::arithmetic::div_mod::lemma_small_mod(i as nat, period as nat);
                        }
                        let b: u8 = target[read_pos as usize];
                        proof {
                            assert(b == t[start + (i as int) % period]);
                        }
                        b
                    };
                    buf.push(b);
                    proof {
                        assert(inline_bytes_contents(buf) =~= Seq::new(
                            (i + 1) as nat,
                            |j: int| t[start + j % period],
                        ));
                    }
                    i = i + 1;
                }
                append(target, buf.as_slice());
                at.target = start + length as u64;
                proof {
                    assert(inline_bytes_contents(buf) =~= target_copy_bytes(
                        t,
                        start as int,
                        length as int,
                    ));
                }
                Some(Ok(()))
            },
        }
    }

    /// Applies a single record: appends its bytes to `target` and moves the
    /// positions. On an error, nothing changes.
    pub fn apply(&self, source: &[u8], target: &mut Vec<u8>, at: &mut Positions) -> (r: Result<
        (),
        Error,
    >)
        requires
            !(step_spec(source@, state_of(*old(at), old(target)@), self@) is Abort),
        ensures
            match step_spec(source@, state_of(*old(at), old(target)@), self@) {
                Outcome::Value(st) => r is Ok && state_of(*final(at), final(target)@) == st,
                Outcome::Fail(f) => r matches Err(e) && error_matches(e, f) && *final(at) == *old(
                    at,
                ) && final(target)@ == old(target)@,
                Outcome::Abort => false,
            },
    {
        match self.step(source, target, at) {
            Some(res) => res,
            None => Ok(()),
        }
    }

    /// The size of this record
    pub fn len(&self) -> (r: usize)
        ensures
            r == self@.len(),
    {
        match self {
            Record::SourceRead(length) => *length,
            Record::TargetRead(data) => data.len(),
            Record::SourceCopy { length, .. } => *length,
            Record::TargetCopy { length, .. } => *length,
        }
    }
}

/// `r` is the exec list of records that `s` describes.
pub open spec fn records_matches(r: Option<Result<Vec<Record>, Error>>, s: Outcome<Seq<RecordModel>>) -> bool {
    match s {
        Outcome::Value(m) => r matches Some(Ok(v)) && v@.map_values(|x: Record| x@) == m,
        Outcome::Fail(f) => r matches Some(Err(e)) && error_matches(e, f),
        Outcome::Abort => r is None,
    }
}

/// Reads the records from `pos` while the position is before `end`.
fn parse_records(bps: &[u8], pos: usize, end: usize) -> (r: Option<Result<Vec<Record>, Error>>)
    ensures
        records_matches(r, records_from(bps@, pos as int, end as int)),
{
    let mut records: Vec<Record> = Vec::new();
    let mut at: usize = pos;
    while at < end
        invariant
            records_from(bps@, pos as int, end as int) == (match records_from(
                bps@,
                at as int,
                end as int,
            ) {
                Outcome::Value(rest) => Outcome::Value(records@.map_values(|x: Record| x@) + rest),
                Outcome::Fail(f) => Outcome::Fail(f),
                Outcome::Abort => Outcome::Abort,
            }),
        decreases bps@.len() - at,
    {
        proof {
            lemma_record_at_advances(bps@, at as int);
        }
        let (record, next) = match Record::parse(bps, at) {
            Some(Ok(v)) => v,
            Some(Err(e)) => {
                return Some(Err(e));
            },
            None => {
                return None;
            },
        };
        let ghost before = records@;
        records.push(record);
        proof {
            assert(records@.map_values(|x: Record| x@) =~= before.map_values(|x: Record| x@).push(
                record@,
            ));
            match records_from(bps@, next as int, end as int) {
                Outcome::Value(rest) => {
                    assert(before.map_values(|x: Record| x@) + (seq![record@] + rest)
                        =~= records@.map_values(|x: Record| x@) + rest);
                },
                _ => {},
            }
        }
        at = next;
    }
    proof {
        assert(records@.map_values(|x: Record| x@) + Seq::<RecordModel>::empty()
            =~= records@.map_values(|x: Record| x@));
    }
    Some(Ok(records))
}

/// Calls `String::from_utf8`, which takes the bytes as a string where they
/// are valid UTF-8 and fails otherwise.
#[verifier::external_body]
fn string_from_utf8(bytes: Vec<u8>) -> (r: Result<String, std::string::FromUtf8Error>)
    ensures
        r is Ok <==> valid_utf8(bytes@),
        r matches Ok(s) ==> s@ == decode_utf8(bytes@),
{
    String::from_utf8(bytes)
}

/// `true` where the first four bytes of `bps` are `BPS1`.
fn has_header(bps: &[u8]) -> (r: bool)
    requires
        bps@.len() >= 4,
    ensures
        r == (bps@.take(4) == bps_header()),
{
    let r = bps[0] == 0x42 && bps[1] == 0x50 && bps[2] == 0x53 && bps[3] == 0x31;
    proof {
        if r {
            assert(bps@.take(4) =~= bps_header());
        } else if bps@.take(4) == bps_header() {
            assert(bps@.take(4)[0] == bps@[0]);
            assert(bps@.take(4)[1] == bps@[1]);
            assert(bps@.take(4)[2] == bps@[2]);
            assert(bps@.take(4)[3] == bps@[3]);
        }
    }
    r
}

/// A parsed BPS file
#[derive(Debug)]
pub struct File {
    source_size: u64,
    target_size: u64,
    metadata: String,
    records: Vec<Record>,
    source_checksum: u32,
    target_checksum: u32,
}

impl View for File {
    type V = FileModel;

    closed spec fn view(&self) -> FileModel {
        FileModel {
            source_size: self.source_size,
            target_size: self.target_size,
            metadata: self.metadata@,
            records: self.records@.map_values(|x: Record| x@),
            source_checksum: self.source_checksum,
            target_checksum: self.target_checksum,
        }
    }
}

/// `r` is the exec file that `s` describes.
pub open spec fn file_matches(r: Option<Result<File, Error>>, s: Outcome<FileModel>) -> bool {
    match s {
        Outcome::Value(m) => r matches Some(Ok(f)) && f@ == m,
        Outcome::Fail(fl) => r matches Some(Err(e)) && error_matches(e, fl),
        Outcome::Abort => r is None,
    }
}

impl File {
    /// Parses a BPS file, or returns `None` on a patch in which a record's
    /// length overflows `usize`.
    pub fn try_parse(bps: &[u8]) -> (r: Option<Result<File, Error>>)
        ensures
            file_matches(r, parse_spec(bps@)),
    {
        if bps.len() < 4 {
            return Some(Err(eof_error()));
        }
        if !has_header(bps) {
            return Some(Err(Error::InvalidHeader));
        }
        let (source_size, p1) = match read_uvar(bps, 4) {
            Ok(v) => v,
            Err(e) => {
                return Some(Err(e));
            },
        };
        if source_size > u64::MAX as u128 {
            return Some(Err(Error::VariableIntegerOverflow("input filesize")));
        }
        let (target_size, p2) = match read_uvar(bps, p1) {
            Ok(v) => v,
            Err(e) => {
                return Some(Err(e));
            },
        };
        if target_size > u64::MAX as u128 {
            return Some(Err(Error::VariableIntegerOverflow("output filesize")));
        }
        let (metadata_size, metadata_start) = match read_uvar(bps, p2) {
            Ok(v) => v,
            Err(e) => {
                return Some(Err(e));
            },
        };
        if metadata_size > usize::MAX as u128 {
            return Some(Err(Error::VariableIntegerOverflow("metadata size")));
        }
        let metadata_size: usize = metadata_size as usize;
        if bps.len() < 12 {
            return Some(Err(crate::seek_error()));
        }
        let record_end: usize = bps.len() - 12;
        let source_checksum: u32 = read_u32_le(bps, record_end);
        let target_checksum: u32 = read_u32_le(bps, record_end + 4);
        let checksum_end: usize = record_end + 8;
        let patch_checksum: u32 = read_u32_le(bps, checksum_end);
        let actual_checksum: u32 = crate::crc32_length(bps, Some(checksum_end));
        if patch_checksum != actual_checksum {
            return Some(
                Err(Error::InvalidInputChecksum { expected: patch_checksum, actual: actual_checksum }),
            );
        }
        proof {
            lemma_uvar_advances(bps@, p2 as int, 0, 1);
        }
        let (metadata, records_start) = if metadata_size > 0 {
            if bps.len() - metadata_start < metadata_size {
                return Some(Err(eof_error()));
            }
            let buf = vstd::slice::slice_to_vec(
                &bps[metadata_start..metadata_start + metadata_size],
            );
            match string_from_utf8(buf) {
                Ok(s) => (s, metadata_start + metadata_size),
                Err(e) => {
                    return Some(Err(Error::InvalidMetadata(e)));
                },
            }
        } else {
            (String::new(), metadata_start)
        };
        let records = match parse_records(bps, records_start, record_end) {
            Some(Ok(v)) => v,
            Some(Err(e)) => {
                return Some(Err(e));
            },
            None => {
                return None;
            },
        };
        Some(
            Ok(
                File {
                    source_size: source_size as u64,
                    target_size: target_size as u64,
                    metadata,
                    records,
                    source_checksum,
                    target_checksum,
                },
            ),
        )
    }

    /// Parse a BPS file
    pub fn parse(bps: &[u8]) -> (r: Result<File, Error>)
        requires
            !(parse_spec(bps@) is Abort),
        ensures
            match parse_spec(bps@) {
                Outcome::Value(m) => r matches Ok(f) && f@ == m,
                Outcome::Fail(fl) => r matches Err(e) && error_matches(e, fl),
                Outcome::Abort => false,
            },
    {
        match File::try_parse(bps) {
            Some(r) => r,
            None => Err(Error::InvalidHeader),
        }
    }

    /// Applies the records to `source`, appending to `target`; or returns
    /// `None` where a record cannot be applied without an out-of-range read
    /// (a target copy from at or past the end of the target). The size and checksum of the
    /// source are checked before, and those of the target after.
    pub fn try_apply(&self, source: &[u8], target: &mut Vec<u8>) -> (r: Option<Result<(), Error>>)
        ensures
            (r is None) == (apply_spec(self@, source@, old(target)@).0 is Abort),
            r matches Some(res) ==> outcome_matches(res, apply_spec(self@, source@, old(target)@).0),
            final(target)@ == apply_spec(self@, source@, old(target)@).1,
    {
        let ghost f = self@;
        let source_size: u64 = source.len() as u64;
        if self.source_size != source_size {
            return Some(Err(Error::InvalidInputSize { expected: self.source_size, actual: source_size }));
        }
        let source_checksum: u32 = crc32(source);
        if self.source_checksum != source_checksum {
            return Some(
                Err(Error::InvalidInputChecksum { expected: self.source_checksum, actual: source_checksum }),
            );
        }
        let ghost st0 = State { source_pos: 0, target_pos: 0, target: target@ };
        let mut at = Positions { source: 0, target: 0 };
        let mut i: usize = 0;
        while i < self.records.len()
            invariant
                f == self@,
                i <= self.records@.len(),
                source@.len() == f.source_size,
                crc32_checksum(source@) == f.source_checksum,
                st0 == (State { source_pos: 0, target_pos: 0, target: old(target)@ }),
                run(source@, st0, f.records.take(i as int)) == (Outcome::<()>::Value(()), state_of(
                    at,
                    target@,
                )),
            decreases self.records@.len() - i,
        {
            proof {
                assert(f.records.take(i + 1).drop_last() =~= f.records.take(i as int));
                assert(f.records.take(i + 1).last() == self.records@[i as int]@);
            }
            let ghost at0 = at;
            let ghost t0 = target@;
            let outcome = self.records[i].step(source, target, &mut at);
            proof {
                assert(run(source@, st0, f.records.take(i + 1)) == (match step_spec(
                    source@,
                    state_of(at0, t0),
                    self.records@[i as int]@,
                ) {
                    Outcome::Value(next) => (Outcome::<()>::Value(()), next),
                    Outcome::Fail(fl) => (Outcome::Fail(fl), state_of(at0, t0)),
                    Outcome::Abort => (Outcome::Abort, state_of(at0, t0)),
                }));
            }
            match outcome {
                Some(Ok(())) => {},
                Some(Err(e)) => {
                    proof {
                        lemma_run_stops(source@, st0, f.records, i + 1, f.records.len() as int);
                        assert(f.records.take(f.records.len() as int) =~= f.records);
                    }
                    return Some(Err(e));
                },
                None => {
                    proof {
                        lemma_run_stops(source@, st0, f.records, i + 1, f.records.len() as int);
                        assert(f.records.take(f.records.len() as int) =~= f.records);
                    }
                    return None;
                },
            }
            i = i + 1;
        }
        proof {
            assert(f.records.take(self.records@.len() as int) =~= f.records);
        }
        let target_size: u64 = target.len() as u64;
        if self.target_size != target_size {
            return Some(Err(Error::InvalidOutputSize { expected: self.target_size, actual: target_size }));
        }
        let target_checksum: u32 = crc32(target.as_slice());
        if self.target_checksum != target_checksum {
            return Some(
                Err(Error::InvalidOutputChecksum { expected: self.target_checksum, actual: target_checksum }),
            );
        }
        Some(Ok(()))
    }

    /// Apply the contained BPS records to an input file and generate a patched file
    pub fn apply(&self, source: &[u8], target: &mut Vec<u8>) -> (r: Result<(), Error>)
        requires
            !(apply_spec(self@, source@, old(target)@).0 is Abort),
        ensures
            outcome_matches(r, apply_spec(self@, source@, old(target)@).0),
            final(target)@ == apply_spec(self@, source@, old(target)@).1,
    {
        match self.try_apply(source, target) {
            Some(r) => r,
            None => Ok(()),
        }
    }

    /// Inspect the metadata contained in this BPS file
    pub fn metadata(&self) -> (r: &str)
        ensures
            r@ == self@.metadata,
    {
        self.metadata.as_str()
    }

    /// Inspect the records contained in this BPS file
    pub fn records(&self) -> (r: &[Record])
        ensures
            r@.map_values(|x: Record| x@) == self@.records,
    {
        self.records.as_slice()
    }
}

impl Default for File {
    fn default() -> (r: File)
        ensures
            r@ == (FileModel {
                source_size: 0,
                target_size: 0,
                metadata: Seq::empty(),
                records: Seq::empty(),
                source_checksum: 0,
                target_checksum: 0,
            }),
    {
        let r = File {
            source_size: 0,
            target_size: 0,
            metadata: String::new(),
            records: Vec::new(),
            source_checksum: 0,
            target_checksum: 0,
        };
        proof {
            assert(r@.records =~= Seq::<RecordModel>::empty());
        }
        r
    }
}

} // verus!

verus! {

/// The one encoding of the signed number `v`: the magnitude shifted up one
/// bit, with the sign in the low bit.
pub open spec fn ivar_encoding(v: int) -> Seq<u8> {
    crate::varint::uvar_encoding(
        (if v < 0 {
            -v * 2 + 1
        } else {
            v * 2
        }) as nat,
    )
}

/// Decoding gives back every `i128` but `i128::MIN` from its encoding, and
/// stops at the encoding's last byte whatever follows it.
pub proof fn lemma_ivar_roundtrip(v: i128, rest: Seq<u8>)
    requires
        v != i128::MIN,
    ensures
        ivar_at(ivar_encoding(v as int) + rest, 0) == Ok::<(int, int), Failure>(
            (v as int, ivar_encoding(v as int).len() as int),
        ),
{
    let raw: int = if v < 0 {
        -v * 2 + 1
    } else {
        v * 2
    };
    assert(0 <= raw <= u128::MAX);
    crate::varint::lemma_uvar_roundtrip(raw as u128, rest);
    assert(signed_of(raw) == v);
}

/// The number of bytes the records append to the target.
pub open spec fn total_len(recs: Seq<RecordModel>) -> int
    decreases recs.len(),
{
    if recs.len() == 0 {
        0
    } else {
        total_len(recs.drop_last()) + recs.last().len()
    }
}

/// A record that applies appends exactly its length of bytes to the target
/// and leaves the bytes already there as they were.
pub proof fn lemma_step_appends(source: Seq<u8>, st: State, r: RecordModel)
    ensures
        step_spec(source, st, r) matches Outcome::Value(next) ==> {
            &&& next.target.len() == st.target.len() + r.len()
            &&& next.target.take(st.target.len() as int) == st.target
        },
{
    if let Outcome::Value(next) = step_spec(source, st, r) {
        assert(next.target.take(st.target.len() as int) =~= st.target);
    }
}

/// Applying records only appends to the target: the target keeps what it
/// held, and where all records apply it grows by the sum of their lengths.
pub proof fn lemma_run_appends(source: Seq<u8>, st: State, recs: Seq<RecordModel>)
    ensures
        run(source, st, recs).1.target.len() >= st.target.len(),
        run(source, st, recs).1.target.take(st.target.len() as int) == st.target,
        run(source, st, recs).0 is Value ==> run(source, st, recs).1.target.len() == st.target.len()
            + total_len(recs),
    decreases recs.len(),
{
    if recs.len() == 0 {
        assert(st.target.take(st.target.len() as int) =~= st.target);
    } else {
        lemma_run_appends(source, st, recs.drop_last());
        let (o, last) = run(source, st, recs.drop_last());
        if o is Value {
            lemma_step_appends(source, last, recs.last());
            if let Outcome::Value(next) = step_spec(source, last, recs.last()) {
                assert(next.target.take(st.target.len() as int) =~= last.target.take(
                    st.target.len() as int,
                )) by {
                    assert(next.target.take(last.target.len() as int) == last.target);
                    assert forall|i: int| 0 <= i < st.target.len() implies next.target[i]
                        == last.target[i] by {
                        assert(next.target.take(last.target.len() as int)[i] == next.target[i]);
                    }
                }
            }
        }
    }
}

/// A patch applies only where the source has the size and checksum the patch
/// names, and the target it makes has the size and checksum the patch names.
pub proof fn lemma_apply_checks(f: FileModel, source: Seq<u8>, target: Seq<u8>)
    ensures
        apply_spec(f, source, target).0 is Value ==> {
            &&& source.len() == f.source_size
            &&& crc32_checksum(source) == f.source_checksum
            &&& apply_spec(f, source, target).1.len() == f.target_size
            &&& crc32_checksum(apply_spec(f, source, target).1) == f.target_checksum
        },
{
}

/// A patch parses only where it starts with `BPS1` and its last four bytes
/// are the checksum of the bytes before them.
pub proof fn lemma_parse_checks(s: Seq<u8>)
    ensures
        parse_spec(s) is Value ==> {
            &&& s.len() >= 12
            &&& s.take(4) == bps_header()
            &&& u32_le(s, s.len() - 4) == crc32_checksum(s.take(s.len() - 4))
        },
{
}

/// Every record of a parsed patch has a length of at least one.
pub proof fn lemma_parsed_lengths_nonzero(s: Seq<u8>, pos: int, end: int)
    requires
        records_from(s, pos, end) is Value,
    ensures
        forall|k: int|
            0 <= k < records_from(s, pos, end)->Value_0.len() ==> (#[trigger] records_from(
                s,
                pos,
                end,
            )->Value_0[k]).len() >= 1,
    decreases s.len() - pos,
{
    if pos < end {
        lemma_record_at_advances(s, pos);
        if let Outcome::Value((r, next)) = record_at(s, pos) {
            lemma_parsed_lengths_nonzero(s, next, end);
            let rest = records_from(s, next, end)->Value_0;
            let all = records_from(s, pos, end)->Value_0;
            assert(all == seq![r] + rest);
            lemma_uvar_advances(s, pos, 0, 1);
            if let Ok((raw, _)) = uvar_at(s, pos) {
                vstd::arithmetic::div_mod::lemma_mod_pos_bound(raw / 4, usize::MAX as int + 1);
            }
            assert(r.len() >= 1);
            assert forall|k: int| 0 <= k < all.len() implies (#[trigger] all[k]).len() >= 1 by {
                if k > 0 {
                    assert(all[k] == rest[k - 1]);
                }
            }
        }
    }
}


/// Decoding a signed encoding that stands after any bytes `pre` gives back
/// the number, negative ones too, and ends at the encoding's last byte.
pub proof fn lemma_ivar_roundtrip_at(pre: Seq<u8>, v: i128, rest: Seq<u8>)
    requires
        v != i128::MIN,
    ensures
        ivar_at(pre + ivar_encoding(v as int) + rest, pre.len() as int) == Ok::<(int, int), Failure>(
            (v as int, (pre.len() + ivar_encoding(v as int).len()) as int),
        ),
{
    let raw: int = if v < 0 {
        -v * 2 + 1
    } else {
        v * 2
    };
    assert(0 <= raw <= u128::MAX);
    crate::varint::lemma_uvar_roundtrip_at(pre, raw as u128, rest);
    assert(signed_of(raw) == v);
}

/// The encoding of a record's action and length: `(length - 1) * 4 + action`.
pub open spec fn action_encoding(action: int, length: int) -> Seq<u8> {
    crate::varint::uvar_encoding(((length - 1) * 4 + action) as nat)
}

proof fn lemma_action_decodes(action: int, length: usize, rest: Seq<u8>)
    requires
        0 <= action < 4,
        length >= 1,
    ensures
        ({
            let raw = (length - 1) * 4 + action;
            &&& uvar_at(action_encoding(action, length as int) + rest, 0) == Ok::<(int, int), Failure>(
                (raw, action_encoding(action, length as int).len() as int),
            )
            &&& raw % 4 == action
            &&& (raw / 4) % (usize::MAX as int + 1) == length - 1
        }),
{
    let raw = (length - 1) * 4 + action;
    assert(raw <= u128::MAX);
    crate::varint::lemma_uvar_roundtrip(raw as u128, rest);
    assert(raw / 4 == length - 1);
    vstd::arithmetic::div_mod::lemma_small_mod((length - 1) as nat, (usize::MAX as int + 1) as nat);
}

/// A source read is read back with its length, whatever follows it.
pub proof fn lemma_source_read_roundtrip(length: usize, rest: Seq<u8>)
    requires
        length >= 1,
    ensures
        record_at(action_encoding(0, length as int) + rest, 0) == Outcome::Value(
            (RecordModel::SourceRead(length), action_encoding(0, length as int).len() as int),
        ),
{
    lemma_action_decodes(0, length, rest);
}

/// A target read is read back with its bytes, whatever follows them.
pub proof fn lemma_target_read_roundtrip(d: Seq<u8>, rest: Seq<u8>)
    requires
        1 <= d.len() <= usize::MAX,
    ensures
        record_at(action_encoding(1, d.len() as int) + d + rest, 0) == Outcome::Value(
            (RecordModel::TargetRead(d), (action_encoding(1, d.len() as int).len() + d.len()) as int),
        ),
{
    let enc = action_encoding(1, d.len() as int);
    let s = enc + d + rest;
    lemma_action_decodes(1, d.len() as usize, d + rest);
    assert(s =~= enc + (d + rest));
    assert(s.subrange(enc.len() as int, (enc.len() + d.len()) as int) =~= d);
}

/// A source or target copy is read back with its length and its offset,
/// negative offsets too, whatever follows it.
pub proof fn lemma_copy_record_roundtrip(action: int, length: usize, offset: i64, rest: Seq<u8>)
    requires
        action == 2 || action == 3,
        length >= 1,
        offset != i64::MIN,
    ensures
        ({
            let enc = action_encoding(action, length as int) + ivar_encoding(offset as int);
            record_at(enc + rest, 0) == Outcome::Value(
                (
                    if action == 2 {
                        RecordModel::SourceCopy { length, offset }
                    } else {
                        RecordModel::TargetCopy { length, offset }
                    },
                    enc.len() as int,
                ),
            )
        }),
{
    let head = action_encoding(action, length as int);
    let tail = ivar_encoding(offset as int);
    let s = head + tail + rest;
    lemma_action_decodes(action, length, tail + rest);
    assert(s =~= head + (tail + rest));
    lemma_ivar_roundtrip_at(head, offset as i128, rest);
    assert((head + tail) + rest =~= s);
}

/// A source copy reads from the source position moved by the offset, in
/// either direction: where that start and the bytes after it lie in the
/// source, it appends those bytes and leaves the source position after them.
pub proof fn lemma_source_copy(source: Seq<u8>, st: State, length: usize, offset: i64)
    requires
        0 <= st.source_pos + offset,
        st.source_pos + offset + length <= source.len(),
    ensures
        ({
            let p = st.source_pos + offset;
            step_spec(source, st, RecordModel::SourceCopy { length, offset }) == Outcome::Value(
                State {
                    source_pos: p + length,
                    target_pos: st.target_pos,
                    target: st.target + source.subrange(p, p + length),
                },
            )
        }),
{
}

/// A target copy reads from the target position moved by the offset, in
/// either direction: where that start lies in the target, it appends
/// `length` bytes, the one at index `i` being the byte of the new target at
/// the start plus `i`, so that a copy that runs into the bytes it appends
/// repeats them; the target position ends after the copy.
pub proof fn lemma_target_copy(source: Seq<u8>, st: State, length: usize, offset: i64)
    requires
        0 <= st.target_pos + offset < st.target.len(),
        st.target_pos + offset + length <= u64::MAX,
    ensures
        ({
            let p = st.target_pos + offset;
            let eof = st.target.len() as int;
            step_spec(source, st, RecordModel::TargetCopy { length, offset }) matches Outcome::Value(
                next,
            ) && {
                &&& next.source_pos == st.source_pos
                &&& next.target_pos == p + length
                &&& next.target.len() == eof + length
                &&& next.target.take(eof) == st.target
                &&& forall|i: int| 0 <= i < length ==> #[trigger] next.target[eof + i] == next.target[p + i]
            }
        }),
{
    let p = st.target_pos + offset;
    let eof = st.target.len() as int;
    let period = eof - p;
    let copied = target_copy_bytes(st.target, p, length as int);
    let next_target = st.target + copied;
    assert(next_target.take(eof) =~= st.target);
    assert forall|i: int| 0 <= i < length implies #[trigger] next_target[eof + i] == next_target[p + i] by {
        assert(next_target[eof + i] == st.target[p + i % period]);
        if p + i < eof {
            vstd::arithmetic::div_mod::lemma_small_mod(i as nat, period as nat);
        } else {
            vstd::arithmetic::div_mod::lemma_mod_sub_multiples_vanish(i, period);
            assert(next_target[p + i] == copied[i - period]);
        }
    }
}

/// A source read appends the source bytes at the current length of the
/// target, where the source holds them, and moves no position.
pub proof fn lemma_source_read(source: Seq<u8>, st: State, length: usize)
    requires
        st.target.len() + length <= source.len(),
    ensures
        step_spec(source, st, RecordModel::SourceRead(length)) == Outcome::Value(
            State {
                source_pos: st.source_pos,
                target_pos: st.target_pos,
                target: st.target + source.subrange(
                    st.target.len() as int,
                    st.target.len() + length,
                ),
            },
        ),
{
}

/// A target read appends its bytes and moves no position.
pub proof fn lemma_target_read(source: Seq<u8>, st: State, d: Seq<u8>)
    ensures
        step_spec(source, st, RecordModel::TargetRead(d)) == Outcome::Value(
            State { source_pos: st.source_pos, target_pos: st.target_pos, target: st.target + d },
        ),
{
}

} // verus!
