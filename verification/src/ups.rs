//! The UPS format: the header `UPS1`, the input and output sizes as
//! variable-length integers, the records, then three little-endian CRC-32s:
//! of the input, of the output, and of the patch before this last one.
//!
//! A record skips a number of bytes, copied from the input, then holds bytes
//! up to and including a zero byte, which are XORed with the input. The last
//! record's closing zero is not part of its data.
use vstd::prelude::*;

use crate::bytes::{inline_bytes_contents, read_u32_le, u32_le, InlineBytes};
use crate::varint::{lemma_uvar_advances, read_uvar, uvar_at};
use crate::{crc32, crc32_checksum, eof_error, error_matches, result_matches, Error, Failure};

verus! {

/// The bytes `UPS1` that open a UPS file.
pub open spec fn ups_header() -> Seq<u8> {
    seq![0x55u8, 0x50u8, 0x53u8, 0x31u8]
}

/// A UPS record
#[derive(Clone, PartialEq, Eq, Debug)]
pub struct Record {
    skip: usize,
    data: InlineBytes,
}

/// The model of a [`Record`].
pub struct RecordModel {
    /// The number of bytes copied from the input before the data.
    pub skip: usize,
    /// The bytes XORed with the input after the skipped ones.
    pub data: Seq<u8>,
}

impl View for Record {
    type V = RecordModel;

    closed spec fn view(&self) -> RecordModel {
        RecordModel { skip: self.skip, data: inline_bytes_contents(self.data) }
    }
}

/// The first position at or after `pos` that holds a zero byte.
pub open spec fn zero_from(s: Seq<u8>, pos: int) -> Option<int>
    decreases s.len() - pos,
{
    if pos < 0 || pos >= s.len() {
        None
    } else if s[pos] == 0 {
        Some(pos)
    } else {
        zero_from(s, pos + 1)
    }
}

pub proof fn lemma_zero_from(s: Seq<u8>, pos: int)
    requires
        0 <= pos,
    ensures
        zero_from(s, pos) matches Some(z) ==> pos <= z < s.len() && s[z] == 0 && forall|j: int|
            pos <= j < z ==> s[j] != 0,
        zero_from(s, pos) is None ==> forall|j: int| pos <= j < s.len() ==> s[j] != 0,
    decreases s.len() - pos,
{
    if pos < s.len() && s[pos] != 0 {
        lemma_zero_from(s, pos + 1);
    }
}

/// The record that starts at `pos`, and the position after it.
pub open spec fn record_at(s: Seq<u8>, pos: int) -> Result<(RecordModel, int), Failure> {
    match uvar_at(s, pos) {
        Err(f) => Err(f),
        Ok((skip, p)) => if skip > usize::MAX {
            Err(Failure::VariableIntegerOverflow("Record 'skip' size"@))
        } else {
            match zero_from(s, p) {
                None => Err(crate::eof_failure()),
                Some(z) => Ok((RecordModel { skip: skip as usize, data: s.subrange(p, z + 1) }, z + 1)),
            }
        },
    }
}

pub proof fn lemma_record_at_advances(s: Seq<u8>, pos: int)
    ensures
        record_at(s, pos) matches Ok((r, end)) ==> pos < end <= s.len() && r.data.len() >= 1,
{
    lemma_uvar_advances(s, pos, 0, 1);
    if let Ok((_, p)) = uvar_at(s, pos) {
        lemma_zero_from(s, p);
    }
}

/// The records from `pos` up to `end`.
pub open spec fn records_from(s: Seq<u8>, pos: int, end: int) -> Result<Seq<RecordModel>, Failure>
    decreases s.len() - pos,
{
    if pos >= end {
        Ok(Seq::empty())
    } else {
        match record_at(s, pos) {
            Err(f) => Err(f),
            Ok((r, next)) => {
                proof {
                    lemma_record_at_advances(s, pos);
                }
                match records_from(s, next, end) {
                    Ok(rest) => Ok(seq![r] + rest),
                    Err(f) => Err(f),
                }
            },
        }
    }
}

/// The records with the last byte of the last record's data removed: the
/// zero that closes it.
pub open spec fn without_last_terminator(recs: Seq<RecordModel>) -> Seq<RecordModel> {
    if recs.len() == 0 {
        recs
    } else {
        recs.update(
            recs.len() - 1,
            RecordModel { skip: recs.last().skip, data: recs.last().data.drop_last() },
        )
    }
}

/// The model of a [`File`].
pub struct FileModel {
    pub input_size: u64,
    pub output_size: u64,
    pub records: Seq<RecordModel>,
    pub input_checksum: u32,
    pub output_checksum: u32,
}

/// The UPS file `s`.
pub open spec fn parse_spec(s: Seq<u8>) -> Result<FileModel, Failure> {
    if s.len() < 4 {
        Err(crate::eof_failure())
    } else if s.take(4) != ups_header() {
        Err(Failure::InvalidHeader)
    } else {
        match uvar_at(s, 4) {
            Err(f) => Err(f),
            Ok((input_size, p1)) => if input_size > u64::MAX {
                Err(Failure::VariableIntegerOverflow("input filesize"@))
            } else {
                match uvar_at(s, p1) {
                    Err(f) => Err(f),
                    Ok((output_size, p2)) => if output_size > u64::MAX {
                        Err(Failure::VariableIntegerOverflow("output filesize"@))
                    } else if s.len() < 12 {
                        Err(crate::seek_failure())
                    } else if u32_le(s, s.len() - 4) != crc32_checksum(s.take(s.len() - 4)) {
                        Err(
                            Failure::InvalidInputChecksum {
                                expected: u32_le(s, s.len() - 4) as u32,
                                actual: crc32_checksum(s.take(s.len() - 4)),
                            },
                        )
                    } else {
                        match records_from(s, p2, s.len() - 12) {
                            Err(f) => Err(f),
                            Ok(recs) => Ok(
                                FileModel {
                                    input_size: input_size as u64,
                                    output_size: output_size as u64,
                                    records: without_last_terminator(recs),
                                    input_checksum: u32_le(s, s.len() - 12) as u32,
                                    output_checksum: u32_le(s, s.len() - 8) as u32,
                                },
                            ),
                        }
                    },
                }
            },
        }
    }
}

/// The input byte at `i`, or zero past the end of the input.
pub open spec fn input_byte(input: Seq<u8>, i: int) -> u8 {
    if 0 <= i < input.len() {
        input[i]
    } else {
        0
    }
}

/// The bytes that the record `r` writes when the input is read from `pos`:
/// the skipped input bytes, then the data XORed with the input bytes after
/// them.
pub open spec fn produced(input: Seq<u8>, pos: int, r: RecordModel) -> Seq<u8> {
    Seq::new(r.skip as nat, |k: int| input_byte(input, pos + k)) + Seq::new(
        r.data.len(),
        |k: int| r.data[k] ^ input_byte(input, pos + r.skip + k),
    )
}

/// The input position after the record `r`: reading stops at the end of the
/// input.
pub open spec fn position_after(input: Seq<u8>, pos: int, r: RecordModel) -> int {
    if pos + r.skip + r.data.len() < input.len() {
        pos + r.skip + r.data.len()
    } else {
        input.len() as int
    }
}

/// The bytes that the records write in order from the start of the input,
/// and the input position after them.
pub open spec fn run(input: Seq<u8>, recs: Seq<RecordModel>) -> (Seq<u8>, int)
    decreases recs.len(),
{
    if recs.len() == 0 {
        (Seq::empty(), 0)
    } else {
        let (w, p) = run(input, recs.drop_last());
        (w + produced(input, p, recs.last()), position_after(input, p, recs.last()))
    }
}

/// `out` with `w` written over it from its start.
pub open spec fn overwrite(out: Seq<u8>, w: Seq<u8>) -> Seq<u8> {
    if w.len() >= out.len() {
        w
    } else {
        w + out.skip(w.len() as int)
    }
}

/// The result of applying the file `f` to `input` with the output holding
/// `out` at its start, and the output after it. The output is written from
/// its start, over what it held.
pub open spec fn apply_spec(f: FileModel, input: Seq<u8>, out: Seq<u8>) -> (
    Result<(), Failure>,
    Seq<u8>,
) {
    if input.len() != f.input_size {
        (Err(Failure::InvalidInputSize { expected: f.input_size, actual: input.len() as u64 }), out)
    } else if crc32_checksum(input) != f.input_checksum {
        (
            Err(
                Failure::InvalidInputChecksum {
                    expected: f.input_checksum,
                    actual: crc32_checksum(input),
                },
            ),
            out,
        )
    } else {
        let w = run(input, f.records).0;
        let written = overwrite(out, w);
        if w.len() != f.output_size {
            (
                Err(
                    Failure::InvalidOutputSize { expected: f.output_size, actual: w.len() as u64 },
                ),
                written,
            )
        } else if crc32_checksum(written) != f.output_checksum {
            (
                Err(
                    Failure::InvalidOutputChecksum {
                        expected: f.output_checksum,
                        actual: crc32_checksum(written),
                    },
                ),
                written,
            )
        } else {
            (Ok(()), written)
        }
    }
}

impl Record {
    /// Reads the record at `pos`: the record and the position after it.
    fn parse(ups: &[u8], pos: usize) -> (r: Result<(Record, usize), Error>)
        ensures
            match record_at(ups@, pos as int) {
                Ok((m, end)) => r matches Ok((rec, e)) && rec@ == m && e == end,
                Err(f) => r matches Err(e) && error_matches(e, f),
            },
    {
        let (skip, start) = match read_uvar(ups, pos) {
            Ok(v) => v,
            Err(e) => {
                return Err(e);
            },
        };
        if skip > usize::MAX as u128 {
            return Err(Error::VariableIntegerOverflow("Record 'skip' size"));
        }
        let mut data = InlineBytes::new();
        let mut i: usize = start;
        proof {
            lemma_uvar_advances(ups@, pos as int, 0, 1);
        }
        loop
            invariant_except_break
                forall|j: int| start <= j < i ==> ups@[j] != 0,
                zero_from(ups@, start as int) == zero_from(ups@, i as int),
            invariant
                start <= i <= ups@.len(),
                inline_bytes_contents(data) == ups@.subrange(start as int, i as int),
                uvar_at(ups@, pos as int) == Ok::<(int, int), Failure>((skip as int, start as int)),
                skip <= usize::MAX,
            ensures
                start < i,
                zero_from(ups@, start as int) == Some(i - 1),
            decreases ups@.len() - i,
        {
            if i >= ups.len() {
                proof {
                    assert(zero_from(ups@, i as int) is None);
                    assert(skip <= usize::MAX);
                    assert(record_at(ups@, pos as int) == Err::<(RecordModel, int), Failure>(
                        crate::eof_failure(),
                    ));
                }
                return Err(eof_error());
            }
            let value: u8 = ups[i];
            data.push(value);
            i = i + 1;
            proof {
                assert(inline_bytes_contents(data) =~= ups@.subrange(start as int, i as int));
            }
            if value == 0 {
                break;
            }
        }
        Ok((Record { skip: skip as usize, data }, i))
    }

    /// Applies a single record: appends to `output` the skipped input bytes,
    /// then the data XORed with the input bytes after them, reading `input`
    /// from `pos` and zeros past its end. Returns the input position after
    /// the record.
    pub fn apply(&self, input: &[u8], pos: usize, output: &mut Vec<u8>) -> (r: usize)
        requires
            pos <= input@.len(),
        ensures
            final(output)@ == old(output)@ + produced(input@, pos as int, self@),
            r == position_after(input@, pos as int, self@),
    {
        let ghost out0 = output@;
        let ghost m = self@;
        let mut at: usize = pos;
        let mut k: usize = 0;
        while k < self.skip
            invariant
                m == self@,
                k <= m.skip,
                at as int == (if pos + k < input@.len() {
                    pos + k
                } else {
                    input@.len() as int
                }),
                output@ == out0 + Seq::new(k as nat, |j: int| input_byte(input@, pos + j)),
            decreases m.skip - k,
        {
            let b: u8 = if at < input.len() {
                input[at]
            } else {
                0
            };
            output.push(b);
            if at < input.len() {
                at = at + 1;
            }
            proof {
                assert(output@ =~= out0 + Seq::new((k + 1) as nat, |j: int| input_byte(input@, pos + j)));
            }
            k = k + 1;
        }
        let ghost mid = output@;
        let bytes: &[u8] = self.data.as_slice();
        let mut k: usize = 0;
        while k < bytes.len()
            invariant
                m == self@,
                bytes@ == m.data,
                k <= m.data.len(),
                at as int == (if pos + m.skip + k < input@.len() {
                    pos + m.skip + k
                } else {
                    input@.len() as int
                }),
                mid == out0 + Seq::new(m.skip as nat, |j: int| input_byte(input@, pos + j)),
                output@ == mid + Seq::new(
                    k as nat,
                    |j: int| m.data[j] ^ input_byte(input@, pos + m.skip + j),
                ),
            decreases m.data.len() - k,
        {
            let b: u8 = if at < input.len() {
                input[at]
            } else {
                0
            };
            output.push(bytes[k] ^ b);
            if at < input.len() {
                at = at + 1;
            }
            proof {
                assert(output@ =~= mid + Seq::new(
                    (k + 1) as nat,
                    |j: int| m.data[j] ^ input_byte(input@, pos + m.skip + j),
                ));
            }
            k = k + 1;
        }
        proof {
            assert(output@ =~= out0 + produced(input@, pos as int, m));
        }
        at
    }

    /// The size of this record's skip value
    pub fn skip_len(&self) -> (r: usize)
        ensures
            r == self@.skip,
    {
        self.skip
    }

    /// The size of this record's data payload
    pub fn len(&self) -> (r: usize)
        ensures
            r == self@.data.len(),
    {
        self.data.len()
    }
}

/// A parsed UPS file
#[derive(Debug)]
pub struct File {
    input_size: u64,
    output_size: u64,
    records: Vec<Record>,
    input_checksum: u32,
    output_checksum: u32,
}

impl View for File {
    type V = FileModel;

    closed spec fn view(&self) -> FileModel {
        FileModel {
            input_size: self.input_size,
            output_size: self.output_size,
            records: self.records@.map_values(|x: Record| x@),
            input_checksum: self.input_checksum,
            output_checksum: self.output_checksum,
        }
    }
}

/// `true` where the first four bytes of `ups` are `UPS1`.
fn has_header(ups: &[u8]) -> (r: bool)
    requires
        ups@.len() >= 4,
    ensures
        r == (ups@.take(4) == ups_header()),
{
    let r = ups[0] == 0x55 && ups[1] == 0x50 && ups[2] == 0x53 && ups[3] == 0x31;
    proof {
        if r {
            assert(ups@.take(4) =~= ups_header());
        } else if ups@.take(4) == ups_header() {
            assert(ups@.take(4)[0] == ups@[0]);
            assert(ups@.take(4)[1] == ups@[1]);
            assert(ups@.take(4)[2] == ups@[2]);
            assert(ups@.take(4)[3] == ups@[3]);
        }
    }
    r
}

/// Reads the records from `pos` while the position is before `end`.
fn parse_records(ups: &[u8], pos: usize, end: usize) -> (r: Result<Vec<Record>, Error>)
    ensures
        match records_from(ups@, pos as int, end as int) {
            Ok(m) => r matches Ok(v) && v@.map_values(|x: Record| x@) == m,
            Err(f) => r matches Err(e) && error_matches(e, f),
        },
        r matches Ok(v) ==> forall|k: int| 0 <= k < v@.len() ==> (#[trigger] v@[k])@.data.len() >= 1,
{
    let mut records: Vec<Record> = Vec::new();
    let mut at: usize = pos;
    while at < end
        invariant
            records_from(ups@, pos as int, end as int) == (match records_from(
                ups@,
                at as int,
                end as int,
            ) {
                Ok(rest) => Ok(records@.map_values(|x: Record| x@) + rest),
                Err(f) => Err::<Seq<RecordModel>, Failure>(f),
            }),
            forall|k: int| 0 <= k < records@.len() ==> (#[trigger] records@[k])@.data.len() >= 1,
        decreases ups@.len() - at,
    {
        proof {
            lemma_record_at_advances(ups@, at as int);
        }
        let (record, next) = match Record::parse(ups, at) {
            Ok(v) => v,
            Err(e) => {
                return Err(e);
            },
        };
        let ghost before = records@;
        records.push(record);
        proof {
            assert(records@.map_values(|x: Record| x@) =~= before.map_values(|x: Record| x@).push(
                record@,
            ));
            match records_from(ups@, next as int, end as int) {
                Ok(rest) => {
                    assert(before.map_values(|x: Record| x@) + (seq![record@] + rest)
                        =~= records@.map_values(|x: Record| x@) + rest);
                },
                Err(_) => {},
            }
            assert forall|k: int| 0 <= k < records@.len() implies (#[trigger] records@[k])@.data.len()
                >= 1 by {
                if k < before.len() {
                    assert(records@[k] == before[k]);
                }
            }
        }
        at = next;
    }
    proof {
        assert(records@.map_values(|x: Record| x@) + Seq::<RecordModel>::empty()
            =~= records@.map_values(|x: Record| x@));
    }
    Ok(records)
}

impl File {
    /// Parse a UPS file
    pub fn parse(ups: &[u8]) -> (r: Result<File, Error>)
        ensures
            match parse_spec(ups@) {
                Ok(m) => r matches Ok(f) && f@ == m,
                Err(fl) => r matches Err(e) && error_matches(e, fl),
            },
    {
        if ups.len() < 4 {
            return Err(eof_error());
        }
        if !has_header(ups) {
            return Err(Error::InvalidHeader);
        }
        let (input_size, p1) = match read_uvar(ups, 4) {
            Ok(v) => v,
            Err(e) => {
                return Err(e);
            },
        };
        if input_size > u64::MAX as u128 {
            return Err(Error::VariableIntegerOverflow("input filesize"));
        }
        let (output_size, record_start) = match read_uvar(ups, p1) {
            Ok(v) => v,
            Err(e) => {
                return Err(e);
            },
        };
        if output_size > u64::MAX as u128 {
            return Err(Error::VariableIntegerOverflow("output filesize"));
        }
        if ups.len() < 12 {
            return Err(crate::seek_error());
        }
        let record_end: usize = ups.len() - 12;
        let input_checksum: u32 = read_u32_le(ups, record_end);
        let output_checksum: u32 = read_u32_le(ups, record_end + 4);
        let checksum_end: usize = record_end + 8;
        let patch_checksum: u32 = read_u32_le(ups, checksum_end);
        let actual_checksum: u32 = crate::crc32_length(ups, Some(checksum_end));
        if patch_checksum != actual_checksum {
            return Err(Error::InvalidInputChecksum { expected: patch_checksum, actual: actual_checksum });
        }
        let mut records = match parse_records(ups, record_start, record_end) {
            Ok(v) => v,
            Err(e) => {
                return Err(e);
            },
        };
        let ghost parsed = records@.map_values(|x: Record| x@);
        let ghost before = records@;
        if records.len() > 0 {
            let mut last = records.pop().unwrap();
            proof {
                assert(last == before.last());
                assert(last@ == parsed.last());
            }
            let _ = last.data.pop();
            records.push(last);
            proof {
                assert(records@ == before.drop_last().push(last));
                assert forall|k: int| 0 <= k < records@.len() implies records@.map_values(
                    |x: Record| x@,
                )[k] == without_last_terminator(parsed)[k] by {
                    if k < records@.len() - 1 {
                        assert(records@[k] == before[k]);
                    }
                }
            }
        }
        proof {
            assert(records@.map_values(|x: Record| x@) =~= without_last_terminator(parsed));
        }
        Ok(
            File {
                input_size: input_size as u64,
                output_size: output_size as u64,
                records,
                input_checksum,
                output_checksum,
            },
        )
    }

    /// Apply the contained UPS records to `input`, writing the patched bytes
    /// over `output` from its start. The sizes and checksums of the input and
    /// of the output are checked against the patch.
    pub fn apply(&self, input: &[u8], output: &mut Vec<u8>) -> (r: Result<(), Error>)
        ensures
            result_matches(r, apply_spec(self@, input@, old(output)@).0),
            final(output)@ == apply_spec(self@, input@, old(output)@).1,
    {
        let ghost f = self@;
        let input_size: u64 = input.len() as u64;
        if self.input_size != input_size {
            return Err(Error::InvalidInputSize { expected: self.input_size, actual: input_size });
        }
        let input_checksum: u32 = crc32(input);
        if self.input_checksum != input_checksum {
            return Err(Error::InvalidInputChecksum { expected: self.input_checksum, actual: input_checksum });
        }
        let mut written: Vec<u8> = Vec::new();
        let mut at: usize = 0;
        let mut i: usize = 0;
        while i < self.records.len()
            invariant
                f == self@,
                i <= self.records@.len(),
                at <= input@.len(),
                (written@, at as int) == run(input@, f.records.take(i as int)),
            decreases self.records@.len() - i,
        {
            proof {
                assert(f.records.take(i + 1).drop_last() =~= f.records.take(i as int));
                assert(f.records.take(i + 1).last() == self.records@[i as int]@);
            }
            at = self.records[i].apply(input, at, &mut written);
            i = i + 1;
        }
        proof {
            assert(f.records.take(self.records@.len() as int) =~= f.records);
        }
        let ghost old_out = output@;
        let mut k: usize = 0;
        while k < written.len()
            invariant
                k <= written@.len(),
                output@ == overwrite(old_out, written@.take(k as int)),
            decreases written@.len() - k,
        {
            if k < output.len() {
                output.set(k, written[k]);
            } else {
                output.push(written[k]);
            }
            proof {
                assert(output@ =~= overwrite(old_out, written@.take(k + 1)));
            }
            k = k + 1;
        }
        proof {
            assert(written@.take(written@.len() as int) =~= written@);
            assert(overwrite(old_out, written@.take(0)) =~= old_out) by {
                assert(written@.take(0) =~= Seq::<u8>::empty());
            }
        }
        let output_size: u64 = written.len() as u64;
        if self.output_size != output_size {
            return Err(Error::InvalidOutputSize { expected: self.output_size, actual: output_size });
        }
        let output_checksum: u32 = crc32(output.as_slice());
        if self.output_checksum != output_checksum {
            return Err(
                Error::InvalidOutputChecksum { expected: self.output_checksum, actual: output_checksum },
            );
        }
        Ok(())
    }

    /// Inspect the records contained in this UPS file
    pub fn records(&self) -> (r: &[Record])
        ensures
            r@.map_values(|x: Record| x@) == self@.records,
    {
        self.records.as_slice()
    }
}

impl Default for File {
    fn default() -> (r: File)
        ensures
            r@ == (FileModel {
                input_size: 0,
                output_size: 0,
                records: Seq::empty(),
                input_checksum: 0,
                output_checksum: 0,
            }),
    {
        let r = File {
            input_size: 0,
            output_size: 0,
            records: Vec::new(),
            input_checksum: 0,
            output_checksum: 0,
        };
        proof {
            assert(r@.records =~= Seq::<RecordModel>::empty());
        }
        r
    }
}

} // verus!

verus! {

/// The number of bytes the records write: for each, its skip and its data.
pub open spec fn total_len(recs: Seq<RecordModel>) -> int
    decreases recs.len(),
{
    if recs.len() == 0 {
        0
    } else {
        total_len(recs.drop_last()) + recs.last().skip + recs.last().data.len()
    }
}

/// A record writes its skip and its data: the skipped input bytes as they
/// are, and each data byte XORed with the input byte at its place, so that
/// the data byte is the difference between input and output.
pub proof fn lemma_produced(input: Seq<u8>, pos: int, r: RecordModel)
    ensures
        produced(input, pos, r).len() == r.skip + r.data.len(),
        forall|k: int|
            0 <= k < r.skip ==> #[trigger] produced(input, pos, r)[k] == input_byte(input, pos + k),
        forall|k: int|
            0 <= k < r.data.len() ==> #[trigger] produced(input, pos, r)[r.skip + k] ^ input_byte(
                input,
                pos + r.skip + k,
            ) == r.data[k],
{
    assert forall|k: int| 0 <= k < r.data.len() implies #[trigger] produced(input, pos, r)[r.skip
        + k] ^ input_byte(input, pos + r.skip + k) == r.data[k] by {
        let d = r.data[k];
        let b = input_byte(input, pos + r.skip + k);
        assert(produced(input, pos, r)[r.skip + k] == d ^ b);
        assert((d ^ b) ^ b == d) by (bit_vector);
    }
}

/// The records write, in all, the sum of their skips and data lengths.
pub proof fn lemma_run_len(input: Seq<u8>, recs: Seq<RecordModel>)
    ensures
        run(input, recs).0.len() == total_len(recs),
    decreases recs.len(),
{
    if recs.len() > 0 {
        lemma_run_len(input, recs.drop_last());
        lemma_produced(input, run(input, recs.drop_last()).1, recs.last());
    }
}

/// A patch applies only where the input has the size and checksum the patch
/// names, and the output it writes has the size and checksum the patch names.
pub proof fn lemma_apply_checks(f: FileModel, input: Seq<u8>, out: Seq<u8>)
    ensures
        apply_spec(f, input, out).0 is Ok ==> {
            &&& input.len() == f.input_size
            &&& crc32_checksum(input) == f.input_checksum
            &&& total_len(f.records) == f.output_size
            &&& apply_spec(f, input, out).1.take(f.output_size as int) == run(input, f.records).0
            &&& crc32_checksum(apply_spec(f, input, out).1) == f.output_checksum
        },
{
    lemma_run_len(input, f.records);
    let w = run(input, f.records).0;
    let written = overwrite(out, w);
    assert(written.take(w.len() as int) =~= w);
}

/// A patch parses only where it starts with `UPS1` and its last four bytes
/// are the checksum of the bytes before them.
pub proof fn lemma_parse_checks(s: Seq<u8>)
    ensures
        parse_spec(s) is Ok ==> {
            &&& s.len() >= 12
            &&& s.take(4) == ups_header()
            &&& u32_le(s, s.len() - 4) == crc32_checksum(s.take(s.len() - 4))
        },
{
}


proof fn lemma_zero_from_at(s: Seq<u8>, p: int, k: int)
    requires
        0 <= p <= k < s.len(),
        s[k] == 0,
        forall|j: int| p <= j < k ==> s[j] != 0,
    ensures
        zero_from(s, p) == Some(k),
    decreases k - p,
{
    if p < k {
        lemma_zero_from_at(s, p + 1, k);
    }
}

/// A record is read back with its skip and its data, closing zero
/// included, for every skip that fits in `usize` and every data without a
/// zero byte, whatever follows it.
pub proof fn lemma_record_roundtrip(skip: usize, d: Seq<u8>, rest: Seq<u8>)
    requires
        forall|i: int| 0 <= i < d.len() ==> d[i] != 0,
    ensures
        record_at(crate::varint::uvar_encoding(skip as nat) + d + seq![0u8] + rest, 0) == Ok::<
            (RecordModel, int),
            Failure,
        >(
            (
                RecordModel { skip, data: d + seq![0u8] },
                (crate::varint::uvar_encoding(skip as nat).len() + d.len() + 1) as int,
            ),
        ),
{
    let enc = crate::varint::uvar_encoding(skip as nat);
    let s = enc + d + seq![0u8] + rest;
    crate::varint::lemma_uvar_roundtrip(skip as u128, d + seq![0u8] + rest);
    assert(s =~= enc + (d + seq![0u8] + rest));
    let p = enc.len() as int;
    let k = p + d.len();
    assert forall|j: int| p <= j < k implies s[j] != 0 by {
        assert(s[j] == d[j - p]);
    }
    assert(s[k] == 0);
    lemma_zero_from_at(s, p, k);
    assert(s.subrange(p, k + 1) =~= d + seq![0u8]);
}

} // verus!
