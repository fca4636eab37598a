//! The IPS format: the header `PATCH`, then records until the marker `EOF`.
//!
//! A record is a 24-bit big-endian offset and a 16-bit big-endian size. A
//! size above zero is followed by that many bytes to write at the offset. A
//! size of zero is followed by a 16-bit run length and the byte to repeat.
use vstd::prelude::*;

use crate::bytes::{inline_bytes_contents, read_u16_be, read_u24_be, u16_be, u24_be, InlineBytes};
use crate::{eof_error, error_matches, Error, Failure};

verus! {

/// The bytes `PATCH` that open an IPS file.
pub open spec fn ips_header() -> Seq<u8> {
    seq![0x50u8, 0x41u8, 0x54u8, 0x43u8, 0x48u8]
}

/// The offset that ends the records: the bytes `EOF` read as a big-endian
/// 24-bit integer.
pub open spec fn eof_marker() -> int {
    0x454F46
}

/// An IPS record.
#[derive(Clone, PartialEq, Eq, Debug)]
#[allow(inconsistent_fields)]
pub enum Record {
    /// Record contains new data
    Normal {
        /// The offset the record should be written at
        offset: u32,
        /// The data that should be written
        data: InlineBytes,
    },
    /// Record contains new data in a Run-Length Encoded format
    RLE {
        /// The offset the record should be written at
        offset: u32,
        /// The amount of data that should be written (above zero in a parsed
        /// file)
        size: u16,
        /// The value that should be written
        data: u8,
    },
}

/// The model of a [`Record`]: its data as a sequence.
#[allow(inconsistent_fields)]
pub enum RecordModel {
    Normal { offset: u32, data: Seq<u8> },
    RLE { offset: u32, size: u16, data: u8 },
}

impl RecordModel {
    pub open spec fn offset(self) -> int {
        match self {
            RecordModel::Normal { offset, .. } => offset as int,
            RecordModel::RLE { offset, .. } => offset as int,
        }
    }

    /// The number of bytes the record writes.
    pub open spec fn len(self) -> int {
        match self {
            RecordModel::Normal { data, .. } => data.len() as int,
            RecordModel::RLE { size, .. } => size as int,
        }
    }

    /// The bytes the record writes at its offset.
    pub open spec fn payload(self) -> Seq<u8> {
        match self {
            RecordModel::Normal { data, .. } => data,
            RecordModel::RLE { size, data, .. } => Seq::new(size as nat, |_i: int| data),
        }
    }

    /// The record's length fits in `u16` and its end in `usize`.
    pub open spec fn fits(self) -> bool {
        &&& self.len() <= u16::MAX
        &&& self.offset() + self.len() <= usize::MAX
    }
}

impl View for Record {
    type V = RecordModel;

    open spec fn view(&self) -> RecordModel {
        match self {
            Record::Normal { offset, data } => RecordModel::Normal {
                offset: *offset,
                data: inline_bytes_contents(*data),
            },
            Record::RLE { offset, size, data } => RecordModel::RLE {
                offset: *offset,
                size: *size,
                data: *data,
            },
        }
    }
}

/// The record that starts at `pos`: `None` at the end marker, else the record
/// and the position after it. `reject_empty_run` makes a run of length zero
/// an error, as [`Record::parse`] does; the older [`parse_ips`] accepts it.
pub open spec fn record_at(s: Seq<u8>, pos: int, reject_empty_run: bool) -> Result<
    Option<(RecordModel, int)>,
    Failure,
> {
    if pos < 0 || pos + 3 > s.len() {
        Err(crate::eof_failure())
    } else if u24_be(s, pos) == eof_marker() {
        Ok(None)
    } else if pos + 5 > s.len() {
        Err(crate::eof_failure())
    } else {
        let offset = u24_be(s, pos) as u32;
        let size = u16_be(s, pos + 3);
        if size > 0 {
            if pos + 5 + size > s.len() {
                Err(crate::eof_failure())
            } else {
                Ok(
                    Some(
                        (
                            RecordModel::Normal { offset, data: s.subrange(pos + 5, pos + 5 + size) },
                            pos + 5 + size,
                        ),
                    ),
                )
            }
        } else if pos + 7 > s.len() {
            Err(crate::eof_failure())
        } else if reject_empty_run && u16_be(s, pos + 5) == 0 {
            Err(Failure::ZeroSizedHunk)
        } else if pos + 8 > s.len() {
            Err(crate::eof_failure())
        } else {
            Ok(
                Some(
                    (
                        RecordModel::RLE { offset, size: u16_be(s, pos + 5) as u16, data: s[pos + 7] },
                        pos + 8,
                    ),
                ),
            )
        }
    }
}

/// A record read from a file starts before the 16 MiB mark, writes at most
/// `u16::MAX` bytes, and ends after its start and within the file.
pub proof fn lemma_record_at_bounds(s: Seq<u8>, pos: int, reject_empty_run: bool)
    ensures
        record_at(s, pos, reject_empty_run) matches Ok(Some((r, end))) ==> {
            &&& pos < end <= s.len()
            &&& r.offset() < 0x1000000
            &&& r.len() <= u16::MAX
            &&& r.fits()
            &&& reject_empty_run ==> r.len() > 0
        },
{
    if pos >= 0 && pos + 5 <= s.len() {
        assert(0 <= u24_be(s, pos) < 0x1000000);
        assert(0 <= u16_be(s, pos + 3) <= u16::MAX);
    }
    if pos >= 0 && pos + 7 <= s.len() {
        assert(0 <= u16_be(s, pos + 5) <= u16::MAX);
    }
}

/// The records from `pos` up to the end marker.
pub open spec fn records_from(s: Seq<u8>, pos: int, reject_empty_run: bool) -> Result<
    Seq<RecordModel>,
    Failure,
>
    decreases s.len() - pos,
{
    match record_at(s, pos, reject_empty_run) {
        Err(f) => Err(f),
        Ok(None) => Ok(Seq::empty()),
        Ok(Some((r, end))) => {
            proof {
                lemma_record_at_bounds(s, pos, reject_empty_run);
            }
            match records_from(s, end, reject_empty_run) {
                Ok(rest) => Ok(seq![r] + rest),
                Err(f) => Err(f),
            }
        },
    }
}

/// The records of the IPS file `s`.
pub open spec fn parse_spec(s: Seq<u8>, reject_empty_run: bool) -> Result<Seq<RecordModel>, Failure> {
    if s.len() < 5 {
        Err(crate::eof_failure())
    } else if s.take(5) != ips_header() {
        Err(Failure::InvalidHeader)
    } else {
        records_from(s, 5, reject_empty_run)
    }
}

/// `d` with the record `r` written into it, grown with zeros to the record's
/// end where it is shorter.
pub open spec fn apply_record_spec(d: Seq<u8>, r: RecordModel) -> Seq<u8> {
    let begin = r.offset();
    let end = begin + r.len();
    let base = if end > d.len() {
        d + Seq::new((end - d.len()) as nat, |_i: int| 0u8)
    } else {
        d
    };
    base.take(begin) + r.payload() + base.skip(end)
}

/// `d` with the records written into it in order.
pub open spec fn apply_records_spec(d: Seq<u8>, recs: Seq<RecordModel>) -> Seq<u8>
    decreases recs.len(),
{
    if recs.len() == 0 {
        d
    } else {
        apply_record_spec(apply_records_spec(d, recs.drop_last()), recs.last())
    }
}

/// `r` is the exec result that the spec result `s` describes.
pub open spec fn record_result_matches(
    r: Result<Option<(Record, usize)>, Error>,
    s: Result<Option<(RecordModel, int)>, Failure>,
) -> bool {
    match s {
        Ok(None) => r matches Ok(None),
        Ok(Some((m, end))) => r matches Ok(Some((rec, e))) && rec@ == m && e == end,
        Err(f) => r matches Err(e) && error_matches(e, f),
    }
}

/// `r` is the exec list of records that the spec result `s` describes.
pub open spec fn records_result_matches(
    r: Result<Vec<Record>, Error>,
    s: Result<Seq<RecordModel>, Failure>,
) -> bool {
    match s {
        Ok(m) => r matches Ok(v) && v@.map_values(|x: Record| x@) == m,
        Err(f) => r matches Err(e) && error_matches(e, f),
    }
}

/// Reads the record at `pos`.
fn parse_record(ips: &[u8], pos: usize, reject_empty_run: bool) -> (r: Result<
    Option<(Record, usize)>,
    Error,
>)
    ensures
        record_result_matches(r, record_at(ips@, pos as int, reject_empty_run)),
{
    let s = Ghost(ips@);
    if pos > ips.len() || ips.len() - pos < 3 {
        return Err(eof_error());
    }
    let remaining: usize = ips.len() - pos;
    let offset: u32 = read_u24_be(ips, pos);
    if offset == 0x454F46 {
        return Ok(None);
    }
    if remaining < 5 {
        return Err(eof_error());
    }
    proof {
        assert(0 <= u24_be(s@, pos as int) < 0x1000000);
    }
    let size: u16 = read_u16_be(ips, pos + 3);
    if size > 0 {
        if remaining - 5 < size as usize {
            return Err(eof_error());
        }
        let end: usize = pos + 5 + size as usize;
        let data = InlineBytes::from_slice(&ips[pos + 5..end]);
        Ok(Some((Record::Normal { offset, data }, end)))
    } else {
        if remaining < 7 {
            return Err(eof_error());
        }
        let run: u16 = read_u16_be(ips, pos + 5);
        if reject_empty_run && run == 0 {
            return Err(Error::ZeroSizedHunk);
        }
        if remaining < 8 {
            return Err(eof_error());
        }
        let value: u8 = ips[pos + 7];
        Ok(Some((Record::RLE { offset, size: run, data: value }, pos + 8)))
    }
}

proof fn lemma_records_from_step(s: Seq<u8>, pos: int, reject_empty_run: bool)
    requires
        record_at(s, pos, reject_empty_run) is Ok,
    ensures
        record_at(s, pos, reject_empty_run) matches Ok(Some((r, end))) ==> records_from(
            s,
            pos,
            reject_empty_run,
        ) == (match records_from(s, end, reject_empty_run) {
            Ok(rest) => Ok(seq![r] + rest),
            Err(f) => Err::<Seq<RecordModel>, Failure>(f),
        }),
        record_at(s, pos, reject_empty_run) is Ok && record_at(s, pos, reject_empty_run)->Ok_0 is None
            ==> records_from(s, pos, reject_empty_run) == Ok::<Seq<RecordModel>, Failure>(
            Seq::empty(),
        ),
{
    lemma_record_at_bounds(s, pos, reject_empty_run);
}

/// Reads records from `pos` up to the end marker.
fn parse_records(ips: &[u8], pos: usize, reject_empty_run: bool) -> (r: Result<Vec<Record>, Error>)
    ensures
        records_result_matches(r, records_from(ips@, pos as int, reject_empty_run)),
        r matches Ok(v) ==> forall|k: int| 0 <= k < v@.len() ==> (#[trigger] v@[k])@.fits(),
        reject_empty_run ==> (r matches Ok(v) ==> forall|k: int|
            0 <= k < v@.len() ==> (#[trigger] v@[k])@.len() > 0),
{
    let mut records: Vec<Record> = Vec::new();
    let mut at: usize = pos;
    loop
        invariant
            records_from(ips@, pos as int, reject_empty_run) == (match records_from(
                ips@,
                at as int,
                reject_empty_run,
            ) {
                Ok(rest) => Ok(records@.map_values(|x: Record| x@) + rest),
                Err(f) => Err::<Seq<RecordModel>, Failure>(f),
            }),
            forall|k: int| 0 <= k < records@.len() ==> (#[trigger] records@[k])@.fits(),
            reject_empty_run ==> forall|k: int|
                0 <= k < records@.len() ==> (#[trigger] records@[k])@.len() > 0,
        decreases ips@.len() - at,
    {
        let step = parse_record(ips, at, reject_empty_run);
        proof {
            lemma_record_at_bounds(ips@, at as int, reject_empty_run);
        }
        match step {
            Err(e) => {
                proof {
                    assert(records_from(ips@, at as int, reject_empty_run) is Err);
                }
                return Err(e);
            },
            Ok(None) => {
                proof {
                    lemma_records_from_step(ips@, at as int, reject_empty_run);
                    assert(records@.map_values(|x: Record| x@) + Seq::<RecordModel>::empty()
                        =~= records@.map_values(|x: Record| x@));
                }
                return Ok(records);
            },
            Ok(Some((record, end))) => {
                proof {
                    lemma_records_from_step(ips@, at as int, reject_empty_run);
                }
                let ghost before = records@;
                records.push(record);
                proof {
                    assert(records@.map_values(|x: Record| x@) =~= before.map_values(
                        |x: Record| x@,
                    ).push(record@));
                    match records_from(ips@, end as int, reject_empty_run) {
                        Ok(rest) => {
                            assert(before.map_values(|x: Record| x@) + (seq![record@] + rest)
                                =~= records@.map_values(|x: Record| x@) + rest);
                        },
                        Err(_) => {},
                    }
                    assert forall|k: int| 0 <= k < records@.len() implies (
                    #[trigger] records@[k])@.fits() by {
                        if k < before.len() {
                            assert(records@[k] == before[k]);
                        }
                    }
                    if reject_empty_run {
                        assert forall|k: int| 0 <= k < records@.len() implies (
                        #[trigger] records@[k])@.len() > 0 by {
                            if k < before.len() {
                                assert(records@[k] == before[k]);
                            }
                        }
                    }
                }
                at = end;
            },
        }
    }
}

/// `true` where the first five bytes of `ips` are `PATCH`.
fn has_header(ips: &[u8]) -> (r: bool)
    requires
        ips@.len() >= 5,
    ensures
        r == (ips@.take(5) == ips_header()),
{
    let r = ips[0] == 0x50 && ips[1] == 0x41 && ips[2] == 0x54 && ips[3] == 0x43 && ips[4] == 0x48;
    proof {
        if r {
            assert(ips@.take(5) =~= ips_header());
        } else {
            assert(ips@.take(5) != ips_header()) by {
                if ips@.take(5) == ips_header() {
                    assert(ips@.take(5)[0] == ips@[0]);
                    assert(ips@.take(5)[1] == ips@[1]);
                    assert(ips@.take(5)[2] == ips@[2]);
                    assert(ips@.take(5)[3] == ips@[3]);
                    assert(ips@.take(5)[4] == ips@[4]);
                }
            }
        }
    }
    r
}

fn parse_file(ips: &[u8], reject_empty_run: bool) -> (r: Result<Vec<Record>, Error>)
    ensures
        records_result_matches(r, parse_spec(ips@, reject_empty_run)),
        r matches Ok(v) ==> forall|k: int| 0 <= k < v@.len() ==> (#[trigger] v@[k])@.fits(),
        reject_empty_run ==> (r matches Ok(v) ==> forall|k: int|
            0 <= k < v@.len() ==> (#[trigger] v@[k])@.len() > 0),
{
    if ips.len() < 5 {
        return Err(eof_error());
    }
    if !has_header(ips) {
        return Err(Error::InvalidHeader);
    }
    parse_records(ips, 5, reject_empty_run)
}

impl Record {
    /// Reads the record at the start of `ips`: `None` at the end marker.
    pub fn parse(ips: &[u8]) -> (r: Result<Option<Record>, Error>)
        ensures
            match record_at(ips@, 0, true) {
                Ok(None) => r matches Ok(None),
                Ok(Some((m, _))) => r matches Ok(Some(rec)) && rec@ == m,
                Err(f) => r matches Err(e) && error_matches(e, f),
            },
    {
        match parse_record(ips, 0, true) {
            Ok(Some((record, _))) => Ok(Some(record)),
            Ok(None) => Ok(None),
            Err(e) => Err(e),
        }
    }

    /// Reads the record at `pos` of `ips`: `None` at the end marker, else
    /// the record and the position after it.
    pub fn parse_at(ips: &[u8], pos: usize) -> (r: Result<Option<(Record, usize)>, Error>)
        ensures
            record_result_matches(r, record_at(ips@, pos as int, true)),
    {
        parse_record(ips, pos, true)
    }

    /// Applies a single record: writes it into `data` at its offset, after
    /// growing `data` with zeros to the record's end where it is shorter.
    pub fn apply(&self, data: &mut Vec<u8>)
        requires
            self@.fits(),
        ensures
            final(data)@ == apply_record_spec(old(data)@, self@),
    {
        let begin: usize = self.offset() as usize;
        let len: usize = self.len() as usize;
        let end: usize = begin + len;
        let ghost d = data@;
        if end > data.len() {
            let old_len: usize = data.len();
            while data.len() < end
                invariant
                    old_len <= data@.len() <= end,
                    data@ =~= d + Seq::new((data@.len() - old_len) as nat, |_i: int| 0u8),
                decreases end - data@.len(),
            {
                data.push(0);
            }
        }
        let ghost base = data@;
        proof {
            assert(base =~= (if end > d.len() {
                d + Seq::new((end - d.len()) as nat, |_i: int| 0u8)
            } else {
                d
            }));
        }
        let ghost payload = self@.payload();
        let mut i: usize = 0;
        match self {
            Record::Normal { data: new_data, .. } => {
                let bytes: &[u8] = new_data.as_slice();
                while i < len
                    invariant
                        bytes@ == payload,
                        len == payload.len(),
                        end == begin + len,
                        end <= base.len(),
                        i <= len,
                        data@.len() == base.len(),
                        forall|j: int|
                            0 <= j < data@.len() && (j < begin || j >= begin + i) ==> data@[j]
                                == base[j],
                        forall|j: int| begin <= j < begin + i ==> data@[j] == payload[j - begin],
                    decreases len - i,
                {
                    data.set(begin + i, bytes[i]);
                    i = i + 1;
                }
            },
            Record::RLE { data: value, .. } => {
                while i < len
                    invariant
                        payload == Seq::new(len as nat, |_i: int| *value),
                        end == begin + len,
                        end <= base.len(),
                        i <= len,
                        data@.len() == base.len(),
                        forall|j: int|
                            0 <= j < data@.len() && (j < begin || j >= begin + i) ==> data@[j]
                                == base[j],
                        forall|j: int| begin <= j < begin + i ==> data@[j] == payload[j - begin],
                    decreases len - i,
                {
                    data.set(begin + i, *value);
                    i = i + 1;
                }
            },
        }
        proof {
            assert(data@ =~= base.take(begin as int) + payload + base.skip(end as int));
        }
    }

    /// The size of this record
    pub fn len(&self) -> (r: u16)
        requires
            self@.len() <= u16::MAX,
        ensures
            r == self@.len(),
    {
        match self {
            Record::Normal { data, .. } => data.len() as u16,
            Record::RLE { size, .. } => *size,
        }
    }

    /// The offset this record should be applied at
    pub fn offset(&self) -> (r: u32)
        ensures
            r == self@.offset(),
    {
        match self {
            Record::Normal { offset, .. } => *offset,
            Record::RLE { offset, .. } => *offset,
        }
    }
}

/// Writes the records into `data` in order.
fn apply_all(data: &mut Vec<u8>, records: &Vec<Record>)
    requires
        forall|k: int| 0 <= k < records@.len() ==> (#[trigger] records@[k])@.fits(),
    ensures
        final(data)@ == apply_records_spec(old(data)@, records@.map_values(|x: Record| x@)),
{
    let ghost models = records@.map_values(|x: Record| x@);
    let ghost start = data@;
    let mut i: usize = 0;
    while i < records.len()
        invariant
            models == records@.map_values(|x: Record| x@),
            forall|k: int| 0 <= k < records@.len() ==> (#[trigger] records@[k])@.fits(),
            i <= records@.len(),
            data@ == apply_records_spec(start, models.take(i as int)),
        decreases records@.len() - i,
    {
        records[i].apply(data);
        proof {
            assert(models.take(i + 1).drop_last() =~= models.take(i as int));
            assert(models.take(i + 1).last() == records@[i as int]@);
        }
        i = i + 1;
    }
    proof {
        assert(models.take(records@.len() as int) =~= models);
    }
}

/// A parsed IPS file
#[derive(Debug)]
pub struct File {
    records: Vec<Record>,
}

impl View for File {
    type V = Seq<RecordModel>;

    closed spec fn view(&self) -> Seq<RecordModel> {
        self.records@.map_values(|x: Record| x@)
    }
}

impl File {
    #[verifier::type_invariant]
    spec fn records_fit(self) -> bool {
        forall|k: int| 0 <= k < self.records@.len() ==> (#[trigger] self.records@[k])@.fits()
    }

    /// Parse an IPS file
    pub fn parse(ips: &[u8]) -> (r: Result<File, Error>)
        ensures
            match parse_spec(ips@, true) {
                Ok(m) => r matches Ok(f) && f@ == m,
                Err(fl) => r matches Err(e) && error_matches(e, fl),
            },
    {
        match parse_file(ips, true) {
            Ok(records) => Ok(File { records }),
            Err(e) => Err(e),
        }
    }

    /// Apply the contained IPS records to an input file and generate a patched file
    pub fn apply(&self, input: &[u8]) -> (r: Vec<u8>)
        ensures
            r@ == apply_records_spec(input@, self@),
    {
        proof {
            use_type_invariant(self);
        }
        let mut data = vstd::slice::slice_to_vec(input);
        apply_all(&mut data, &self.records);
        data
    }

    /// Inspect the records contained in this IPS file
    pub fn records(&self) -> (r: &[Record])
        ensures
            r@.map_values(|x: Record| x@) == self@,
    {
        self.records.as_slice()
    }
}

impl Default for File {
    fn default() -> (r: File)
        ensures
            r@ == Seq::<RecordModel>::empty(),
    {
        let r = File { records: Vec::new() };
        proof {
            assert(r@ =~= Seq::<RecordModel>::empty());
        }
        r
    }
}

/// Parses the IPS patch `ips` and writes its records into `data`. Where the
/// patch does not parse, `data` is left as it was.
pub fn apply_ips(data: &mut Vec<u8>, ips: &[u8]) -> (r: Result<(), Error>)
    ensures
        match parse_spec(ips@, false) {
            Ok(m) => r is Ok && final(data)@ == apply_records_spec(old(data)@, m),
            Err(f) => r matches Err(e) && error_matches(e, f) && final(data)@ == old(data)@,
        },
{
    match parse_file(ips, false) {
        Ok(records) => {
            apply_all(data, &records);
            Ok(())
        },
        Err(e) => Err(e),
    }
}

/// Writes `record` into `data` at its offset, after growing `data` with
/// zeros to the record's end where it is shorter.
pub fn apply_record(data: &mut Vec<u8>, record: Record)
    requires
        record@.fits(),
    ensures
        final(data)@ == apply_record_spec(old(data)@, record@),
{
    record.apply(data);
}

/// The records of the IPS patch `ips`. A run of length zero is accepted.
pub fn parse_ips(ips: &[u8]) -> (r: Result<Vec<Record>, Error>)
    ensures
        records_result_matches(r, parse_spec(ips@, false)),
{
    parse_file(ips, false)
}

} // verus!

verus! {

/// Writing a record puts its bytes at its offset and keeps every other byte
/// of the data; a gap between the end of the data and the offset is filled
/// with zeros, and the data grows to the record's end where it was shorter.
pub proof fn lemma_apply_record_effect(d: Seq<u8>, r: RecordModel)
    ensures
        ({
            let out = apply_record_spec(d, r);
            let end = r.offset() + r.len();
            &&& out.len() == (if end > d.len() {
                end
            } else {
                d.len() as int
            })
            &&& out.subrange(r.offset(), end) == r.payload()
            &&& forall|i: int|
                0 <= i < out.len() && !(r.offset() <= i < end) ==> out[i] == (if i < d.len() {
                    d[i]
                } else {
                    0u8
                })
        }),
{
    let out = apply_record_spec(d, r);
    let begin = r.offset();
    let end = begin + r.len();
    assert(r.payload().len() == r.len());
    let base = if end > d.len() {
        d + Seq::new((end - d.len()) as nat, |_i: int| 0u8)
    } else {
        d
    };
    assert(out == base.take(begin) + r.payload() + base.skip(end));
    assert(out.subrange(begin, end) =~= r.payload());
    assert forall|i: int| 0 <= i < out.len() && !(begin <= i < end) implies out[i] == (if i
        < d.len() {
        d[i]
    } else {
        0u8
    }) by {
        if i < begin {
            assert(out[i] == base[i]);
        } else {
            assert(out[i] == base.skip(end)[i - end]);
        }
    }
}

proof fn lemma_record_at_extend(s: Seq<u8>, t: Seq<u8>, pos: int, reject_empty_run: bool)
    requires
        record_at(s, pos, reject_empty_run) is Ok,
    ensures
        record_at(s + t, pos, reject_empty_run) == record_at(s, pos, reject_empty_run),
{
    let st = s + t;
    if pos >= 0 && pos + 3 <= s.len() {
        assert(u24_be(st, pos) == u24_be(s, pos));
        if pos + 5 <= s.len() {
            assert(u16_be(st, pos + 3) == u16_be(s, pos + 3));
            let size = u16_be(s, pos + 3);
            if size > 0 && pos + 5 + size <= s.len() {
                assert(st.subrange(pos + 5, pos + 5 + size) =~= s.subrange(pos + 5, pos + 5 + size));
            }
            if pos + 7 <= s.len() {
                assert(u16_be(st, pos + 5) == u16_be(s, pos + 5));
            }
            if pos + 8 <= s.len() {
                assert(st[pos + 7] == s[pos + 7]);
            }
        }
    }
}

proof fn lemma_records_from_extend(s: Seq<u8>, t: Seq<u8>, pos: int, reject_empty_run: bool)
    requires
        records_from(s, pos, reject_empty_run) is Ok,
    ensures
        records_from(s + t, pos, reject_empty_run) == records_from(s, pos, reject_empty_run),
    decreases s.len() - pos,
{
    lemma_record_at_bounds(s, pos, reject_empty_run);
    lemma_record_at_bounds(s + t, pos, reject_empty_run);
    lemma_record_at_extend(s, t, pos, reject_empty_run);
    if let Ok(Some((_, end))) = record_at(s, pos, reject_empty_run) {
        lemma_records_from_extend(s, t, end, reject_empty_run);
    }
}

/// The bytes after the end marker play no part: a file that parses parses
/// the same with any bytes appended.
pub proof fn lemma_parse_ignores_trailing_bytes(s: Seq<u8>, t: Seq<u8>, reject_empty_run: bool)
    requires
        parse_spec(s, reject_empty_run) is Ok,
    ensures
        parse_spec(s + t, reject_empty_run) == parse_spec(s, reject_empty_run),
{
    assert((s + t).take(5) =~= s.take(5));
    lemma_records_from_extend(s, t, 5, reject_empty_run);
}

/// Every record of a parsed file starts before the 16 MiB mark and writes
/// between one and `u16::MAX` bytes: the run length of a record is never
/// zero.
pub proof fn lemma_parsed_records_nonempty(s: Seq<u8>, pos: int)
    requires
        records_from(s, pos, true) is Ok,
    ensures
        forall|k: int|
            0 <= k < records_from(s, pos, true)->Ok_0.len() ==> {
                let r = #[trigger] records_from(s, pos, true)->Ok_0[k];
                &&& 0 < r.len() <= u16::MAX
                &&& r.offset() < 0x1000000
            },
    decreases s.len() - pos,
{
    lemma_record_at_bounds(s, pos, true);
    if let Ok(Some((r, end))) = record_at(s, pos, true) {
        lemma_parsed_records_nonempty(s, end);
        let rest = records_from(s, end, true)->Ok_0;
        let all = records_from(s, pos, true)->Ok_0;
        assert(all == seq![r] + rest);
        assert forall|k: int| 0 <= k < all.len() implies {
            let x = #[trigger] all[k];
            &&& 0 < x.len() <= u16::MAX
            &&& x.offset() < 0x1000000
        } by {
            if k > 0 {
                assert(all[k] == rest[k - 1]);
            }
        }
    }
}


proof fn lemma_records_from_strict(s: Seq<u8>, pos: int)
    requires
        records_from(s, pos, true) is Ok,
    ensures
        records_from(s, pos, false) == records_from(s, pos, true),
    decreases s.len() - pos,
{
    lemma_record_at_bounds(s, pos, true);
    assert(record_at(s, pos, false) == record_at(s, pos, true));
    if let Ok(Some((_, end))) = record_at(s, pos, true) {
        lemma_records_from_strict(s, end);
    }
}

/// Where [`File::parse`] accepts a patch, [`parse_ips`] reads the same
/// records from it, so that [`apply_ips`] writes what [`File::apply`] makes.
pub proof fn lemma_strict_parse_agrees(s: Seq<u8>)
    requires
        parse_spec(s, true) is Ok,
    ensures
        parse_spec(s, false) == parse_spec(s, true),
{
    if s.len() >= 5 && s.take(5) == ips_header() {
        lemma_records_from_strict(s, 5);
    }
}


/// The three big-endian bytes of `x`, below 2^24.
pub open spec fn u24_be_bytes(x: int) -> Seq<u8> {
    seq![(x / 65536) as u8, ((x / 256) % 256) as u8, (x % 256) as u8]
}

/// The two big-endian bytes of `x`, below 2^16.
pub open spec fn u16_be_bytes(x: int) -> Seq<u8> {
    seq![(x / 256) as u8, (x % 256) as u8]
}

proof fn lemma_u24_be_bytes(x: int, rest: Seq<u8>)
    requires
        0 <= x < 0x1000000,
    ensures
        u24_be(u24_be_bytes(x) + rest, 0) == x,
        (u24_be_bytes(x) + rest).len() == rest.len() + 3,
{
    let s = u24_be_bytes(x) + rest;
    assert(s[0] == x / 65536);
    assert(s[1] == (x / 256) % 256);
    assert(s[2] == x % 256);
}

proof fn lemma_u16_be_bytes(x: int, pre: Seq<u8>, rest: Seq<u8>)
    requires
        0 <= x < 0x10000,
    ensures
        u16_be(pre + u16_be_bytes(x) + rest, pre.len() as int) == x,
{
    let s = pre + u16_be_bytes(x) + rest;
    assert(s[pre.len() as int] == x / 256);
    assert(s[pre.len() as int + 1] == x % 256);
}

/// A record with a size above zero is a normal record: it is read back with
/// its offset and its bytes, whatever its size up to `u16::MAX` and
/// whatever follows it.
pub proof fn lemma_normal_record_roundtrip(offset: u32, d: Seq<u8>, rest: Seq<u8>, reject_empty_run: bool)
    requires
        offset < 0x1000000,
        offset != eof_marker(),
        1 <= d.len() <= u16::MAX,
    ensures
        record_at(u24_be_bytes(offset as int) + u16_be_bytes(d.len() as int) + d + rest, 0, reject_empty_run)
            == Ok::<Option<(RecordModel, int)>, Failure>(
            Some((RecordModel::Normal { offset, data: d }, 5 + d.len() as int)),
        ),
{
    let head = u24_be_bytes(offset as int);
    let s = head + u16_be_bytes(d.len() as int) + d + rest;
    lemma_u24_be_bytes(offset as int, u16_be_bytes(d.len() as int) + d + rest);
    assert(s =~= head + (u16_be_bytes(d.len() as int) + d + rest));
    lemma_u16_be_bytes(d.len() as int, head, d + rest);
    assert(s =~= head + u16_be_bytes(d.len() as int) + (d + rest));
    assert(s.subrange(5, 5 + d.len() as int) =~= d);
}

/// A record with a size of zero is a run: it is read back with its offset,
/// its run length and its byte, whatever follows it.
pub proof fn lemma_run_record_roundtrip(
    offset: u32,
    size: u16,
    value: u8,
    rest: Seq<u8>,
    reject_empty_run: bool,
)
    requires
        offset < 0x1000000,
        offset != eof_marker(),
        reject_empty_run ==> size > 0,
    ensures
        record_at(
            u24_be_bytes(offset as int) + u16_be_bytes(0) + u16_be_bytes(size as int) + seq![value]
                + rest,
            0,
            reject_empty_run,
        ) == Ok::<Option<(RecordModel, int)>, Failure>(
            Some((RecordModel::RLE { offset, size, data: value }, 8)),
        ),
{
    let head = u24_be_bytes(offset as int);
    let s = head + u16_be_bytes(0) + u16_be_bytes(size as int) + seq![value] + rest;
    lemma_u24_be_bytes(offset as int, u16_be_bytes(0) + u16_be_bytes(size as int) + seq![value] + rest);
    assert(s =~= head + (u16_be_bytes(0) + u16_be_bytes(size as int) + seq![value] + rest));
    lemma_u16_be_bytes(0, head, u16_be_bytes(size as int) + seq![value] + rest);
    assert(s =~= head + u16_be_bytes(0) + (u16_be_bytes(size as int) + seq![value] + rest));
    lemma_u16_be_bytes(size as int, head + u16_be_bytes(0), seq![value] + rest);
    assert(s =~= (head + u16_be_bytes(0)) + u16_be_bytes(size as int) + (seq![value] + rest));
    assert(s[7] == value);
}

/// The end marker ends the records, whatever follows it.
pub proof fn lemma_end_marker(rest: Seq<u8>, reject_empty_run: bool)
    ensures
        record_at(u24_be_bytes(eof_marker()) + rest, 0, reject_empty_run) == Ok::<
            Option<(RecordModel, int)>,
            Failure,
        >(None),
{
    lemma_u24_be_bytes(eof_marker(), rest);
}

/// Records are written in file order: writing one more record writes it
/// over what the records before it made, and no records leave the data as
/// it is.
pub proof fn lemma_records_in_order(d: Seq<u8>, recs: Seq<RecordModel>, r: RecordModel)
    ensures
        apply_records_spec(d, Seq::empty()) == d,
        apply_records_spec(d, recs.push(r)) == apply_record_spec(apply_records_spec(d, recs), r),
{
    assert(recs.push(r).drop_last() =~= recs);
}

/// Where records overlap, the last one wins: after writing `recs` then `r`,
/// the bytes at `r`'s offset are `r`'s, and every other byte is what the
/// records before it made (or a zero that grows the data).
pub proof fn lemma_last_record_wins(d: Seq<u8>, recs: Seq<RecordModel>, r: RecordModel)
    ensures
        ({
            let before = apply_records_spec(d, recs);
            let out = apply_records_spec(d, recs.push(r));
            &&& out.subrange(r.offset(), r.offset() + r.len()) == r.payload()
            &&& forall|i: int|
                0 <= i < out.len() && !(r.offset() <= i < r.offset() + r.len()) ==> out[i] == (if i
                    < before.len() {
                    before[i]
                } else {
                    0u8
                })
        }),
{
    lemma_records_in_order(d, recs, r);
    lemma_apply_record_effect(apply_records_spec(d, recs), r);
}

} // verus!
