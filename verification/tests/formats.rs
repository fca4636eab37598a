use umbral_patcher::bytes::InlineBytes;
use umbral_patcher::paths::{extension_to_format, generate_output_name, PatchFormat};
use umbral_patcher::{bps, crc32, crc32_length, ips, ups, varint, Error};

fn uvar(mut data: u128) -> Vec<u8> {
    let mut ret = Vec::new();
    loop {
        let x = (data & 0x7F) as u8;
        data >>= 7;
        if data == 0 {
            ret.push(0x80 | x);
            return ret;
        }
        ret.push(x);
        data -= 1;
    }
}

fn checksum(data: &[u8]) -> u32 {
    crc::Crc::<u32>::new(&crc::CRC_32_ISO_HDLC).checksum(data)
}

fn finish_patch(mut body: Vec<u8>, input: &[u8], output: &[u8]) -> Vec<u8> {
    body.extend_from_slice(&checksum(input).to_le_bytes());
    body.extend_from_slice(&checksum(output).to_le_bytes());
    let patch_crc = checksum(&body);
    body.extend_from_slice(&patch_crc.to_le_bytes());
    body
}

// ---------------------------------------------------------------- IPS

#[test]
fn ips_record_grows_data_with_zeros() {
    let mut data = vec![1u8, 2, 3];
    let record = ips::Record::RLE { offset: 5, size: 2, data: 9 };
    record.apply(&mut data);
    assert_eq!(data, vec![1, 2, 3, 0, 0, 9, 9]);
}

#[test]
fn ips_record_overwrites_in_place() {
    let mut data = vec![1u8, 2, 3, 4, 5];
    let record = ips::Record::Normal { offset: 1, data: InlineBytes::from_slice(&[7, 8]) };
    assert_eq!(record.len(), 2);
    assert_eq!(record.offset(), 1);
    ips::apply_record(&mut data, record);
    assert_eq!(data, vec![1, 7, 8, 4, 5]);
}

#[test]
fn ips_file_apply() -> Result<(), Error> {
    let patch = b"PATCH\x00\x00\x01\x00\x02\xAA\xBB\x00\x00\x06\x00\x00\x00\x03\x11EOF";
    let file = ips::File::parse(patch.as_slice())?;
    assert_eq!(file.records().len(), 2);
    assert_eq!(file.apply(&[0, 1, 2, 3]), vec![0, 0xAA, 0xBB, 3, 0, 0, 0x11, 0x11, 0x11]);
    Ok(())
}

#[test]
fn ips_trailing_bytes_are_ignored() -> Result<(), Error> {
    let patch = b"PATCH\x00\x00\x01\x00\x01\xAAEOF";
    let mut longer = patch.to_vec();
    longer.extend_from_slice(b"garbage");
    let a = ips::File::parse(patch.as_slice())?.records().to_vec();
    let b = ips::File::parse(&longer)?.records().to_vec();
    assert_eq!(a, b);
    Ok(())
}

#[test]
fn ips_invalid_header() {
    assert!(matches!(ips::File::parse(b"PATCX\x45\x4F\x46"), Err(Error::InvalidHeader)));
}

#[test]
fn ips_truncated_is_io_error() {
    assert!(matches!(ips::File::parse(b"PAT"), Err(Error::IO(_))));
    assert!(matches!(ips::File::parse(b"PATCH\x00\x00\x01\x00\x05\xAA"), Err(Error::IO(_))));
    assert!(matches!(ips::Record::parse(b"\x00\x00"), Err(Error::IO(_))));
}

#[test]
fn ips_zero_sized_run() {
    let patch = b"PATCH\x00\x00\x02\x00\x00\x00\x00\x33EOF";
    assert!(matches!(ips::File::parse(patch.as_slice()), Err(Error::ZeroSizedHunk)));
    let records = ips::parse_ips(patch.as_slice()).unwrap();
    assert_eq!(records, vec![ips::Record::RLE { offset: 2, size: 0, data: 0x33 }]);
    let mut data = vec![5u8];
    ips::apply_ips(&mut data, patch.as_slice()).unwrap();
    assert_eq!(data, vec![5, 0]);
}

#[test]
fn ips_apply_ips_leaves_data_on_error() {
    let mut data = vec![1u8, 2, 3];
    assert!(ips::apply_ips(&mut data, b"PATCH\x00\x00\x00\x00\x02\x01").is_err());
    assert_eq!(data, vec![1, 2, 3]);
}

#[test]
fn ips_record_parse_at() -> Result<(), Error> {
    let bytes = b"PATCH\x00\x00\x01\x00\x01\xAAEOF";
    let (record, next) = ips::Record::parse_at(bytes.as_slice(), 5)?.unwrap();
    assert_eq!(record, ips::Record::Normal { offset: 1, data: InlineBytes::from_slice(&[0xAA]) });
    assert_eq!(next, 11);
    assert_eq!(ips::Record::parse_at(bytes.as_slice(), 11)?, None);
    Ok(())
}

#[test]
fn record_clone_keeps_bytes() {
    let record = ips::Record::Normal { offset: 3, data: InlineBytes::from_slice(&[1, 2, 3]) };
    assert_eq!(record.clone(), record);
}

// ---------------------------------------------------------------- varint

#[test]
fn uvar_examples() -> Result<(), Error> {
    assert_eq!(varint::read_uvar(&[0x81], 0)?, (1, 1));
    assert_eq!(varint::read_uvar(&[0x00, 0x80], 0)?, (128, 2));
    assert_eq!(varint::read_uvar(&[0xFF, 0x01, 0x80], 1)?, (129, 3));
    Ok(())
}

#[test]
fn uvar_past_end_is_io_error() {
    assert!(matches!(varint::read_uvar(&[0x00, 0x01], 0), Err(Error::IO(_))));
    assert!(matches!(varint::read_uvar(&[], 0), Err(Error::IO(_))));
}

#[test]
fn uvar_overflow() {
    let mut bytes = vec![0x7Fu8; 19];
    bytes.push(0x81);
    assert!(matches!(
        varint::read_uvar(&bytes, 0),
        Err(Error::VariableIntegerOverflow("variable-length integer"))
    ));
}

#[test]
fn uvar_roundtrip_with_suffix() -> Result<(), Error> {
    for v in [0u128, 5, 300, 1 << 40] {
        let mut bytes = uvar(v);
        let len = bytes.len();
        bytes.extend_from_slice(&[1, 2, 3]);
        assert_eq!(varint::read_uvar(&bytes, 0)?, (v, len));
    }
    Ok(())
}

#[test]
fn ivar_sign_bit() -> Result<(), Error> {
    assert_eq!(bps::read_ivar(&[0x83], 0)?, (-1, 1));
    assert_eq!(bps::read_ivar(&[0x82], 0)?, (1, 1));
    Ok(())
}

// ---------------------------------------------------------------- crc

#[test]
fn crc32_length_prefix() {
    let data = b"123456789abc";
    assert_eq!(crc32_length(data.as_slice(), Some(9)), 0xcbf43926);
    assert_eq!(crc32_length(data.as_slice(), Some(100)), crc32(data.as_slice()));
    assert_eq!(crc32_length(data.as_slice(), None), crc32(data.as_slice()));
}

// ---------------------------------------------------------------- UPS

fn ups_patch(input: &[u8], output: &[u8], records: &[u8]) -> Vec<u8> {
    let mut body = b"UPS1".to_vec();
    body.extend(uvar(input.len() as u128));
    body.extend(uvar(output.len() as u128));
    body.extend_from_slice(records);
    finish_patch(body, input, output)
}

#[test]
fn ups_parse_and_apply() -> Result<(), Error> {
    let input = [1u8, 2, 3, 4, 5, 6];
    let output = [1u8, 2, 0x13, 4, 5, 0x16];
    // skip 2, xor 0x10 0x00 ; skip 2, xor 0x10 (closing zero dropped)
    let records = [0x82, 0x10, 0x00, 0x81, 0x10, 0x00];
    let patch = ups_patch(&input, &output, &records);
    let file = ups::File::parse(&patch)?;
    let lens: Vec<(usize, usize)> = file.records().iter().map(|r| (r.skip_len(), r.len())).collect();
    assert_eq!(lens, vec![(2, 2), (1, 1)]);
    let mut out = Vec::new();
    file.apply(&input, &mut out)?;
    assert_eq!(out, output.to_vec());
    Ok(())
}

#[test]
fn ups_record_apply_reads_zeros_past_end() {
    let input = [1u8, 2, 3, 4, 5, 6];
    let output = [1u8, 2, 3, 4, 5, 6, 0, 0x22];
    let records = [0x87, 0x22, 0x00];
    let patch = ups_patch(&input, &output, &records);
    let file = ups::File::parse(&patch).unwrap();
    let mut out = Vec::new();
    let next = file.records()[0].apply(&input, 0, &mut out);
    assert_eq!(out, output.to_vec());
    assert_eq!(next, 6);
}

#[test]
fn ups_bad_patch_checksum() {
    let input = [1u8];
    let mut patch = ups_patch(&input, &input, &[0x81, 0x00]);
    let last = patch.len() - 1;
    patch[last] ^= 0xFF;
    assert!(matches!(ups::File::parse(&patch), Err(Error::InvalidInputChecksum { .. })));
}

#[test]
fn ups_wrong_input() -> Result<(), Error> {
    let input = [1u8, 2];
    let patch = ups_patch(&input, &input, &[0x82, 0x00]);
    let file = ups::File::parse(&patch)?;
    let mut out = Vec::new();
    assert!(matches!(
        file.apply(&[1, 2, 3], &mut out),
        Err(Error::InvalidInputSize { expected: 2, actual: 3 })
    ));
    assert!(matches!(file.apply(&[1, 3], &mut out), Err(Error::InvalidInputChecksum { .. })));
    assert!(out.is_empty());
    Ok(())
}

#[test]
fn ups_wrong_output() -> Result<(), Error> {
    let input = [1u8, 2];
    let claimed = [1u8, 2, 3];
    let patch = ups_patch(&input, &claimed, &[0x82, 0x00]);
    let file = ups::File::parse(&patch)?;
    let mut out = Vec::new();
    assert!(matches!(
        file.apply(&input, &mut out),
        Err(Error::InvalidOutputSize { expected: 3, actual: 2 })
    ));
    let patch = ups_patch(&input, &[9, 9], &[0x82, 0x00]);
    let file = ups::File::parse(&patch)?;
    let mut out = vec![7u8, 7, 7];
    assert!(matches!(file.apply(&input, &mut out), Err(Error::InvalidOutputChecksum { .. })));
    assert_eq!(out, vec![1, 2, 7]);
    Ok(())
}

#[test]
fn ups_size_overflow() {
    let mut body = b"UPS1".to_vec();
    body.extend(uvar(u64::MAX as u128 + 1));
    body.extend(uvar(0));
    let patch = finish_patch(body, &[], &[]);
    assert!(matches!(
        ups::File::parse(&patch),
        Err(Error::VariableIntegerOverflow("input filesize"))
    ));
}

#[test]
fn ups_short_and_bad_header() {
    assert!(matches!(ups::File::parse(b"UP"), Err(Error::IO(_))));
    assert!(matches!(ups::File::parse(b"UPS2\x80\x80"), Err(Error::InvalidHeader)));
    assert!(matches!(ups::File::parse(b"UPS1\x80\x80"), Err(Error::IO(_))));
}

// ---------------------------------------------------------------- BPS

fn bps_patch(source: &[u8], target: &[u8], metadata: &[u8], records: &[u8]) -> Vec<u8> {
    let mut body = b"BPS1".to_vec();
    body.extend(uvar(source.len() as u128));
    body.extend(uvar(target.len() as u128));
    body.extend(uvar(metadata.len() as u128));
    body.extend_from_slice(metadata);
    body.extend_from_slice(records);
    finish_patch(body, source, target)
}

fn action(kind: u128, length: u128) -> Vec<u8> {
    uvar(((length - 1) << 2) | kind)
}

fn offset(value: i128) -> Vec<u8> {
    uvar((value.unsigned_abs() << 1) | if value < 0 { 1 } else { 0 })
}

#[test]
fn bps_parse_and_apply() -> Result<(), Error> {
    let source = b"abcdef";
    let target = b"abXYcdcdcdef";
    let mut records = Vec::new();
    records.extend(action(0, 2)); // source read "ab"
    records.extend(action(1, 2)); // target read "XY"
    records.extend(b"XY");
    records.extend(action(2, 2)); // source copy "cd" from 2
    records.extend(offset(2));
    records.extend(action(3, 4)); // target copy "cdcd" from 4
    records.extend(offset(4));
    records.extend(action(2, 2)); // source copy "ef" from 4
    records.extend(offset(0));
    let patch = bps_patch(source, target, b"meta", &records);
    let file = bps::File::parse(&patch)?;
    assert_eq!(file.metadata(), "meta");
    let lens: Vec<usize> = file.records().iter().map(|r| r.len()).collect();
    assert_eq!(lens, vec![2, 2, 2, 4, 2]);
    let mut out = Vec::new();
    file.apply(source, &mut out)?;
    assert_eq!(out, target.to_vec());
    Ok(())
}

#[test]
fn bps_record_apply_moves_positions() -> Result<(), Error> {
    let source = b"0123456789";
    let mut target = b"ab".to_vec();
    let mut at = bps::Positions { source: 3, target: 0 };
    let copy = bps::Record::SourceCopy { length: 2, offset: 4 };
    copy.apply(source, &mut target, &mut at)?;
    assert_eq!(target, b"ab78".to_vec());
    assert_eq!(at, bps::Positions { source: 9, target: 0 });
    let repeat = bps::Record::TargetCopy { length: 5, offset: 2 };
    repeat.apply(source, &mut target, &mut at)?;
    assert_eq!(target, b"ab7878787".to_vec());
    assert_eq!(at, bps::Positions { source: 9, target: 7 });
    Ok(())
}

#[test]
fn bps_record_errors_leave_state() {
    let source = b"0123";
    let mut target = b"ab".to_vec();
    let mut at = bps::Positions { source: 1, target: 0 };
    let before = at;
    let copy = bps::Record::SourceCopy { length: 2, offset: -2 };
    assert!(matches!(
        copy.apply(source, &mut target, &mut at),
        Err(Error::OffsetOverflow("Record::SourceCopy offset"))
    ));
    let copy = bps::Record::SourceCopy { length: 4, offset: 1 };
    assert!(matches!(copy.apply(source, &mut target, &mut at), Err(Error::IO(_))));
    let read = bps::Record::SourceRead(3);
    assert!(matches!(read.apply(source, &mut target, &mut at), Err(Error::IO(_))));
    let back = bps::Record::TargetCopy { length: 1, offset: -1 };
    assert!(matches!(
        back.apply(source, &mut target, &mut at),
        Err(Error::OffsetOverflow("Record::TargetCopy offset"))
    ));
    assert_eq!(target, b"ab".to_vec());
    assert_eq!(at, before);
}

#[test]
fn bps_target_copy_past_end_is_refused() -> Result<(), Error> {
    let source = b"ab";
    let target = b"abab";
    let mut records = Vec::new();
    records.extend(action(0, 2));
    records.extend(action(3, 2));
    records.extend(offset(2));
    let patch = bps_patch(source, target, b"", &records);
    let file = bps::File::parse(&patch)?;
    let mut out = Vec::new();
    assert!(file.try_apply(source, &mut out).is_none());
    assert_eq!(out, b"ab".to_vec());
    Ok(())
}

#[test]
fn bps_length_overflow_is_refused() {
    let mut records = Vec::new();
    records.extend(uvar(((usize::MAX as u128) << 2) | 0));
    let patch = bps_patch(b"", b"", b"", &records);
    assert!(bps::File::try_parse(&patch).is_none());
}

#[test]
fn bps_invalid_metadata() {
    let patch = bps_patch(b"", b"", &[0xFF, 0xFE], &[]);
    assert!(matches!(bps::File::parse(&patch), Err(Error::InvalidMetadata(_))));
}

#[test]
fn bps_offset_overflow() {
    let mut records = Vec::new();
    records.extend(action(2, 1));
    records.extend(offset(i64::MAX as i128 + 1));
    let patch = bps_patch(b"", b"", b"", &records);
    assert!(matches!(
        bps::File::parse(&patch),
        Err(Error::VariableIntegerOverflow("record offset"))
    ));
}

#[test]
fn bps_checks() -> Result<(), Error> {
    let source = b"ab";
    let patch = bps_patch(source, b"ab", b"", &action(0, 2));
    let file = bps::File::parse(&patch)?;
    let mut out = Vec::new();
    assert!(matches!(
        file.apply(b"abc", &mut out),
        Err(Error::InvalidInputSize { expected: 2, actual: 3 })
    ));
    assert!(matches!(file.apply(b"ac", &mut out), Err(Error::InvalidInputChecksum { .. })));
    let patch = bps_patch(source, b"abc", b"", &action(0, 2));
    let file = bps::File::parse(&patch)?;
    assert!(matches!(
        file.apply(source, &mut out),
        Err(Error::InvalidOutputSize { expected: 3, actual: 2 })
    ));
    let patch = bps_patch(source, b"xy", b"", &action(0, 2));
    let file = bps::File::parse(&patch)?;
    let mut out = Vec::new();
    assert!(matches!(file.apply(source, &mut out), Err(Error::InvalidOutputChecksum { .. })));
    assert_eq!(out, b"ab".to_vec());
    Ok(())
}

#[test]
fn bps_short_patch() {
    assert!(matches!(bps::File::parse(b"BPS1\x80\x80\x80"), Err(Error::IO(_))));
    assert!(matches!(bps::File::parse(b"BPX1\x80\x80\x80"), Err(Error::InvalidHeader)));
}

// ---------------------------------------------------------------- paths

#[test]
fn format_in_any_case() {
    assert_eq!(extension_to_format("/x/y.BPS"), Some(PatchFormat::Bps));
    assert_eq!(extension_to_format("y.Ups"), Some(PatchFormat::Ups));
    assert_eq!(extension_to_format("y.txt"), None);
    assert_eq!(extension_to_format("noext"), None);
}

#[test]
fn output_name_needs_extension() {
    assert_eq!(generate_output_name("/foo/bar/baz", "/p/q.ips"), None);
    assert_eq!(generate_output_name("/foo/bar/baz.gba", "/"), None);
}

#[test]
fn ips_both_parsers_agree() -> Result<(), Error> {
    let patch = b"PATCH\x00\x00\x01\x00\x02\xAA\xBB\x00\x00\x06\x00\x00\x00\x03\x11EOF";
    let input = vec![0u8, 1, 2, 3];
    let mut data = input.clone();
    ips::apply_ips(&mut data, patch.as_slice())?;
    let file = ips::File::parse(patch.as_slice())?;
    assert_eq!(data, file.apply(&input));
    assert_eq!(ips::parse_ips(patch.as_slice())?, file.records().to_vec());
    Ok(())
}

#[test]
fn bps_target_grows_by_record_lengths() -> Result<(), Error> {
    let source = b"abcdef";
    let target = b"abXYab";
    let mut records = Vec::new();
    records.extend(action(0, 2));
    records.extend(action(1, 2));
    records.extend(b"XY");
    records.extend(action(2, 2));
    records.extend(offset(0));
    let patch = bps_patch(source, target, b"", &records);
    let file = bps::File::parse(&patch)?;
    let total: usize = file.records().iter().map(|r| r.len()).sum();
    let mut out = b"pre".to_vec();
    let result = file.apply(source, &mut out);
    assert!(matches!(result, Err(Error::InvalidOutputSize { expected: 6, actual: 9 })));
    assert_eq!(out.len(), 3 + total);
    assert_eq!(out, b"predeXYab".to_vec());
    Ok(())
}

#[test]
fn bps_bad_patch_checksum() {
    let mut patch = bps_patch(b"", b"", b"", &[]);
    patch[4] ^= 0x01;
    assert!(matches!(bps::File::parse(&patch), Err(Error::InvalidInputChecksum { .. })));
}

#[test]
fn error_messages() {
    let e = Error::InvalidInputChecksum { expected: 0xdead_beef, actual: 0 };
    assert_eq!(e.message(), "Input checksum invalid; expected: deadbeef, Actual: 0");
    let e = Error::InvalidOutputSize { expected: 1234, actual: 56 };
    assert_eq!(e.message(), "Output size invalid; Expected: 1234, Actual: 56");
    let e = Error::VariableIntegerOverflow("record offset");
    assert_eq!(e.message(), "A variable-length integer for 'record offset' could not be represented");
    let e = Error::IO(std::io::Error::from(std::io::ErrorKind::UnexpectedEof));
    let text = e.message();
    assert!(text.starts_with("I/O error \"") && text.ends_with('"'));
    assert_eq!(Error::InvalidHeader.message(), "Patch header invalid");
}

#[test]
fn io_error_kinds() {
    match ips::File::parse(b"PAT") {
        Err(Error::IO(e)) => assert_eq!(e.kind(), std::io::ErrorKind::UnexpectedEof),
        _ => panic!("expected an I/O error"),
    }
    match ups::File::parse(b"UPS1\x80\x80") {
        Err(Error::IO(e)) => assert_eq!(e.kind(), std::io::ErrorKind::InvalidInput),
        _ => panic!("expected an I/O error"),
    }
}

#[test]
fn bps_source_copy_before_start() {
    let source = b"0123";
    let mut target = b"ab".to_vec();
    let mut at = bps::Positions { source: 1, target: 0 };
    let copy = bps::Record::SourceCopy { length: 1, offset: -5 };
    assert!(matches!(
        copy.apply(source, &mut target, &mut at),
        Err(Error::OffsetOverflow("Record::SourceCopy offset"))
    ));
    assert_eq!(target, b"ab".to_vec());
}
