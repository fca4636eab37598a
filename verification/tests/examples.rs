use umbral_patcher::bytes::InlineBytes;
use umbral_patcher::paths::{extension_to_format, generate_output_name, PatchFormat};
use umbral_patcher::{bps, crc32, ips, varint, Error};

fn uvar_encode(mut data: u128) -> Vec<u8> {
    let mut ret = Vec::new();
    loop {
        let x = (data & 0x7F) as u8;
        data >>= 7;
        if data == 0 {
            ret.push(0x80 | x);
            return ret;
        }
        ret.push(x);
        data -= 1;
    }
}

fn ivar_encode(data: i128) -> Vec<u8> {
    if data == i128::MIN {
        panic!("Overflow: Attempted to encode i128::MIN as variable-length");
    }
    let sign_bit = if data < 0 { 1 } else { 0 };
    uvar_encode((data.unsigned_abs() << 1) | sign_bit)
}

#[test]
fn format() {
    const INPUT: &str = "/foo/bar/baz.ips";

    assert_eq!(extension_to_format(INPUT), Some(PatchFormat::Ips))
}

#[test]
fn output_name() {
    const INPUT: &str = "/foo/bar/baz.gba";
    const IPS: &str = "/foo/ips/quux.ips";
    const EXPECTED_OUTPUT: &str = "/foo/bar/quux.gba";

    assert_eq!(
        generate_output_name(INPUT, IPS),
        Some(String::from(EXPECTED_OUTPUT))
    );
}

#[test]
fn output_name_many_dots() {
    const INPUT: &str = "/foo/bar/baz.gba";
    const IPS: &str = "/foo/ips/quux.v1.82.ips";
    const EXPECTED_OUTPUT: &str = "/foo/bar/quux.v1.82.gba";

    assert_eq!(
        generate_output_name(INPUT, IPS),
        Some(String::from(EXPECTED_OUTPUT))
    );
}

#[test]
fn crc32_check() -> Result<(), Error> {
    assert_eq!(0x00000000, crc32([].as_slice()));
    assert_eq!(0xcbf43926, crc32(b"123456789".as_slice()));
    assert_eq!(
        0x414fa339,
        crc32(b"The quick brown fox jumps over the lazy dog".as_slice())
    );

    Ok(())
}

#[test]
fn mod_ips_parse_file() -> Result<(), Error> {
    let ips = b"PATCH\x67\x67\x67\x00\x03\xFF\xFF\xFF\xDE\xAD\xBB\x00\x00\x69\x96\xAAEOF";
    let record = ips::File::parse(ips.as_slice())?.records().to_vec();
    assert_eq!(
        record,
        vec![
            ips::Record::Normal {
                offset: 0x676767,
                data: InlineBytes::from_slice([0xFF; 3].as_slice())
            },
            ips::Record::RLE {
                offset: 0xDEADBB,
                size: 0x6996,
                data: 0xAA
            }
        ]
    );
    Ok(())
}

#[test]
fn mod_ips_parse_single_normal() -> Result<(), Error> {
    let ips = b"\x42\x69\x00\x00\x02\x00\x00";
    let record = ips::Record::parse(ips.as_slice())?;
    assert_eq!(
        record,
        Some(ips::Record::Normal {
            offset: 0x426900,
            data: InlineBytes::from_slice([0, 0].as_slice())
        })
    );
    Ok(())
}

#[test]
fn mod_ips_parse_single_rle() -> Result<(), Error> {
    let ips = b"\x42\x69\x00\x00\x00\x04\x20\xFF";
    let record = ips::Record::parse(ips.as_slice())?;
    assert_eq!(
        record,
        Some(ips::Record::RLE {
            offset: 0x426900,
            size: 0x420,
            data: 0xFF
        })
    );
    Ok(())
}

#[test]
fn read_uvar() -> Result<(), Error> {
    for i in [0, 1, 0x7F, 0x80, 0xFFFF, usize::MAX as u128, u128::MAX] {
        assert_eq!(i, varint::read_uvar(&uvar_encode(i), 0)?.0);
    }

    Ok(())
}

#[test]
fn read_ivar() -> Result<(), Error> {
    for i in [0, 1, 0x7F, 0x80, 0xFFFF, usize::MAX as i128, i128::MAX] {
        assert_eq!(i, bps::read_ivar(&ivar_encode(i), 0)?.0);
        assert_eq!(-i, bps::read_ivar(&ivar_encode(-i), 0)?.0);
    }

    Ok(())
}
