//! The small pieces: byte readers, decimals, the dictionary, names.

use dicom_core::bytes::{isodd, u8tostr, u8tou16, u8tou32, u16tou32};
use dicom_core::decimal::{dec_is_one, dec_le, dec_to_i16, mul_dec_i16, parse_dec, Dec};
use dicom_core::dict::{dict_entry, lookup_vr, tag_key};
use dicom_core::name_is_dcm;
use dicom_core::vr::{always_implicit, vr_of_bytes, Vr};

#[test]
fn byte_readers() {
    assert_eq!(u8tou16(&[0x34, 0x12]), 0x1234);
    assert_eq!(u8tou32(&[0x78, 0x56, 0x34, 0x12]), 0x12345678);
    assert_eq!(u16tou32(&[0x0010, 0x0028]), 0x00280010);
    assert!(isodd(3));
    assert!(!isodd(8));
}

#[test]
fn bytes_become_text() {
    let s = u8tostr(&[b'C', b'T', b' ']);
    assert_eq!(s, "CT ");
}

#[test]
fn decimal_grammar() {
    assert_eq!(
        parse_dec(b"1.5"),
        Some(Dec { neg: false, mant: 15, scale: 1 })
    );
    assert_eq!(
        parse_dec(b"-.5"),
        Some(Dec { neg: true, mant: 5, scale: 1 })
    );
    assert_eq!(
        parse_dec(b"12."),
        Some(Dec { neg: false, mant: 12, scale: 0 })
    );
    assert_eq!(
        parse_dec(b"2e3"),
        Some(Dec { neg: false, mant: 2000, scale: 0 })
    );
    assert_eq!(
        parse_dec(b"25e-1"),
        Some(Dec { neg: false, mant: 25, scale: 1 })
    );
    assert_eq!(parse_dec(b""), None);
    assert_eq!(parse_dec(b"."), None);
    assert_eq!(parse_dec(b"1.2.3"), None);
    assert_eq!(parse_dec(b"nan"), None);
    assert_eq!(parse_dec(b"99999999999999999999"), None);
}

#[test]
fn decimal_order_and_arithmetic() {
    let one = Dec { neg: false, mant: 10, scale: 1 };
    let two = Dec { neg: false, mant: 2, scale: 0 };
    let minus = Dec { neg: true, mant: 5, scale: 0 };
    assert!(dec_le(&one, &two));
    assert!(!dec_le(&two, &one));
    assert!(dec_le(&minus, &one));
    assert!(dec_is_one(&one));
    assert!(!dec_is_one(&two));
    assert_eq!(dec_to_i16(&Dec { neg: true, mant: 37, scale: 1 }), -3);
    assert_eq!(dec_to_i16(&Dec { neg: false, mant: 99999, scale: 0 }), 32767);
    assert_eq!(mul_dec_i16(100, &two), 200);
    assert_eq!(mul_dec_i16(-1024, &two), -2048);
    assert_eq!(
        mul_dec_i16(7, &Dec { neg: false, mant: 15, scale: 1 }),
        10
    );
    assert_eq!(mul_dec_i16(30000, &two), 32767);
    assert_eq!(mul_dec_i16(-30000, &two), -32768);
}

#[test]
fn dictionary_lookups() {
    let rows = dict_entry(tag_key(0x0028, 0x0010)).unwrap();
    assert_eq!(rows.vr, Vr::US);
    assert_eq!(rows.keyword, "Rows");
    assert_eq!(rows.vm, "1");
    assert!(!rows.retired);
    assert!(dict_entry(tag_key(0x0008, 0x9999)).is_none());
    // Curve and overlay groups collapse for the representation lookup.
    assert_eq!(lookup_vr((0x5002, 0x3000)), Some(Vr::OW));
    assert_eq!(lookup_vr((0x6004, 0x0010)), Some(Vr::US));
    assert_eq!(lookup_vr((0x7FE0, 0x0010)), Some(Vr::OW));
    assert_eq!(lookup_vr((0x0008, 0x9999)), None);
}

#[test]
fn representation_codes() {
    assert_eq!(vr_of_bytes(b'U', b'S'), Some(Vr::US));
    assert_eq!(vr_of_bytes(b'S', b'Q'), Some(Vr::SQ));
    assert_eq!(vr_of_bytes(b'Z', b'Z'), None);
    assert!(always_implicit(0xFFFE, 0xE000));
    assert!(always_implicit(0xFFFE, 0xE00D));
    assert!(always_implicit(0xFFFE, 0xE0DD));
    assert!(!always_implicit(0x0008, 0x0005));
}

#[test]
fn dataset_file_names() {
    assert!(name_is_dcm("000001.dcm"));
    assert!(name_is_dcm("a.dcm.bak"));
    assert!(!name_is_dcm("readme.txt"));
    assert!(!name_is_dcm("dcm"));
}

#[test]
fn decimal_exponent_bounds() {
    assert_eq!(parse_dec(b"1e200"), None);
    assert_eq!(parse_dec(b"1e-30"), None);
    assert_eq!(
        parse_dec(b"0e50"),
        Some(Dec { neg: false, mant: 0, scale: 0 })
    );
    assert_eq!(
        parse_dec(b"+3.25"),
        Some(Dec { neg: false, mant: 325, scale: 2 })
    );
}
