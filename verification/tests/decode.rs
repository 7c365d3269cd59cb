//! Element decoding on concrete byte runs.

use dicom_core::dataset::{element, pixeldata_parse, sequence_parse, undefined_length};
use dicom_core::decimal::Dec;
use dicom_core::types::{DicomElt, DicomError};

fn no_tags() -> Vec<(u32, DicomElt)> {
    Vec::new()
}

#[test]
fn empty_explicit_element() {
    // (0008,0005) CS, length 0: an empty value, eight bytes consumed.
    let data: Vec<u8> = vec![0x08, 0x00, 0x05, 0x00, b'C', b'S', 0x00, 0x00];
    let (grp, elt, val, next) = element(&data, 0, true, &no_tags()).unwrap();
    assert_eq!((grp, elt), (0x0008, 0x0005));
    assert_eq!(val, DicomElt::Empty);
    assert_eq!(next, 8);
}

#[test]
fn us_singleton() {
    // (0028,0010) US, length 2, value 0x0200 little-endian.
    let data: Vec<u8> = vec![0x28, 0x00, 0x10, 0x00, b'U', b'S', 0x02, 0x00, 0x00, 0x02];
    let (grp, elt, val, next) = element(&data, 0, true, &no_tags()).unwrap();
    assert_eq!((grp, elt), (0x0028, 0x0010));
    assert_eq!(val, DicomElt::UInt16s(vec![512]));
    assert_eq!(next, 10);
}

#[test]
fn us_singleton_implicit() {
    // The same element without representation bytes: the dictionary
    // recovers US.
    let data: Vec<u8> = vec![0x28, 0x00, 0x10, 0x00, 0x02, 0x00, 0x00, 0x00, 0x00, 0x02];
    let (grp, elt, val, next) = element(&data, 0, false, &no_tags()).unwrap();
    assert_eq!((grp, elt), (0x0028, 0x0010));
    assert_eq!(val, DicomElt::UInt16s(vec![512]));
    assert_eq!(next, 10);
}

#[test]
fn encapsulated_pixel_stream() {
    // One item of four payload bytes, then the sequence delimiter.
    let data: Vec<u8> = vec![
        0xFE, 0xFF, 0x00, 0xE0, 0x04, 0x00, 0x00, 0x00, 0xDE, 0xAD, 0xBE, 0xEF, 0xFE, 0xFF, 0xDD,
        0xE0, 0x00, 0x00, 0x00, 0x00,
    ];
    let (val, consumed) = pixeldata_parse(&data, 0xFFFFFFFF, true, &no_tags()).unwrap();
    match val {
        DicomElt::Image8(img) => {
            assert_eq!(img.xr, 4);
            assert_eq!(img.yr, 1);
            assert_eq!(img.zr, 1);
            assert_eq!(img.data, vec![0xDE, 0xAD, 0xBE, 0xEF]);
        }
        other => panic!("expected an 8-bit image, got {:?}", other),
    }
    assert_eq!(consumed, 20);
}

#[test]
fn encapsulated_stream_bad_item_tag() {
    let data: Vec<u8> = vec![
        0x08, 0x00, 0x00, 0xE0, 0x04, 0x00, 0x00, 0x00, 0xDE, 0xAD, 0xBE, 0xEF,
    ];
    let r = pixeldata_parse(&data, 0xFFFFFFFF, true, &no_tags());
    assert_eq!(r.unwrap_err(), DicomError::UnexpectedTag);
}

#[test]
fn sequence_of_two_items() {
    // Two items, each one US element (0008,1150) holding 1 and 2.
    let mut data: Vec<u8> = Vec::new();
    for v in [1u8, 2u8] {
        data.extend_from_slice(&[0xFE, 0xFF, 0x00, 0xE0, 0x0A, 0x00, 0x00, 0x00]);
        data.extend_from_slice(&[0x08, 0x00, 0x50, 0x11, b'U', b'S', 0x02, 0x00, v, 0x00]);
    }
    data.extend_from_slice(&[0xFE, 0xFF, 0xDD, 0xE0, 0x00, 0x00, 0x00, 0x00]);
    let (consumed, items) = sequence_parse(&data, true).unwrap();
    assert_eq!(consumed, data.len());
    assert_eq!(items.len(), 2);
    for (i, item) in items.iter().enumerate() {
        let v = item.get("ReferencedSOPClassUID").unwrap();
        assert_eq!(*v, DicomElt::UInt16s(vec![(i + 1) as u16]));
    }
}

#[test]
fn sequence_element_through_decoder() {
    // An SQ element wrapping one item with one US element.
    let mut data: Vec<u8> = vec![0x08, 0x00, 0x40, 0x11, b'S', b'Q', 0x00, 0x00];
    let body: Vec<u8> = {
        let mut b: Vec<u8> = Vec::new();
        b.extend_from_slice(&[0xFE, 0xFF, 0x00, 0xE0, 0x0A, 0x00, 0x00, 0x00]);
        b.extend_from_slice(&[0x08, 0x00, 0x50, 0x11, b'U', b'S', 0x02, 0x00, 0x07, 0x00]);
        b.extend_from_slice(&[0xFE, 0xFF, 0xDD, 0xE0, 0x00, 0x00, 0x00, 0x00]);
        b
    };
    data.extend_from_slice(&(body.len() as u32).to_le_bytes());
    data.extend_from_slice(&body);
    let (grp, elt, val, next) = element(&data, 0, true, &no_tags()).unwrap();
    assert_eq!((grp, elt), (0x0008, 0x1140));
    match val {
        DicomElt::Items(items) => {
            assert_eq!(items.len(), 1);
            assert_eq!(
                *items[0].get("ReferencedSOPClassUID").unwrap(),
                DicomElt::UInt16s(vec![7])
            );
        }
        other => panic!("expected a sequence, got {:?}", other),
    }
    assert_eq!(next, data.len());
}

#[test]
fn ow_is_big_endian_us_is_little_endian() {
    // The same two bytes read under OW and under US.
    let ow: Vec<u8> = vec![
        0x28, 0x00, 0x10, 0x10, b'O', b'W', 0x00, 0x00, 0x02, 0x00, 0x00, 0x00, 0xAB, 0xCD,
    ];
    let (_, _, val, _) = element(&ow, 0, true, &no_tags()).unwrap();
    assert_eq!(val, DicomElt::UInt16s(vec![0xABCD]));
    let us: Vec<u8> = vec![0x28, 0x00, 0x10, 0x00, b'U', b'S', 0x02, 0x00, 0xAB, 0xCD];
    let (_, _, val, _) = element(&us, 0, true, &no_tags()).unwrap();
    assert_eq!(val, DicomElt::UInt16s(vec![0xCDAB]));
}

#[test]
fn odd_length_value_is_padded() {
    // A three-byte string value: the next element begins at offset 12.
    let data: Vec<u8> = vec![
        0x08, 0x00, 0x60, 0x00, b'C', b'S', 0x03, 0x00, b'C', b'T', b' ', 0x00,
    ];
    let (_, _, val, next) = element(&data, 0, true, &no_tags()).unwrap();
    assert_eq!(val, DicomElt::Text(String::from("CT ")));
    assert_eq!(next, 12);
}

#[test]
fn ds_element_parses_decimals() {
    let text = b"1.5\\-2 ";
    let mut data: Vec<u8> = vec![0x28, 0x00, 0x53, 0x10, b'D', b'S', text.len() as u8, 0x00];
    data.extend_from_slice(text);
    data.push(0);
    let (_, _, val, next) = element(&data, 0, true, &no_tags()).unwrap();
    assert_eq!(
        val,
        DicomElt::Decimals(vec![
            Dec { neg: false, mant: 15, scale: 1 },
            Dec { neg: true, mant: 2, scale: 0 },
        ])
    );
    assert_eq!(next, 8 + 8);
}

#[test]
fn bad_decimal_is_a_fault() {
    let data: Vec<u8> = vec![0x28, 0x00, 0x53, 0x10, b'D', b'S', 0x02, 0x00, b'x', b'y'];
    let r = element(&data, 0, true, &no_tags());
    assert_eq!(r.unwrap_err(), DicomError::BadNumber);
}

#[test]
fn unknown_implicit_tag_is_a_fault() {
    // (0008,9999) is not in the dictionary; implicit decoding fails.
    let data: Vec<u8> = vec![0x08, 0x00, 0x99, 0x99, 0x00, 0x00, 0x00, 0x00];
    let r = element(&data, 0, false, &no_tags());
    assert_eq!(r.unwrap_err(), DicomError::UnknownVR);
}

#[test]
fn truncated_element_is_a_fault() {
    let data: Vec<u8> = vec![0x28, 0x00, 0x10, 0x00, b'U', b'S', 0x08, 0x00, 0x00];
    let r = element(&data, 0, true, &no_tags());
    assert_eq!(r.unwrap_err(), DicomError::TruncatedInput);
}

#[test]
fn private_creator_is_forced_to_text() {
    // Odd group above 0x0008, element in the creator range: LO wins over
    // the stream's representation.
    let data: Vec<u8> = vec![
        0x09, 0x00, 0x10, 0x00, b'U', b'S', 0x02, 0x00, b'o', b'k',
    ];
    let (_, _, val, _) = element(&data, 0, true, &no_tags()).unwrap();
    assert_eq!(val, DicomElt::Text(String::from("ok")));
}

#[test]
fn undefined_length_scan_finds_delimiter() {
    // Two payload words, then the delimiter pair and its length.
    let data: Vec<u8> = vec![
        0x01, 0x00, 0x02, 0x00, 0xFE, 0xFF, 0xDD, 0xE0, 0x00, 0x00, 0x00, 0x00,
    ];
    let (next, words) = undefined_length(&data).unwrap();
    assert_eq!(words, vec![1, 2]);
    assert_eq!(next, 12);
}

#[test]
fn fl_uses_four_byte_words() {
    // FL decodes size/4 little-endian 32-bit words.
    let data: Vec<u8> = vec![
        0x18, 0x00, 0x60, 0x00, b'F', b'L', 0x04, 0x00, 0x01, 0x02, 0x03, 0x04,
    ];
    let (_, _, val, _) = element(&data, 0, true, &no_tags()).unwrap();
    assert_eq!(val, DicomElt::Float32Bits(vec![0x04030201]));
}
