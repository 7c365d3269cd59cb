//! Whole-file parsing, scan assembly, Hounsfield conversion, and the
//! binary round trip.

use dicom_core::DicomLib;
use dicom_core::decimal::Dec;
use dicom_core::types::{DcmImg16, DicomElt, DicomError, DicomScan, DicomSlice};

fn push_explicit_short(out: &mut Vec<u8>, grp: u16, elt: u16, vr: &[u8; 2], value: &[u8]) {
    out.extend_from_slice(&grp.to_le_bytes());
    out.extend_from_slice(&elt.to_le_bytes());
    out.extend_from_slice(vr);
    out.extend_from_slice(&(value.len() as u16).to_le_bytes());
    out.extend_from_slice(value);
}

fn push_explicit_long(out: &mut Vec<u8>, grp: u16, elt: u16, vr: &[u8; 2], value: &[u8]) {
    out.extend_from_slice(&grp.to_le_bytes());
    out.extend_from_slice(&elt.to_le_bytes());
    out.extend_from_slice(vr);
    out.extend_from_slice(&[0, 0]);
    out.extend_from_slice(&(value.len() as u32).to_le_bytes());
    out.extend_from_slice(value);
}

/// A two-by-two single-slice file at height `z`, with the given samples.
fn test_file(z: &str, slope: &str, intercept: &str, samples: [i16; 4]) -> Vec<u8> {
    let mut f = vec![0u8; 128];
    f.extend_from_slice(b"DICM");
    push_explicit_short(&mut f, 0x0008, 0x0060, b"CS", b"CT");
    push_explicit_short(&mut f, 0x0028, 0x0010, b"US", &2u16.to_le_bytes());
    push_explicit_short(&mut f, 0x0028, 0x0011, b"US", &2u16.to_le_bytes());
    let pos = format!("0\\0\\{}", z);
    let mut posb = pos.into_bytes();
    if posb.len() % 2 == 1 {
        posb.push(b' ');
    }
    push_explicit_short(&mut f, 0x0020, 0x0032, b"DS", &posb);
    let mut sl = slope.as_bytes().to_vec();
    if sl.len() % 2 == 1 {
        sl.push(b' ');
    }
    push_explicit_short(&mut f, 0x0028, 0x1053, b"DS", &sl);
    let mut ic = intercept.as_bytes().to_vec();
    if ic.len() % 2 == 1 {
        ic.push(b' ');
    }
    push_explicit_short(&mut f, 0x0028, 0x1052, b"DS", &ic);
    let mut pix: Vec<u8> = Vec::new();
    for s in samples {
        pix.extend_from_slice(&s.to_le_bytes());
    }
    push_explicit_long(&mut f, 0x7FE0, 0x0010, b"OW", &pix);
    f
}

#[test]
fn parse_single_file() {
    let lib = DicomLib::new();
    let f = test_file("1.5", "1", "0", [-2000, 5, 7, 100]);
    let slice = lib.parse(&f).unwrap();
    assert_eq!(
        *slice.get("Rows").unwrap(),
        DicomElt::UInt16s(vec![2])
    );
    assert_eq!(
        slice.pos().unwrap(),
        Dec { neg: false, mant: 15, scale: 1 }
    );
    assert_eq!(
        slice.slope().unwrap(),
        Dec { neg: false, mant: 1, scale: 0 }
    );
    assert_eq!(slice.intercept().unwrap(), 0);
    let img = slice.pixel_data().unwrap();
    assert_eq!((img.xr, img.yr, img.zr), (2, 2, 1));
    assert_eq!(img.data, vec![-2000, 5, 7, 100]);
    assert_eq!(slice.thickness(), Dec { neg: false, mant: 0, scale: 0 });
}

#[test]
fn parse_rejects_bad_magic() {
    let lib = DicomLib::new();
    let mut f = test_file("0", "1", "0", [0, 0, 0, 0]);
    f[128] = b'X';
    assert_eq!(lib.parse(&f).unwrap_err(), DicomError::BadMagic);
}

#[test]
fn parse_rejects_short_input() {
    let lib = DicomLib::new();
    let f = vec![0u8; 100];
    assert_eq!(lib.parse(&f).unwrap_err(), DicomError::TruncatedInput);
}

#[test]
fn parse_rejects_duplicate_tag() {
    let lib = DicomLib::new();
    let mut f = vec![0u8; 128];
    f.extend_from_slice(b"DICM");
    push_explicit_short(&mut f, 0x0028, 0x0010, b"US", &2u16.to_le_bytes());
    push_explicit_short(&mut f, 0x0028, 0x0010, b"US", &3u16.to_le_bytes());
    assert_eq!(lib.parse(&f).unwrap_err(), DicomError::DuplicateKey);
}

#[test]
fn scan_sorts_slices_by_position() {
    let lib = DicomLib::new();
    let files = vec![
        test_file("4", "1", "0", [4, 4, 4, 4]),
        test_file("1", "1", "0", [1, 1, 1, 1]),
        test_file("3", "1", "0", [3, 3, 3, 3]),
    ];
    let scan = lib.parse_scan(&files).unwrap();
    assert_eq!(scan.slice_data.len(), 3);
    assert_eq!((scan.image.xr, scan.image.yr, scan.image.zr), (2, 2, 3));
    assert_eq!(
        scan.image.data,
        vec![1, 1, 1, 1, 3, 3, 3, 3, 4, 4, 4, 4]
    );
    let zs: Vec<u64> = scan
        .slice_data
        .iter()
        .map(|s| s.pos().unwrap().mant)
        .collect();
    assert_eq!(zs, vec![1, 3, 4]);
    // PixelData leaves each slice record.
    for s in &scan.slice_data {
        assert!(s.get("PixelData").is_none());
        assert!(s.get("Rows").is_some());
    }
}

#[test]
fn scan_of_no_files_is_a_fault() {
    let lib = DicomLib::new();
    let files: Vec<Vec<u8>> = Vec::new();
    assert_eq!(lib.parse_scan(&files).unwrap_err(), DicomError::EmptyScan);
}

#[test]
fn scan_of_unequal_shapes_is_a_fault() {
    let lib = DicomLib::new();
    let mut small = vec![0u8; 128];
    small.extend_from_slice(b"DICM");
    push_explicit_short(&mut small, 0x0028, 0x0010, b"US", &1u16.to_le_bytes());
    push_explicit_short(&mut small, 0x0028, 0x0011, b"US", &1u16.to_le_bytes());
    push_explicit_short(&mut small, 0x0020, 0x0032, b"DS", b"0\\0\\9 ");
    push_explicit_long(&mut small, 0x7FE0, 0x0010, b"OW", &7i16.to_le_bytes());
    let files = vec![test_file("1", "1", "0", [1, 1, 1, 1]), small];
    assert_eq!(
        lib.parse_scan(&files).unwrap_err(),
        DicomError::ShapeMismatch
    );
}

#[test]
fn hu_conversion_scales_and_shifts() {
    // One slice of three samples, slope two, intercept minus one thousand:
    // the marker becomes -1000, the others scale and shift.
    let slice = DicomSlice {
        keydict: vec![
            (
                String::from("RescaleSlope"),
                DicomElt::Decimals(vec![Dec { neg: false, mant: 20, scale: 1 }]),
            ),
            (
                String::from("RescaleIntercept"),
                DicomElt::Decimals(vec![Dec { neg: true, mant: 1000, scale: 0 }]),
            ),
            (
                String::from("ImagePositionPatient"),
                DicomElt::Decimals(vec![
                    Dec { neg: false, mant: 0, scale: 0 },
                    Dec { neg: false, mant: 0, scale: 0 },
                    Dec { neg: false, mant: 0, scale: 0 },
                ]),
            ),
        ],
    };
    let scan = DicomScan {
        slice_data: vec![slice],
        image: DcmImg16 { xr: 3, yr: 1, zr: 1, data: vec![-2000, -1024, 100] },
    };
    let hu = DicomLib::get_pixels_hu(&scan).unwrap();
    assert_eq!(hu, vec![-1000, -3048, -800]);
    // The scan's own volume is unchanged.
    assert_eq!(scan.image.data, vec![-2000, -1024, 100]);
}

#[test]
fn hu_identity_replaces_only_the_marker() {
    let lib = DicomLib::new();
    let files = vec![test_file("0", "1", "0", [-2000, -5, 0, 77])];
    let scan = lib.parse_scan(&files).unwrap();
    let hu = DicomLib::get_pixels_hu(&scan).unwrap();
    assert_eq!(hu, vec![0, -5, 0, 77]);
}

#[test]
fn hu_without_slope_is_a_fault() {
    let scan = DicomScan {
        slice_data: vec![DicomSlice {
            keydict: vec![(
                String::from("ImagePositionPatient"),
                DicomElt::Decimals(vec![
                    Dec { neg: false, mant: 0, scale: 0 },
                    Dec { neg: false, mant: 0, scale: 0 },
                    Dec { neg: false, mant: 0, scale: 0 },
                ]),
            )],
        }],
        image: DcmImg16 { xr: 1, yr: 1, zr: 1, data: vec![3] },
    };
    assert_eq!(
        DicomLib::get_pixels_hu(&scan).unwrap_err(),
        DicomError::ValueTypeMismatch
    );
}

#[test]
fn slice_round_trip() {
    let lib = DicomLib::new();
    let slice = DicomSlice {
        keydict: vec![
            (String::from("Modality"), DicomElt::Text(String::from("CT"))),
            (String::from("Rows"), DicomElt::UInt16s(vec![2, 512])),
            (String::from("BitsStored"), DicomElt::Int16s(vec![-7, 12])),
            (String::from("SeriesNumber"), DicomElt::Int32s(vec![-70000])),
            (
                String::from("WindowCenter"),
                DicomElt::Decimals(vec![Dec { neg: true, mant: 35, scale: 1 }]),
            ),
            (String::from("KVP"), DicomElt::Float64Bits(vec![0x3FF0000000000000])),
            (String::from("PixelSpacing"), DicomElt::Float32Bits(vec![0x3F800000])),
            (String::from("PatientID"), DicomElt::Bytes(vec![1, 2, 3])),
            (
                String::from("ImageType"),
                DicomElt::Items(vec![DicomSlice {
                    keydict: vec![(String::from("HighBit"), DicomElt::UInt32s(vec![11]))],
                }]),
            ),
            (
                String::from("PixelData"),
                DicomElt::Image16(DcmImg16 { xr: 2, yr: 1, zr: 1, data: vec![-5, 9] }),
            ),
            (String::from("Planes"), DicomElt::Empty),
        ],
    };
    let bytes = lib.serialize_slice(&slice);
    let back = lib.deserialize_slice(&bytes).unwrap();
    assert_eq!(back, slice);
}

#[test]
fn scan_round_trip() {
    let lib = DicomLib::new();
    let files = vec![
        test_file("2", "1.5", "-10", [9, 8, 7, 6]),
        test_file("1", "1.5", "-10", [1, 2, 3, 4]),
    ];
    let scan = lib.parse_scan(&files).unwrap();
    let bytes = lib.serialize_scan(&scan);
    let back = lib.deserialize_scan(&bytes).unwrap();
    assert_eq!(back, scan);
}

#[test]
fn deserialize_of_empty_input_is_a_fault() {
    let lib = DicomLib::new();
    let empty: Vec<u8> = Vec::new();
    assert_eq!(
        lib.deserialize_scan(&empty).unwrap_err(),
        DicomError::TruncatedInput
    );
}

#[test]
fn deserialize_rejects_trailing_bytes() {
    let lib = DicomLib::new();
    let slice = DicomSlice { keydict: Vec::new() };
    let mut bytes = lib.serialize_slice(&slice);
    bytes.push(0);
    assert_eq!(
        lib.deserialize_slice(&bytes).unwrap_err(),
        DicomError::TruncatedInput
    );
}

#[test]
fn intercept_accepts_unsigned_words() {
    let slice = DicomSlice {
        keydict: vec![(
            String::from("RescaleIntercept"),
            DicomElt::UInt32s(vec![0xFFFF_FC18]),
        )],
    };
    // The low sixteen bits reinterpreted as signed: -1000.
    assert_eq!(slice.intercept().unwrap(), -1000);
}

#[test]
fn thickness_of_wrong_kind_is_zero() {
    let slice = DicomSlice {
        keydict: vec![(
            String::from("SliceThickness"),
            DicomElt::Text(String::from("thick")),
        )],
    };
    assert_eq!(slice.thickness(), Dec { neg: false, mant: 0, scale: 0 });
}

#[test]
fn missing_position_is_a_fault() {
    let slice = DicomSlice { keydict: Vec::new() };
    assert_eq!(slice.pos().unwrap_err(), DicomError::ValueTypeMismatch);
    assert_eq!(
        slice.pixel_data().unwrap_err(),
        DicomError::ValueTypeMismatch
    );
    assert_eq!(slice.slope().unwrap_err(), DicomError::ValueTypeMismatch);
}

#[test]
fn deserialize_rejects_an_unknown_variant_tag() {
    let lib = DicomLib::new();
    let slice = DicomSlice {
        keydict: vec![(String::from("Modality"), DicomElt::Empty)],
    };
    let mut bytes = lib.serialize_slice(&slice);
    let last = bytes.len() - 1;
    bytes[last] = 99;
    assert_eq!(
        lib.deserialize_slice(&bytes).unwrap_err(),
        DicomError::TruncatedInput
    );
}

#[test]
fn empty_slice_round_trip() {
    let lib = DicomLib::new();
    let slice = DicomSlice { keydict: Vec::new() };
    let bytes = lib.serialize_slice(&slice);
    assert_eq!(lib.deserialize_slice(&bytes).unwrap(), slice);
}

#[test]
fn scan_without_position_is_a_fault() {
    let lib = DicomLib::new();
    let mut f = vec![0u8; 128];
    f.extend_from_slice(b"DICM");
    push_explicit_short(&mut f, 0x0028, 0x0010, b"US", &1u16.to_le_bytes());
    push_explicit_short(&mut f, 0x0028, 0x0011, b"US", &1u16.to_le_bytes());
    push_explicit_long(&mut f, 0x7FE0, 0x0010, b"OW", &7i16.to_le_bytes());
    let files = vec![f];
    assert_eq!(
        lib.parse_scan(&files).unwrap_err(),
        DicomError::ValueTypeMismatch
    );
}
