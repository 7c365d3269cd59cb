//! The data dictionary: the read-only table mapping tag keys to entries.
//!
//! A tag (group, element) is packed into the canonical 32-bit key
//! `(element << 16) | group`, the little-endian on-disk layout of the two
//! words. Repeating curve groups 0x50xx and overlay groups 0x60xx are
//! collapsed to 0x5000 and 0x6000 before a representation lookup.

use vstd::prelude::*;
use vstd::string::StringExecFns;
use crate::vr::Vr;

verus! {

/// A dictionary entry: representation, multiplicity, name, retired flag
/// and canonical keyword.
#[derive(Debug, Clone)]
pub struct DicomDictElt {
    pub vr: Vr,
    pub vm: String,
    pub name: String,
    pub retired: bool,
    pub keyword: String,
}

/// The mathematical content of a dictionary entry.
pub struct DictModel {
    pub vr: Vr,
    pub vm: Seq<char>,
    pub name: Seq<char>,
    pub retired: bool,
    pub keyword: Seq<char>,
}

impl DicomDictElt {
    /// The entry's mathematical content.
    pub open spec fn model(&self) -> DictModel {
        DictModel {
            vr: self.vr,
            vm: self.vm@,
            name: self.name@,
            retired: self.retired,
            keyword: self.keyword@,
        }
    }
}

/// The canonical 32-bit dictionary key of a tag.
pub open spec fn s_key(grp: u16, elt: u16) -> u32 {
    (elt as int * 0x10000 + grp as int) as u32
}

/// The canonical 32-bit dictionary key of a tag.
pub fn tag_key(grp: u16, elt: u16) -> (r: u32)
    ensures
        r == s_key(grp, elt),
{
    elt as u32 * 0x10000 + grp as u32
}

/// The dictionary entry under the given canonical key, if any.
#[verifier::opaque]
pub open spec fn s_dict_entry(tag: u32) -> Option<DictModel> {
    if tag == 0x00000002u32 {
        Some(DictModel { vr: Vr::UL, vm: "1"@, name: "File Meta Information Group Length"@, retired: false, keyword: "FileMetaInformationGroupLength"@ })
    } else     if tag == 0x00010002u32 {
        Some(DictModel { vr: Vr::OB, vm: "1"@, name: "File Meta Information Version"@, retired: false, keyword: "FileMetaInformationVersion"@ })
    } else     if tag == 0x00020002u32 {
        Some(DictModel { vr: Vr::UI, vm: "1"@, name: "Media Storage SOP Class UID"@, retired: false, keyword: "MediaStorageSOPClassUID"@ })
    } else     if tag == 0x00030002u32 {
        Some(DictModel { vr: Vr::UI, vm: "1"@, name: "Media Storage SOP Instance UID"@, retired: false, keyword: "MediaStorageSOPInstanceUID"@ })
    } else     if tag == 0x00100002u32 {
        Some(DictModel { vr: Vr::UI, vm: "1"@, name: "Transfer Syntax UID"@, retired: false, keyword: "TransferSyntaxUID"@ })
    } else     if tag == 0x00120002u32 {
        Some(DictModel { vr: Vr::UI, vm: "1"@, name: "Implementation Class UID"@, retired: false, keyword: "ImplementationClassUID"@ })
    } else     if tag == 0x00130002u32 {
        Some(DictModel { vr: Vr::SH, vm: "1"@, name: "Implementation Version Name"@, retired: false, keyword: "ImplementationVersionName"@ })
    } else     if tag == 0x00050008u32 {
        Some(DictModel { vr: Vr::CS, vm: "1-n"@, name: "Specific Character Set"@, retired: false, keyword: "SpecificCharacterSet"@ })
    } else     if tag == 0x00080008u32 {
        Some(DictModel { vr: Vr::CS, vm: "2-n"@, name: "Image Type"@, retired: false, keyword: "ImageType"@ })
    } else     if tag == 0x00160008u32 {
        Some(DictModel { vr: Vr::UI, vm: "1"@, name: "SOP Class UID"@, retired: false, keyword: "SOPClassUID"@ })
    } else     if tag == 0x00180008u32 {
        Some(DictModel { vr: Vr::UI, vm: "1"@, name: "SOP Instance UID"@, retired: false, keyword: "SOPInstanceUID"@ })
    } else     if tag == 0x00200008u32 {
        Some(DictModel { vr: Vr::DA, vm: "1"@, name: "Study Date"@, retired: false, keyword: "StudyDate"@ })
    } else     if tag == 0x00300008u32 {
        Some(DictModel { vr: Vr::TM, vm: "1"@, name: "Study Time"@, retired: false, keyword: "StudyTime"@ })
    } else     if tag == 0x00600008u32 {
        Some(DictModel { vr: Vr::CS, vm: "1"@, name: "Modality"@, retired: false, keyword: "Modality"@ })
    } else     if tag == 0x11500008u32 {
        Some(DictModel { vr: Vr::UI, vm: "1"@, name: "Referenced SOP Class UID"@, retired: false, keyword: "ReferencedSOPClassUID"@ })
    } else     if tag == 0x11550008u32 {
        Some(DictModel { vr: Vr::UI, vm: "1"@, name: "Referenced SOP Instance UID"@, retired: false, keyword: "ReferencedSOPInstanceUID"@ })
    } else     if tag == 0x00100010u32 {
        Some(DictModel { vr: Vr::PN, vm: "1"@, name: "Patient Name"@, retired: false, keyword: "PatientName"@ })
    } else     if tag == 0x00200010u32 {
        Some(DictModel { vr: Vr::LO, vm: "1"@, name: "Patient ID"@, retired: false, keyword: "PatientID"@ })
    } else     if tag == 0x00500018u32 {
        Some(DictModel { vr: Vr::DS, vm: "1"@, name: "Slice Thickness"@, retired: false, keyword: "SliceThickness"@ })
    } else     if tag == 0x00600018u32 {
        Some(DictModel { vr: Vr::DS, vm: "1"@, name: "KVP"@, retired: false, keyword: "KVP"@ })
    } else     if tag == 0x000D0020u32 {
        Some(DictModel { vr: Vr::UI, vm: "1"@, name: "Study Instance UID"@, retired: false, keyword: "StudyInstanceUID"@ })
    } else     if tag == 0x000E0020u32 {
        Some(DictModel { vr: Vr::UI, vm: "1"@, name: "Series Instance UID"@, retired: false, keyword: "SeriesInstanceUID"@ })
    } else     if tag == 0x00110020u32 {
        Some(DictModel { vr: Vr::IS, vm: "1"@, name: "Series Number"@, retired: false, keyword: "SeriesNumber"@ })
    } else     if tag == 0x00130020u32 {
        Some(DictModel { vr: Vr::IS, vm: "1"@, name: "Instance Number"@, retired: false, keyword: "InstanceNumber"@ })
    } else     if tag == 0x00320020u32 {
        Some(DictModel { vr: Vr::DS, vm: "3"@, name: "Image Position Patient"@, retired: false, keyword: "ImagePositionPatient"@ })
    } else     if tag == 0x00370020u32 {
        Some(DictModel { vr: Vr::DS, vm: "6"@, name: "Image Orientation Patient"@, retired: false, keyword: "ImageOrientationPatient"@ })
    } else     if tag == 0x10410020u32 {
        Some(DictModel { vr: Vr::DS, vm: "1"@, name: "Slice Location"@, retired: false, keyword: "SliceLocation"@ })
    } else     if tag == 0x00020028u32 {
        Some(DictModel { vr: Vr::US, vm: "1"@, name: "Samples Per Pixel"@, retired: false, keyword: "SamplesPerPixel"@ })
    } else     if tag == 0x00040028u32 {
        Some(DictModel { vr: Vr::CS, vm: "1"@, name: "Photometric Interpretation"@, retired: false, keyword: "PhotometricInterpretation"@ })
    } else     if tag == 0x00100028u32 {
        Some(DictModel { vr: Vr::US, vm: "1"@, name: "Rows"@, retired: false, keyword: "Rows"@ })
    } else     if tag == 0x00110028u32 {
        Some(DictModel { vr: Vr::US, vm: "1"@, name: "Columns"@, retired: false, keyword: "Columns"@ })
    } else     if tag == 0x00120028u32 {
        Some(DictModel { vr: Vr::US, vm: "1"@, name: "Planes"@, retired: true, keyword: "Planes"@ })
    } else     if tag == 0x00300028u32 {
        Some(DictModel { vr: Vr::DS, vm: "2"@, name: "Pixel Spacing"@, retired: false, keyword: "PixelSpacing"@ })
    } else     if tag == 0x01000028u32 {
        Some(DictModel { vr: Vr::US, vm: "1"@, name: "Bits Allocated"@, retired: false, keyword: "BitsAllocated"@ })
    } else     if tag == 0x01010028u32 {
        Some(DictModel { vr: Vr::US, vm: "1"@, name: "Bits Stored"@, retired: false, keyword: "BitsStored"@ })
    } else     if tag == 0x01020028u32 {
        Some(DictModel { vr: Vr::US, vm: "1"@, name: "High Bit"@, retired: false, keyword: "HighBit"@ })
    } else     if tag == 0x01030028u32 {
        Some(DictModel { vr: Vr::US, vm: "1"@, name: "Pixel Representation"@, retired: false, keyword: "PixelRepresentation"@ })
    } else     if tag == 0x10500028u32 {
        Some(DictModel { vr: Vr::DS, vm: "1-n"@, name: "Window Center"@, retired: false, keyword: "WindowCenter"@ })
    } else     if tag == 0x10510028u32 {
        Some(DictModel { vr: Vr::DS, vm: "1-n"@, name: "Window Width"@, retired: false, keyword: "WindowWidth"@ })
    } else     if tag == 0x10520028u32 {
        Some(DictModel { vr: Vr::DS, vm: "1"@, name: "Rescale Intercept"@, retired: false, keyword: "RescaleIntercept"@ })
    } else     if tag == 0x10530028u32 {
        Some(DictModel { vr: Vr::DS, vm: "1"@, name: "Rescale Slope"@, retired: false, keyword: "RescaleSlope"@ })
    } else     if tag == 0x00055000u32 {
        Some(DictModel { vr: Vr::US, vm: "1"@, name: "Curve Dimensions"@, retired: true, keyword: "CurveDimensions"@ })
    } else     if tag == 0x30005000u32 {
        Some(DictModel { vr: Vr::OW, vm: "1"@, name: "Curve Data"@, retired: true, keyword: "CurveData"@ })
    } else     if tag == 0x00106000u32 {
        Some(DictModel { vr: Vr::US, vm: "1"@, name: "Overlay Rows"@, retired: false, keyword: "OverlayRows"@ })
    } else     if tag == 0x00116000u32 {
        Some(DictModel { vr: Vr::US, vm: "1"@, name: "Overlay Columns"@, retired: false, keyword: "OverlayColumns"@ })
    } else     if tag == 0x30006000u32 {
        Some(DictModel { vr: Vr::OW, vm: "1"@, name: "Overlay Data"@, retired: false, keyword: "OverlayData"@ })
    } else     if tag == 0x00107FE0u32 {
        Some(DictModel { vr: Vr::OW, vm: "1"@, name: "Pixel Data"@, retired: false, keyword: "PixelData"@ })
    } else     if tag == 0xE000FFFEu32 {
        Some(DictModel { vr: Vr::XX, vm: "1"@, name: "Item"@, retired: false, keyword: "Item"@ })
    } else     if tag == 0xE00DFFFEu32 {
        Some(DictModel { vr: Vr::XX, vm: "1"@, name: "Item Delimitation Item"@, retired: false, keyword: "ItemDelimitationItem"@ })
    } else     if tag == 0xE0DDFFFEu32 {
        Some(DictModel { vr: Vr::XX, vm: "1"@, name: "Sequence Delimitation Item"@, retired: false, keyword: "SequenceDelimitationItem"@ })
    } else {
        None
    }
}

/// The representation recorded for the given canonical key, if any.
pub open spec fn s_dict_vr(tag: u32) -> Option<Vr> {
    match s_dict_entry(tag) {
        Some(e) => Some(e.vr),
        None => None,
    }
}

/// The keyword recorded for the given canonical key, if any.
pub open spec fn s_dict_keyword(tag: u32) -> Option<Seq<char>> {
    match s_dict_entry(tag) {
        Some(e) => Some(e.keyword),
        None => None,
    }
}

fn mk(vr: Vr, vm: &str, name: &str, retired: bool, keyword: &str) -> (r: DicomDictElt)
    ensures
        r.model() == (DictModel {
            vr: vr,
            vm: vm@,
            name: name@,
            retired: retired,
            keyword: keyword@,
        }),
{
    DicomDictElt {
        vr: vr,
        vm: String::from_str(vm),
        name: String::from_str(name),
        retired: retired,
        keyword: String::from_str(keyword),
    }
}

/// The dictionary entry under the given canonical key, if any.
pub fn dict_entry(tag: u32) -> (r: Option<DicomDictElt>)
    ensures
        match r {
            Some(e) => s_dict_entry(tag) == Some(e.model()),
            None => s_dict_entry(tag) is None,
        },
{
    proof {
        reveal(s_dict_entry);
    }
    match tag {
        0x00000002 => Some(mk(Vr::UL, "1", "File Meta Information Group Length", false, "FileMetaInformationGroupLength")),
        0x00010002 => Some(mk(Vr::OB, "1", "File Meta Information Version", false, "FileMetaInformationVersion")),
        0x00020002 => Some(mk(Vr::UI, "1", "Media Storage SOP Class UID", false, "MediaStorageSOPClassUID")),
        0x00030002 => Some(mk(Vr::UI, "1", "Media Storage SOP Instance UID", false, "MediaStorageSOPInstanceUID")),
        0x00100002 => Some(mk(Vr::UI, "1", "Transfer Syntax UID", false, "TransferSyntaxUID")),
        0x00120002 => Some(mk(Vr::UI, "1", "Implementation Class UID", false, "ImplementationClassUID")),
        0x00130002 => Some(mk(Vr::SH, "1", "Implementation Version Name", false, "ImplementationVersionName")),
        0x00050008 => Some(mk(Vr::CS, "1-n", "Specific Character Set", false, "SpecificCharacterSet")),
        0x00080008 => Some(mk(Vr::CS, "2-n", "Image Type", false, "ImageType")),
        0x00160008 => Some(mk(Vr::UI, "1", "SOP Class UID", false, "SOPClassUID")),
        0x00180008 => Some(mk(Vr::UI, "1", "SOP Instance UID", false, "SOPInstanceUID")),
        0x00200008 => Some(mk(Vr::DA, "1", "Study Date", false, "StudyDate")),
        0x00300008 => Some(mk(Vr::TM, "1", "Study Time", false, "StudyTime")),
        0x00600008 => Some(mk(Vr::CS, "1", "Modality", false, "Modality")),
        0x11500008 => Some(mk(Vr::UI, "1", "Referenced SOP Class UID", false, "ReferencedSOPClassUID")),
        0x11550008 => Some(mk(Vr::UI, "1", "Referenced SOP Instance UID", false, "ReferencedSOPInstanceUID")),
        0x00100010 => Some(mk(Vr::PN, "1", "Patient Name", false, "PatientName")),
        0x00200010 => Some(mk(Vr::LO, "1", "Patient ID", false, "PatientID")),
        0x00500018 => Some(mk(Vr::DS, "1", "Slice Thickness", false, "SliceThickness")),
        0x00600018 => Some(mk(Vr::DS, "1", "KVP", false, "KVP")),
        0x000D0020 => Some(mk(Vr::UI, "1", "Study Instance UID", false, "StudyInstanceUID")),
        0x000E0020 => Some(mk(Vr::UI, "1", "Series Instance UID", false, "SeriesInstanceUID")),
        0x00110020 => Some(mk(Vr::IS, "1", "Series Number", false, "SeriesNumber")),
        0x00130020 => Some(mk(Vr::IS, "1", "Instance Number", false, "InstanceNumber")),
        0x00320020 => Some(mk(Vr::DS, "3", "Image Position Patient", false, "ImagePositionPatient")),
        0x00370020 => Some(mk(Vr::DS, "6", "Image Orientation Patient", false, "ImageOrientationPatient")),
        0x10410020 => Some(mk(Vr::DS, "1", "Slice Location", false, "SliceLocation")),
        0x00020028 => Some(mk(Vr::US, "1", "Samples Per Pixel", false, "SamplesPerPixel")),
        0x00040028 => Some(mk(Vr::CS, "1", "Photometric Interpretation", false, "PhotometricInterpretation")),
        0x00100028 => Some(mk(Vr::US, "1", "Rows", false, "Rows")),
        0x00110028 => Some(mk(Vr::US, "1", "Columns", false, "Columns")),
        0x00120028 => Some(mk(Vr::US, "1", "Planes", true, "Planes")),
        0x00300028 => Some(mk(Vr::DS, "2", "Pixel Spacing", false, "PixelSpacing")),
        0x01000028 => Some(mk(Vr::US, "1", "Bits Allocated", false, "BitsAllocated")),
        0x01010028 => Some(mk(Vr::US, "1", "Bits Stored", false, "BitsStored")),
        0x01020028 => Some(mk(Vr::US, "1", "High Bit", false, "HighBit")),
        0x01030028 => Some(mk(Vr::US, "1", "Pixel Representation", false, "PixelRepresentation")),
        0x10500028 => Some(mk(Vr::DS, "1-n", "Window Center", false, "WindowCenter")),
        0x10510028 => Some(mk(Vr::DS, "1-n", "Window Width", false, "WindowWidth")),
        0x10520028 => Some(mk(Vr::DS, "1", "Rescale Intercept", false, "RescaleIntercept")),
        0x10530028 => Some(mk(Vr::DS, "1", "Rescale Slope", false, "RescaleSlope")),
        0x00055000 => Some(mk(Vr::US, "1", "Curve Dimensions", true, "CurveDimensions")),
        0x30005000 => Some(mk(Vr::OW, "1", "Curve Data", true, "CurveData")),
        0x00106000 => Some(mk(Vr::US, "1", "Overlay Rows", false, "OverlayRows")),
        0x00116000 => Some(mk(Vr::US, "1", "Overlay Columns", false, "OverlayColumns")),
        0x30006000 => Some(mk(Vr::OW, "1", "Overlay Data", false, "OverlayData")),
        0x00107FE0 => Some(mk(Vr::OW, "1", "Pixel Data", false, "PixelData")),
        0xE000FFFE => Some(mk(Vr::XX, "1", "Item", false, "Item")),
        0xE00DFFFE => Some(mk(Vr::XX, "1", "Item Delimitation Item", false, "ItemDelimitationItem")),
        0xE0DDFFFE => Some(mk(Vr::XX, "1", "Sequence Delimitation Item", false, "SequenceDelimitationItem")),
        _ => None,
    }
}

/// The group under which a tag is looked up: repeating curve and overlay
/// groups collapse to their base group.
pub open spec fn s_lookup_group(grp: u16) -> u16 {
    if grp & 0xFF00 == 0x5000 {
        0x5000
    } else if grp & 0xFF00 == 0x6000 {
        0x6000
    } else {
        grp
    }
}

/// The representation the dictionary gives the tag, if any; curve and
/// overlay groups are collapsed before the lookup.
pub open spec fn s_lookup_vr(grp: u16, elt: u16) -> Option<Vr> {
    s_dict_vr(s_key(s_lookup_group(grp), elt))
}

/// The representation the dictionary gives the tag, if any; curve and
/// overlay groups are collapsed before the lookup.
pub fn lookup_vr(gelt: (u16, u16)) -> (r: Option<Vr>)
    ensures
        r == s_lookup_vr(gelt.0, gelt.1),
{
    let grp = if gelt.0 & 0xFF00 == 0x5000 {
        0x5000
    } else if gelt.0 & 0xFF00 == 0x6000 {
        0x6000
    } else {
        gelt.0
    };
    match dict_entry(tag_key(grp, gelt.1)) {
        Some(e) => Some(e.vr),
        None => None,
    }
}

/// The keyword the dictionary gives the tag under its canonical key, if any.
pub fn dict_keyword(tag: u32) -> (r: Option<String>)
    ensures
        match r {
            Some(k) => s_dict_keyword(tag) == Some(k@),
            None => s_dict_keyword(tag) is None,
        },
{
    match dict_entry(tag) {
        Some(e) => Some(e.keyword),
        None => None,
    }
}

} // verus!
