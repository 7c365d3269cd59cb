//! A verified reader for DICOM datasets.
//!
//! The crate decodes the binary element stream of a DICOM file into a typed,
//! keyword-indexed slice record, assembles many single-slice datasets into an
//! ordered volumetric scan, converts raw samples to Hounsfield units, and
//! round-trips slices and scans through a deterministic binary encoding.
//!
//! Reading files and directories is left to the caller: every function here
//! works on byte images and plain values.

pub mod bytes;
pub mod codec;
pub mod dataset;
pub mod decimal;
pub mod dict;
pub mod scan;
pub mod types;
pub mod vr;

use vstd::prelude::*;
use vstd::string::StrSliceExecFns;
use crate::codec::s_cdec_dataset;
use crate::codec::s_cdec_scan;
use crate::codec::s_cenc_dataset;
use crate::codec::s_cenc_scan;
use crate::dataset::s_advance;
use crate::dataset::s_element;
use crate::dataset::s_element_value;
use crate::dataset::s_parse;
use crate::scan::is_permutation;
use crate::scan::scan_wf;
use crate::scan::s_file_model;
use crate::scan::s_file_pix;
use crate::scan::s_pixels_hu;
use crate::scan::s_scan_ok;
use crate::scan::s_strip;
use crate::scan::s_views;
use crate::types::DatasetModel;
use crate::types::DicomError;
use crate::types::DicomScan;
use crate::types::DicomSlice;
use crate::types::EltModel;
use crate::types::dataset_wf;
use crate::types::scan_view;
use crate::types::slice_view;

verus! {

/// The dataset reader. The data dictionary it consults is the fixed table
/// of the `dict` module.
pub struct DicomLib {}

impl DicomLib {
    /// A reader bound to the dictionary.
    pub fn new() -> (r: DicomLib)
        ensures
            r == (DicomLib {  }),
    {
        DicomLib {  }
    }

    /// The slice parsed from a whole file image: a 128-byte preamble, the
    /// ASCII marker DICM, then the dataset. Succeeds exactly on valid
    /// datasets, and the returned keyword map has pairwise-distinct keys.
    pub fn parse(&self, data: &[u8]) -> (r: Result<DicomSlice, DicomError>)
        ensures
            match r {
                Ok(ds) => s_parse(data@) == Ok::<_, DicomError>(slice_view(ds)) && dataset_wf(
                    slice_view(ds),
                ),
                Err(e) => s_parse(data@) == Err::<DatasetModel, _>(e),
            },
    {
        crate::dataset::parse_slice(data)
    }

    /// The scan assembled from the given file images, sorted by ascending
    /// slice position, with one block of the combined volume per slice.
    pub fn parse_scan(&self, files: &Vec<Vec<u8>>) -> (r: Result<DicomScan, DicomError>)
        ensures
            r is Ok <==> s_scan_ok(s_views(files@)),
            match r {
                Ok(scan) => ({
                    let m = scan_view(scan);
                    let fs = s_views(files@);
                    let bs = m.image.xr * m.image.yr;
                    &&& scan_wf(m)
                    &&& m.image.xr == s_file_pix(fs, 0).xr
                    &&& m.image.yr == s_file_pix(fs, 0).yr
                    &&& m.image.zr == fs.len()
                    &&& exists|perm: Seq<int>|
                        is_permutation(perm, fs.len() as int) && (forall|k: int|
                            0 <= k < fs.len() ==> (#[trigger] m.slices[k]) == s_strip(
                                s_file_model(fs, perm[k]),
                                "PixelData"@,
                            ) && m.image.data.subrange(k * bs, (k + 1) * bs) == s_file_pix(
                                fs,
                                perm[k],
                            ).data)
                }),
                Err(_) => true,
            },
    {
        crate::scan::parse_scan(files)
    }

    /// The calibrated Hounsfield volume of the scan; the scan is not
    /// changed.
    pub fn get_pixels_hu(scan: &DicomScan) -> (r: Result<Vec<i16>, DicomError>)
        requires
            scan_wf(scan_view(*scan)),
        ensures
            match r {
                Ok(v) => s_pixels_hu(scan_view(*scan)) == Ok::<_, DicomError>(v@),
                Err(e) => s_pixels_hu(scan_view(*scan)) == Err::<Seq<i16>, _>(e),
            },
    {
        crate::scan::get_pixels_hu(scan)
    }

    /// The serialized bytes of a scan.
    pub fn serialize_scan(&self, scan: &DicomScan) -> (r: Vec<u8>)
        ensures
            r@ == s_cenc_scan(scan_view(*scan)),
    {
        crate::codec::serialize_scan_bytes(scan)
    }

    /// The scan a byte image encodes; empty or malformed input is a fault.
    pub fn deserialize_scan(&self, data: &[u8]) -> (r: Result<DicomScan, DicomError>)
        ensures
            match r {
                Ok(scan) => s_cdec_scan(data@, 0) == Some((scan_view(scan), data@.len() as int)),
                Err(e) => e == DicomError::TruncatedInput && (s_cdec_scan(data@, 0) is None
                    || s_cdec_scan(data@, 0)->Some_0.1 != data@.len()),
            },
    {
        crate::codec::deserialize_scan_bytes(data)
    }

    /// The serialized bytes of one slice record.
    pub fn serialize_slice(&self, s: &DicomSlice) -> (r: Vec<u8>)
        ensures
            r@ == s_cenc_dataset(slice_view(*s)),
    {
        crate::codec::serialize_slice(s)
    }

    /// The slice a byte image encodes; empty or malformed input is a fault.
    pub fn deserialize_slice(&self, data: &[u8]) -> (r: Result<DicomSlice, DicomError>)
        ensures
            match r {
                Ok(ds) => s_cdec_dataset(data@, 0) == Some((slice_view(ds), data@.len() as int)),
                Err(e) => e == DicomError::TruncatedInput && (s_cdec_dataset(data@, 0) is None
                    || s_cdec_dataset(data@, 0)->Some_0.1 != data@.len()),
            },
    {
        crate::codec::deserialize_slice(data)
    }
}

/// Whether `name` contains the suffix a dataset file carries.
pub fn name_is_dcm(name: &str) -> (r: bool)
    ensures
        r == exists|i: int|
            0 <= i && i + 4 <= name@.len() && (#[trigger] name@.subrange(i, i + 4)) =~= ".dcm"@,
{
    proof {
        reveal_strlit(".dcm");
    }
    let n = name.unicode_len();
    if n < 4 {
        return false;
    }
    let mut i: usize = 0;
    while i <= n - 4
        invariant
            4 <= n,
            n == name@.len(),
            i <= n - 3,
            forall|j: int| 0 <= j < i ==> !((#[trigger] name@.subrange(j, j + 4)) =~= ".dcm"@),
        decreases n - i,
    {
        let c0 = name.get_char(i);
        let c1 = name.get_char(i + 1);
        let c2 = name.get_char(i + 2);
        let c3 = name.get_char(i + 3);
        proof {
            reveal_strlit(".dcm");
            assert(name@.subrange(i as int, i as int + 4)[0] == name@[i as int]);
            assert(name@.subrange(i as int, i as int + 4)[1] == name@[i as int + 1]);
            assert(name@.subrange(i as int, i as int + 4)[2] == name@[i as int + 2]);
            assert(name@.subrange(i as int, i as int + 4)[3] == name@[i as int + 3]);
        }
        if c0 == '.' && c1 == 'd' && c2 == 'c' && c3 == 'm' {
            proof {
                assert(name@.subrange(i as int, i as int + 4) =~= ".dcm"@);
            }
            return true;
        }
        proof {
            assert(!(name@.subrange(i as int, i as int + 4) =~= ".dcm"@));
        }
        i = i + 1;
    }
    false
}

/// After any decoded element at an even offset, the next element begins at
/// an even offset, unless the element reached the end of the input.
#[verifier::rlimit(100)]
#[verifier::spinoff_prover]
pub proof fn lemma_element_alignment(d: Seq<u8>, off: int, evr: bool, tags: Seq<(u32, EltModel)>)
    requires
        off % 2 == 0,
        s_element(d, off, evr, tags) is Ok,
    ensures
        (s_element(d, off, evr, tags)->Ok_0.next % 2 == 0) || s_element(
            d,
            off,
            evr,
            tags,
        )->Ok_0.next == d.len(),
{
    reveal(s_element);
    reveal(s_element_value);
    let len = d.len() as int;
    assert forall|voff: int, consumed: int|
        voff % 2 == 0 && consumed >= 0 implies ((#[trigger] s_advance(voff, consumed, len)) % 2
        == 0 || s_advance(voff, consumed, len) == len) by {
        let a = voff + consumed + if consumed % 2 == 1 {
            1int
        } else {
            0int
        };
        assert(a % 2 == 0);
    }
}

} // verus!
