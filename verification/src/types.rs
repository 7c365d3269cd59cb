//! The data model: element values, slices, scans, and their
//! mathematical views.

use vstd::prelude::*;
use vstd::string::StringExecFns;
use crate::decimal::Dec;
use crate::decimal::dec_wf;
use crate::decimal::dec_to_i16;
use crate::decimal::s_dec_to_i16;

verus! {

/// A pixel array of 16-bit signed samples.
#[derive(Debug, PartialEq)]
pub struct DcmImg16 {
    pub xr: usize,
    pub yr: usize,
    pub zr: usize,
    pub data: Vec<i16>,
}

/// A pixel array of 8-bit unsigned samples.
#[derive(Debug, PartialEq)]
pub struct DcmImg8 {
    pub xr: usize,
    pub yr: usize,
    pub zr: usize,
    pub data: Vec<u8>,
}

/// A decoded element value.
///
/// Decimal strings (DS, IS) decode to `Decimals`; raw IEEE-754 words (FD,
/// OD and FL, OF) are held as their bit patterns. A sequence holds nested
/// datasets, each a keyword map of its own.
#[derive(Debug, PartialEq)]
pub enum DicomElt {
    Int16s(Vec<i16>),
    UInt16s(Vec<u16>),
    Int32s(Vec<i32>),
    UInt32s(Vec<u32>),
    Decimals(Vec<Dec>),
    Float64Bits(Vec<u64>),
    Float32Bits(Vec<u32>),
    Text(String),
    Bytes(Vec<u8>),
    Items(Vec<DicomSlice>),
    Image16(DcmImg16),
    Image8(DcmImg8),
    Empty,
}

/// One dataset: a map from dictionary keywords to element values, held as
/// a list of pairs with distinct keys.
#[derive(Debug, PartialEq)]
pub struct DicomSlice {
    pub keydict: Vec<(String, DicomElt)>,
}

/// An ordered stack of slices and their combined pixel volume.
#[derive(Debug, PartialEq)]
pub struct DicomScan {
    pub slice_data: Vec<DicomSlice>,
    pub image: DcmImg16,
}

/// A parse or access fault. Faults are terminal: a faulty dataset is
/// rejected whole.
#[derive(PartialEq, Eq, Structural, Clone, Copy, Debug)]
pub enum DicomError {
    /// The DICM marker is absent.
    BadMagic,
    /// A read would pass the end of the input.
    TruncatedInput,
    /// An item or delimiter tag is not at the position the framing requires.
    UnexpectedTag,
    /// An explicit representation code is unknown, or an implicit lookup
    /// missed the dictionary.
    UnknownVR,
    /// A value does not have the variant or the width an accessor needs.
    ValueTypeMismatch,
    /// The same keyword or tag decoded twice in one dataset.
    DuplicateKey,
    /// A decimal string the library cannot hold.
    BadNumber,
    /// Slices whose pixel arrays do not share one shape.
    ShapeMismatch,
    /// A scan without slices.
    EmptyScan,
}

impl DicomError {
    /// A short description of the fault.
    pub fn describe(&self) -> (r: &'static str)
        ensures
            r@.len() > 0,
    {
        let s = match self {
            DicomError::BadMagic => "bad magic in header",
            DicomError::TruncatedInput => "input ends inside an element",
            DicomError::UnexpectedTag => "unexpected item tag",
            DicomError::UnknownVR => "unknown value representation",
            DicomError::ValueTypeMismatch => "value of an unexpected kind",
            DicomError::DuplicateKey => "duplicate key in one dataset",
            DicomError::BadNumber => "malformed decimal string",
            DicomError::ShapeMismatch => "pixel arrays of unequal shape",
            DicomError::EmptyScan => "scan without slices",
        };
        proof {
            reveal_strlit("bad magic in header");
            reveal_strlit("input ends inside an element");
            reveal_strlit("unexpected item tag");
            reveal_strlit("unknown value representation");
            reveal_strlit("value of an unexpected kind");
            reveal_strlit("duplicate key in one dataset");
            reveal_strlit("malformed decimal string");
            reveal_strlit("pixel arrays of unequal shape");
            reveal_strlit("scan without slices");
        }
        s
    }
}

/// The mathematical content of a 16-bit pixel array.
pub struct ImgModel16 {
    pub xr: int,
    pub yr: int,
    pub zr: int,
    pub data: Seq<i16>,
}

/// The mathematical content of an 8-bit pixel array.
pub struct ImgModel8 {
    pub xr: int,
    pub yr: int,
    pub zr: int,
    pub data: Seq<u8>,
}

/// The mathematical content of an element value.
pub enum EltModel {
    Int16s(Seq<i16>),
    UInt16s(Seq<u16>),
    Int32s(Seq<i32>),
    UInt32s(Seq<u32>),
    Decimals(Seq<Dec>),
    Float64Bits(Seq<u64>),
    Float32Bits(Seq<u32>),
    Text(Seq<char>),
    Bytes(Seq<u8>),
    Items(Seq<DatasetModel>),
    Image16(ImgModel16),
    Image8(ImgModel8),
    Empty,
}

/// The mathematical content of a dataset: keyword/value pairs in decode
/// order.
pub struct DatasetModel {
    pub pairs: Seq<(Seq<char>, EltModel)>,
}

/// The mathematical content of a scan.
pub struct ScanModel {
    pub slices: Seq<DatasetModel>,
    pub image: ImgModel16,
}

/// The content of a 16-bit pixel array.
pub open spec fn img16_view(i: DcmImg16) -> ImgModel16 {
    ImgModel16 { xr: i.xr as int, yr: i.yr as int, zr: i.zr as int, data: i.data@ }
}

/// The content of an 8-bit pixel array.
pub open spec fn img8_view(i: DcmImg8) -> ImgModel8 {
    ImgModel8 { xr: i.xr as int, yr: i.yr as int, zr: i.zr as int, data: i.data@ }
}

/// The content of an element value.
pub open spec fn elt_view(e: DicomElt) -> EltModel
    decreases e,
{
    match e {
        DicomElt::Int16s(v) => EltModel::Int16s(v@),
        DicomElt::UInt16s(v) => EltModel::UInt16s(v@),
        DicomElt::Int32s(v) => EltModel::Int32s(v@),
        DicomElt::UInt32s(v) => EltModel::UInt32s(v@),
        DicomElt::Decimals(v) => EltModel::Decimals(v@),
        DicomElt::Float64Bits(v) => EltModel::Float64Bits(v@),
        DicomElt::Float32Bits(v) => EltModel::Float32Bits(v@),
        DicomElt::Text(s) => EltModel::Text(s@),
        DicomElt::Bytes(v) => EltModel::Bytes(v@),
        DicomElt::Items(items) => EltModel::Items(slices_view(items@)),
        DicomElt::Image16(i) => EltModel::Image16(img16_view(i)),
        DicomElt::Image8(i) => EltModel::Image8(img8_view(i)),
        DicomElt::Empty => EltModel::Empty,
    }
}

/// The content of a run of datasets.
pub open spec fn slices_view(s: Seq<DicomSlice>) -> Seq<DatasetModel>
    decreases s,
{
    if s.len() == 0 {
        Seq::empty()
    } else {
        slices_view(s.drop_last()).push(slice_view(s.last()))
    }
}

/// The content of one dataset.
pub open spec fn slice_view(s: DicomSlice) -> DatasetModel
    decreases s,
{
    DatasetModel { pairs: pairs_view(s.keydict@) }
}

/// The content of a run of keyword/value pairs.
pub open spec fn pairs_view(p: Seq<(String, DicomElt)>) -> Seq<(Seq<char>, EltModel)>
    decreases p,
{
    if p.len() == 0 {
        Seq::empty()
    } else {
        pairs_view(p.drop_last()).push((p.last().0@, elt_view(p.last().1)))
    }
}

/// The content of a scan.
pub open spec fn scan_view(s: DicomScan) -> ScanModel {
    ScanModel { slices: slices_view(s.slice_data@), image: img16_view(s.image) }
}

pub broadcast proof fn lemma_pairs_view_index(p: Seq<(String, DicomElt)>)
    ensures
        (#[trigger] pairs_view(p)).len() == p.len(),
        forall|i: int|
            0 <= i < p.len() ==> pairs_view(p)[i] == (p[i].0@, elt_view(p[i].1)),
    decreases p,
{
    if p.len() > 0 {
        lemma_pairs_view_index(p.drop_last());
    }
}

pub broadcast proof fn lemma_slices_view_index(s: Seq<DicomSlice>)
    ensures
        (#[trigger] slices_view(s)).len() == s.len(),
        forall|i: int| 0 <= i < s.len() ==> slices_view(s)[i] == slice_view(s[i]),
    decreases s,
{
    if s.len() > 0 {
        lemma_slices_view_index(s.drop_last());
    }
}

/// Whether the keys of the pairs are pairwise distinct.
pub open spec fn pairs_unique(p: Seq<(Seq<char>, EltModel)>) -> bool {
    forall|i: int, j: int| 0 <= i < j < p.len() ==> p[i].0 != p[j].0
}

/// A well-formed element value: every decimal in it, at any depth, is
/// well formed, and every nested dataset is well formed.
pub open spec fn elt_wf(e: EltModel) -> bool
    decreases e,
{
    match e {
        EltModel::Decimals(v) => forall|i: int| 0 <= i < v.len() ==> dec_wf(#[trigger] v[i]),
        EltModel::Items(items) => datasets_wf(items),
        _ => true,
    }
}

/// Whether every dataset of the run is well formed.
pub open spec fn datasets_wf(s: Seq<DatasetModel>) -> bool
    decreases s,
{
    if s.len() == 0 {
        true
    } else {
        datasets_wf(s.drop_last()) && dataset_wf(s.last())
    }
}

/// A well-formed dataset: its keys are pairwise distinct and its values
/// are well formed.
pub open spec fn dataset_wf(m: DatasetModel) -> bool
    decreases m,
{
    pairs_unique(m.pairs) && pairs_values_wf(m.pairs)
}

/// Whether every value of the run of pairs is well formed.
pub open spec fn pairs_values_wf(p: Seq<(Seq<char>, EltModel)>) -> bool
    decreases p,
{
    if p.len() == 0 {
        true
    } else {
        pairs_values_wf(p.drop_last()) && elt_wf(p.last().1)
    }
}

pub broadcast proof fn lemma_pairs_values_wf_index(p: Seq<(Seq<char>, EltModel)>)
    ensures
        #[trigger] pairs_values_wf(p) <==> (forall|i: int|
            0 <= i < p.len() ==> elt_wf(#[trigger] p[i].1)),
    decreases p,
{
    if p.len() > 0 {
        lemma_pairs_values_wf_index(p.drop_last());
        if forall|i: int| 0 <= i < p.len() ==> elt_wf(#[trigger] p[i].1) {
            assert(forall|i: int|
                0 <= i < p.len() - 1 ==> p.drop_last()[i] == p[i] && elt_wf(#[trigger] p.drop_last()[i].1));
        }
        if pairs_values_wf(p) {
            assert(forall|i: int|
                0 <= i < p.len() - 1 ==> #[trigger] p[i] == p.drop_last()[i]);
        }
    }
}

pub broadcast proof fn lemma_datasets_wf_index(s: Seq<DatasetModel>)
    ensures
        #[trigger] datasets_wf(s) <==> (forall|i: int|
            0 <= i < s.len() ==> dataset_wf(#[trigger] s[i])),
    decreases s,
{
    if s.len() > 0 {
        lemma_datasets_wf_index(s.drop_last());
        if forall|i: int| 0 <= i < s.len() ==> dataset_wf(#[trigger] s[i]) {
            assert(forall|i: int|
                0 <= i < s.len() - 1 ==> s.drop_last()[i] == s[i] && dataset_wf(
                    #[trigger] s.drop_last()[i],
                ));
        }
        if datasets_wf(s) {
            assert(forall|i: int| 0 <= i < s.len() - 1 ==> #[trigger] s[i] == s.drop_last()[i]);
        }
    }
}

/// The value under `k` in the run of pairs: the first pair whose key is
/// `k`, or `None`.
pub open spec fn s_pairs_get(p: Seq<(Seq<char>, EltModel)>, k: Seq<char>) -> Option<EltModel>
    decreases p.len(),
{
    if p.len() == 0 {
        None
    } else if p[0].0 == k {
        Some(p[0].1)
    } else {
        s_pairs_get(p.subrange(1, p.len() as int), k)
    }
}

/// The value a dataset holds under keyword `k`, if any.
pub open spec fn s_slice_get(m: DatasetModel, k: Seq<char>) -> Option<EltModel> {
    s_pairs_get(m.pairs, k)
}

impl DicomSlice {
    /// The value held under the keyword `key`, if any.
    pub fn get<'a>(&'a self, key: &str) -> (r: Option<&'a DicomElt>)
        ensures
            match r {
                Some(e) => s_slice_get(slice_view(*self), key@) == Some(elt_view(*e)),
                None => s_slice_get(slice_view(*self), key@) is None,
            },
    {
        let kk = String::from_str(key);
        let n = self.keydict.len();
        let mut i: usize = 0;
        proof {
            lemma_pairs_view_index(self.keydict@);
            assert(pairs_view(self.keydict@).subrange(0, n as int) =~= pairs_view(self.keydict@));
        }
        while i < n
            invariant
                i <= n,
                n == self.keydict@.len(),
                kk@ == key@,
                pairs_view(self.keydict@).len() == n,
                forall|j: int|
                    0 <= j < n ==> pairs_view(self.keydict@)[j] == (
                        self.keydict@[j].0@,
                        elt_view(self.keydict@[j].1),
                    ),
                s_pairs_get(pairs_view(self.keydict@), key@) == s_pairs_get(
                    pairs_view(self.keydict@).subrange(i as int, n as int),
                    key@,
                ),
            decreases n - i,
        {
            let ghost tail = pairs_view(self.keydict@).subrange(i as int, n as int);
            if self.keydict[i].0.eq(&kk) {
                return Some(&self.keydict[i].1);
            }
            proof {
                assert(tail[0] == pairs_view(self.keydict@)[i as int]);
                assert(tail.subrange(1, tail.len() as int) =~= pairs_view(
                    self.keydict@,
                ).subrange(i as int + 1, n as int));
            }
            i = i + 1;
        }
        proof {
            assert(pairs_view(self.keydict@).subrange(n as int, n as int) =~= Seq::empty());
        }
        None
    }

    /// Whether the dataset holds a value under the keyword `key`.
    pub fn contains_key(&self, key: &str) -> (r: bool)
        ensures
            r == (s_slice_get(slice_view(*self), key@) is Some),
    {
        match self.get(key) {
            Some(_) => true,
            None => false,
        }
    }
}

pub proof fn lemma_pairs_get_some(p: Seq<(Seq<char>, EltModel)>, k: Seq<char>)
    ensures
        match s_pairs_get(p, k) {
            Some(e) => exists|i: int| 0 <= i < p.len() && p[i].0 == k && #[trigger] p[i].1 == e,
            None => true,
        },
    decreases p.len(),
{
    if p.len() > 0 {
        if p[0].0 == k {
            assert(p[0].1 == s_pairs_get(p, k)->Some_0);
        } else {
            lemma_pairs_get_some(p.subrange(1, p.len() as int), k);
            match s_pairs_get(p.subrange(1, p.len() as int), k) {
                Some(e) => {
                    let i = choose|i: int|
                        0 <= i < p.subrange(1, p.len() as int).len() && p.subrange(
                            1,
                            p.len() as int,
                        )[i].0 == k && #[trigger] p.subrange(1, p.len() as int)[i].1 == e;
                    assert(p[i + 1].0 == k && p[i + 1].1 == e);
                },
                None => {},
            }
        }
    }
}

/// A value looked up in a well-formed dataset is well formed.
pub proof fn lemma_get_wf(m: DatasetModel, k: Seq<char>)
    requires
        dataset_wf(m),
    ensures
        match s_slice_get(m, k) {
            Some(e) => elt_wf(e),
            None => true,
        },
{
    lemma_pairs_get_some(m.pairs, k);
    lemma_pairs_values_wf_index(m.pairs);
}

/// The z-position of a slice: the third decimal of ImagePositionPatient.
pub open spec fn s_slice_pos(m: DatasetModel) -> Result<Dec, DicomError> {
    match s_slice_get(m, "ImagePositionPatient"@) {
        Some(EltModel::Decimals(v)) => if v.len() >= 3 {
            Ok(v[2])
        } else {
            Err(DicomError::ValueTypeMismatch)
        },
        _ => Err(DicomError::ValueTypeMismatch),
    }
}

/// The pixel array of a slice: the 16-bit image under PixelData.
pub open spec fn s_slice_pixel(m: DatasetModel) -> Result<ImgModel16, DicomError> {
    match s_slice_get(m, "PixelData"@) {
        Some(EltModel::Image16(img)) => Ok(img),
        _ => Err(DicomError::ValueTypeMismatch),
    }
}

/// The rescale slope of a slice: the first decimal of RescaleSlope.
pub open spec fn s_slice_slope(m: DatasetModel) -> Result<Dec, DicomError> {
    match s_slice_get(m, "RescaleSlope"@) {
        Some(EltModel::Decimals(v)) => if v.len() >= 1 {
            Ok(v[0])
        } else {
            Err(DicomError::ValueTypeMismatch)
        },
        _ => Err(DicomError::ValueTypeMismatch),
    }
}

/// The rescale intercept of a slice: the first word of an unsigned
/// RescaleIntercept reinterpreted as 16-bit signed, or the first decimal
/// truncated toward zero.
pub open spec fn s_slice_intercept(m: DatasetModel) -> Result<i16, DicomError> {
    match s_slice_get(m, "RescaleIntercept"@) {
        Some(EltModel::UInt32s(v)) => if v.len() >= 1 {
            Ok(v[0] as i16)
        } else {
            Err(DicomError::ValueTypeMismatch)
        },
        Some(EltModel::Decimals(v)) => if v.len() >= 1 {
            Ok(s_dec_to_i16(v[0]))
        } else {
            Err(DicomError::ValueTypeMismatch)
        },
        _ => Err(DicomError::ValueTypeMismatch),
    }
}

/// The slice thickness: the first decimal of SliceThickness, or zero when
/// it is absent or of another kind.
pub open spec fn s_slice_thickness(m: DatasetModel) -> Dec {
    match s_slice_get(m, "SliceThickness"@) {
        Some(EltModel::Decimals(v)) => if v.len() >= 1 {
            v[0]
        } else {
            Dec { neg: false, mant: 0, scale: 0 }
        },
        _ => Dec { neg: false, mant: 0, scale: 0 },
    }
}

impl DicomSlice {
    /// The z-position: the third decimal of ImagePositionPatient.
    pub fn pos(&self) -> (r: Result<Dec, DicomError>)
        ensures
            r == s_slice_pos(slice_view(*self)),
            match r {
                Ok(p) => dataset_wf(slice_view(*self)) ==> dec_wf(p),
                Err(_) => true,
            },
    {
        proof {
            if dataset_wf(slice_view(*self)) {
                lemma_get_wf(slice_view(*self), "ImagePositionPatient"@);
            }
        }
        match self.get("ImagePositionPatient") {
            Some(DicomElt::Decimals(v)) => {
                if v.len() >= 3 {
                    Ok(v[2])
                } else {
                    Err(DicomError::ValueTypeMismatch)
                }
            },
            _ => Err(DicomError::ValueTypeMismatch),
        }
    }

    /// The pixel array: the 16-bit image under PixelData.
    pub fn pixel_data<'a>(&'a self) -> (r: Result<&'a DcmImg16, DicomError>)
        ensures
            match r {
                Ok(img) => s_slice_pixel(slice_view(*self)) == Ok::<_, DicomError>(
                    img16_view(*img),
                ),
                Err(e) => s_slice_pixel(slice_view(*self)) == Err::<ImgModel16, _>(e),
            },
    {
        match self.get("PixelData") {
            Some(DicomElt::Image16(img)) => Ok(img),
            _ => Err(DicomError::ValueTypeMismatch),
        }
    }

    /// The rescale slope: the first decimal of RescaleSlope.
    pub fn slope(&self) -> (r: Result<Dec, DicomError>)
        ensures
            r == s_slice_slope(slice_view(*self)),
            match r {
                Ok(s) => dataset_wf(slice_view(*self)) ==> dec_wf(s),
                Err(_) => true,
            },
    {
        proof {
            if dataset_wf(slice_view(*self)) {
                lemma_get_wf(slice_view(*self), "RescaleSlope"@);
            }
        }
        match self.get("RescaleSlope") {
            Some(DicomElt::Decimals(v)) => {
                if v.len() >= 1 {
                    Ok(v[0])
                } else {
                    Err(DicomError::ValueTypeMismatch)
                }
            },
            _ => Err(DicomError::ValueTypeMismatch),
        }
    }

    /// The rescale intercept, from an unsigned word or a decimal.
    pub fn intercept(&self) -> (r: Result<i16, DicomError>)
        requires
            dataset_wf(slice_view(*self)),
        ensures
            r == s_slice_intercept(slice_view(*self)),
    {
        proof {
            lemma_get_wf(slice_view(*self), "RescaleIntercept"@);
        }
        match self.get("RescaleIntercept") {
            Some(DicomElt::UInt32s(v)) => {
                if v.len() >= 1 {
                    Ok(v[0] as i16)
                } else {
                    Err(DicomError::ValueTypeMismatch)
                }
            },
            Some(DicomElt::Decimals(v)) => {
                if v.len() >= 1 {
                    Ok(dec_to_i16(&v[0]))
                } else {
                    Err(DicomError::ValueTypeMismatch)
                }
            },
            _ => Err(DicomError::ValueTypeMismatch),
        }
    }

    /// The slice thickness, or zero when it is absent.
    pub fn thickness(&self) -> (r: Dec)
        ensures
            r == s_slice_thickness(slice_view(*self)),
    {
        match self.get("SliceThickness") {
            Some(DicomElt::Decimals(v)) => {
                if v.len() >= 1 {
                    v[0]
                } else {
                    Dec { neg: false, mant: 0, scale: 0 }
                }
            },
            _ => Dec { neg: false, mant: 0, scale: 0 },
        }
    }
}

} // verus!
