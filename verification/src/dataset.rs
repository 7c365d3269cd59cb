//! The element decoder: a recursive descent over the encoded dataset.
//!
//! Each executable function mirrors a specification function over the byte
//! sequence, and its contract states that it returns exactly what the
//! specification decoder returns. The framing follows the dataset rules:
//! a little-endian tag, a representation read from the stream (explicit)
//! or from the dictionary (implicit), a two- or four-byte length, the
//! value, and a pad byte after any odd-length value.
//!
//! An element with the sentinel length 0xFFFFFFFF is delimited instead of
//! sized: a sequence or pixel-data element by its delimiter items, any
//! other by a scan for the sequence-delimiter word pair.

use vstd::prelude::*;
use vstd::slice::slice_subrange;
use vstd::slice::slice_to_vec;
use vstd::string::StringExecFns;
use crate::bytes::s_u16le;
use crate::bytes::s_u16le_seq;
use crate::bytes::s_u16be_seq;
use crate::bytes::s_u32le;
use crate::bytes::s_u32le_seq;
use crate::bytes::s_u32be_seq;
use crate::bytes::s_u64le_seq;
use crate::bytes::s_u64be_seq;
use crate::bytes::s_i16le_seq;
use crate::bytes::s_i32le_seq;
use crate::bytes::s_text;
use crate::bytes::read_u16le;
use crate::bytes::read_u32le;
use crate::bytes::bytes_of;
use crate::bytes::text_of;
use crate::bytes::parse_u16les;
use crate::bytes::parse_u16bes;
use crate::bytes::parse_i16les;
use crate::bytes::parse_u32les;
use crate::bytes::parse_i32les;
use crate::bytes::parse_u32bes;
use crate::bytes::parse_u64les;
use crate::bytes::parse_u64bes;
use crate::decimal::s_ds_values;
use crate::decimal::parse_ds;
use crate::dict::s_key;
use crate::dict::tag_key;
use crate::dict::lookup_vr;
use crate::dict::dict_keyword;
use crate::dict::s_lookup_vr;
use crate::dict::s_dict_keyword;
use crate::types::DicomError;
use crate::types::DcmImg16;
use crate::types::DcmImg8;
use crate::types::elt_view;
use crate::types::elt_wf;
use crate::types::slice_view;
use crate::types::slices_view;
use crate::types::pairs_view;
use crate::types::img16_view;
use crate::types::img8_view;
use crate::types::dataset_wf;
use crate::types::datasets_wf;
use crate::types::pairs_unique;
use crate::types::pairs_values_wf;
use crate::types::lemma_pairs_view_index;
use crate::types::lemma_slices_view_index;
use crate::types::lemma_pairs_values_wf_index;
use crate::types::lemma_datasets_wf_index;
use crate::types::DicomElt;
use crate::types::DicomSlice;
use crate::types::DatasetModel;
use crate::types::EltModel;
use crate::types::ImgModel16;
use crate::types::ImgModel8;
use crate::vr::Vr;
use crate::vr::vr_of_bytes;
use crate::vr::is_extra_length;
use crate::vr::always_implicit;
use crate::vr::s_always_implicit;
use crate::vr::s_is_extra_length;
use crate::vr::s_vr_of_bytes;

verus! {

/// The canonical key of the Rows tag.
pub const KEY_ROWS: u32 = 0x00100028;

/// The canonical key of the Columns tag.
pub const KEY_COLUMNS: u32 = 0x00110028;

/// The canonical key of the Planes tag.
pub const KEY_PLANES: u32 = 0x00120028;

/// One decoded element: its tag, its value, and the offset where the next
/// element begins.
pub struct EltDecode {
    pub grp: u16,
    pub elt: u16,
    pub val: EltModel,
    pub next: int,
}

/// The value under key `k` in the decoded-tag table: the first entry whose
/// key is `k`, or `None`.
pub open spec fn s_tags_get(t: Seq<(u32, EltModel)>, k: u32) -> Option<EltModel>
    decreases t.len(),
{
    if t.len() == 0 {
        None
    } else if t[0].0 == k {
        Some(t[0].1)
    } else {
        s_tags_get(t.subrange(1, t.len() as int), k)
    }
}

/// Whether the decoded-tag table holds an entry under key `k`.
pub open spec fn s_tags_contains(t: Seq<(u32, EltModel)>, k: u32) -> bool {
    s_tags_get(t, k) is Some
}

/// The offset of the element after one whose value of `consumed` bytes
/// starts at `voff`: the value and, after an odd-length value, one pad
/// byte, clamped to the end of the input.
pub open spec fn s_advance(voff: int, consumed: int, len: int) -> int {
    let a = voff + consumed + if consumed % 2 == 1 {
        1int
    } else {
        0int
    };
    if a > len {
        len
    } else {
        a
    }
}

/// The words of an undefined-length value: 16-bit words are scanned until
/// the pair (0xFFFE, 0xE0DD); a 0xFFFE word not followed by 0xE0DD is
/// emitted as payload, every other word is emitted as read. The result
/// also gives the offset after the delimiter pair and its trailing
/// four-byte length.
#[verifier::opaque]
pub open spec fn s_undef(d: Seq<u8>, off: int, prev: u16) -> Result<(int, Seq<u16>), DicomError>
    decreases d.len() - off,
{
    if off < 0 || off + 2 > d.len() {
        Err(DicomError::TruncatedInput)
    } else {
        let w2 = s_u16le(d, off);
        if prev == 0xFFFE && w2 == 0xE0DD {
            Ok((off + 6, Seq::empty()))
        } else {
            let head = (if prev == 0xFFFE {
                seq![0xFFFEu16]
            } else {
                Seq::empty()
            }) + (if w2 != 0xFFFE {
                seq![w2]
            } else {
                Seq::empty()
            });
            match s_undef(d, off + 2, w2) {
                Err(e) => Err(e),
                Ok((next, words)) => Ok((next, head + words)),
            }
        }
    }
}

/// The concatenated payloads of an encapsulated 8-bit pixel stream: items
/// framed (0xFFFE, 0xE000, length) until the (0xFFFE, 0xE0DD) delimiter;
/// any other tag between items is a fault.
#[verifier::opaque]
pub open spec fn s_encap8(d: Seq<u8>, off: int) -> Result<(Seq<u8>, int), DicomError>
    decreases d.len() - off,
{
    if off < 0 || off + 8 > d.len() {
        Err(DicomError::TruncatedInput)
    } else {
        let grp = s_u16le(d, off);
        let elt = s_u16le(d, off + 2);
        let ilen = s_u32le(d, off + 4) as int;
        let off2 = off + 8;
        if grp == 0xFFFE && elt == 0xE0DD {
            Ok((Seq::empty(), off2))
        } else if grp != 0xFFFE || elt != 0xE000 {
            Err(DicomError::UnexpectedTag)
        } else if off2 + ilen > d.len() {
            Err(DicomError::TruncatedInput)
        } else {
            match s_encap8(d, off2 + ilen) {
                Err(e) => Err(e),
                Ok((rest, next)) => Ok((d.subrange(off2, off2 + ilen) + rest, next)),
            }
        }
    }
}

/// The concatenated payloads of an encapsulated 16-bit pixel stream; each
/// item's payload is read as little-endian signed 16-bit words.
#[verifier::opaque]
pub open spec fn s_encap16(d: Seq<u8>, off: int) -> Result<(Seq<i16>, int), DicomError>
    decreases d.len() - off,
{
    if off < 0 || off + 8 > d.len() {
        Err(DicomError::TruncatedInput)
    } else {
        let grp = s_u16le(d, off);
        let elt = s_u16le(d, off + 2);
        let ilen = s_u32le(d, off + 4) as int;
        let off2 = off + 8;
        if grp == 0xFFFE && elt == 0xE0DD {
            Ok((Seq::empty(), off2))
        } else if grp != 0xFFFE || elt != 0xE000 {
            Err(DicomError::UnexpectedTag)
        } else if off2 + ilen > d.len() {
            Err(DicomError::TruncatedInput)
        } else {
            match s_encap16(d, off2 + ilen) {
                Err(e) => Err(e),
                Ok((rest, next)) => Ok((s_i16le_seq(d, off2, ilen / 2) + rest, next)),
            }
        }
    }
}

/// The pixel dimensions: the first word of the Rows, Columns and Planes
/// elements already decoded, or the defaults `xr_default`, 1 and 1.
pub open spec fn s_pix_dims(tags: Seq<(u32, EltModel)>, xr_default: int) -> (int, int, int) {
    let xr = match s_tags_get(tags, KEY_ROWS) {
        Some(EltModel::UInt16s(v)) => if v.len() > 0 {
            v[0] as int
        } else {
            xr_default
        },
        _ => xr_default,
    };
    let yr = match s_tags_get(tags, KEY_COLUMNS) {
        Some(EltModel::UInt16s(v)) => if v.len() > 0 {
            v[0] as int
        } else {
            1int
        },
        _ => 1int,
    };
    let zr = match s_tags_get(tags, KEY_PLANES) {
        Some(EltModel::UInt16s(v)) => if v.len() > 0 {
            v[0] as int
        } else {
            1int
        },
        _ => 1int,
    };
    (xr, yr, zr)
}

/// The decoded pixel-data value of the tail `d` and the bytes it consumes.
///
/// A sized value is the flat sample vector; the sentinel length means an
/// encapsulated stream whose item payloads are concatenated. Samples are
/// unsigned bytes under OB, little-endian signed 16-bit words otherwise.
/// When no Rows element was decoded, the width defaults to the sample
/// count; height and depth default to 1.
#[verifier::opaque]
pub open spec fn s_pixeldata(d: Seq<u8>, sz: u32, is_ob: bool, tags: Seq<(u32, EltModel)>) -> Result<
    (EltModel, int),
    DicomError,
> {
    let szi = sz as int;
    if sz != 0xFFFFFFFF {
        if szi > d.len() {
            Err(DicomError::TruncatedInput)
        } else {
            let xr_default = if is_ob {
                szi
            } else {
                szi / 2
            };
            let dims = s_pix_dims(tags, xr_default);
            if is_ob {
                Ok(
                    (
                        EltModel::Image8(
                            ImgModel8 {
                                xr: dims.0,
                                yr: dims.1,
                                zr: dims.2,
                                data: d.subrange(0, szi),
                            },
                        ),
                        szi,
                    ),
                )
            } else {
                Ok(
                    (
                        EltModel::Image16(
                            ImgModel16 {
                                xr: dims.0,
                                yr: dims.1,
                                zr: dims.2,
                                data: s_i16le_seq(d, 0, szi / 2),
                            },
                        ),
                        szi,
                    ),
                )
            }
        }
    } else {
        if is_ob {
            match s_encap8(d, 0) {
                Err(e) => Err(e),
                Ok((samples, next)) => {
                    let dims = s_pix_dims(tags, samples.len() as int);
                    Ok(
                        (
                            EltModel::Image8(
                                ImgModel8 { xr: dims.0, yr: dims.1, zr: dims.2, data: samples },
                            ),
                            next,
                        ),
                    )
                },
            }
        } else {
            match s_encap16(d, 0) {
                Err(e) => Err(e),
                Ok((samples, next)) => {
                    let dims = s_pix_dims(tags, samples.len() as int);
                    Ok(
                        (
                            EltModel::Image16(
                                ImgModel16 { xr: dims.0, yr: dims.1, zr: dims.2, data: samples },
                            ),
                            next,
                        ),
                    )
                },
            }
        }
    }
}

/// The general value dispatch for a sized, non-sequence, non-pixel value
/// of representation `vro` at `voff`, `szi` bytes long. `None` means the
/// representation is unknown.
#[verifier::opaque]
pub open spec fn s_dispatch(d: Seq<u8>, voff: int, szi: int, vro: Option<Vr>) -> Result<
    EltModel,
    DicomError,
> {
    if voff + szi > d.len() {
        Err(DicomError::TruncatedInput)
    } else {
        match vro {
            Some(Vr::AT) => if szi < 4 {
                Err(DicomError::TruncatedInput)
            } else {
                Ok(EltModel::UInt16s(s_u16le_seq(d, voff, 2)))
            },
            Some(Vr::AE) | Some(Vr::AS) | Some(Vr::CS) | Some(Vr::DA) | Some(Vr::DT) | Some(
                Vr::LO,
            ) | Some(Vr::PN) | Some(Vr::SH) | Some(Vr::TM) | Some(Vr::UI) | Some(Vr::ST) | Some(
                Vr::LT,
            ) | Some(Vr::UT) => Ok(EltModel::Text(s_text(d, voff, szi))),
            Some(Vr::IS) | Some(Vr::DS) => match s_ds_values(d.subrange(voff, voff + szi), 0) {
                None => Err(DicomError::BadNumber),
                Some(v) => Ok(EltModel::Decimals(v)),
            },
            Some(Vr::FL) => Ok(EltModel::Float32Bits(s_u32le_seq(d, voff, szi / 4))),
            Some(Vr::FD) => Ok(EltModel::Float64Bits(s_u64le_seq(d, voff, szi / 8))),
            Some(Vr::SL) => Ok(EltModel::Int32s(s_i32le_seq(d, voff, szi / 4))),
            Some(Vr::SS) => Ok(EltModel::Int16s(s_i16le_seq(d, voff, szi / 2))),
            Some(Vr::UL) => Ok(EltModel::UInt32s(s_u32le_seq(d, voff, szi / 4))),
            Some(Vr::US) => Ok(EltModel::UInt16s(s_u16le_seq(d, voff, szi / 2))),
            Some(Vr::OB) | Some(Vr::UN) => Ok(EltModel::Bytes(d.subrange(voff, voff + szi))),
            Some(Vr::OD) => Ok(EltModel::Float64Bits(s_u64be_seq(d, voff, szi / 8))),
            Some(Vr::OF) => Ok(EltModel::Float32Bits(s_u32be_seq(d, voff, szi / 4))),
            Some(Vr::OW) => Ok(EltModel::UInt16s(s_u16be_seq(d, voff, szi / 2))),
            _ => Err(DicomError::UnknownVR),
        }
    }
}

/// One decoded element of `d` at `off`.
///
/// The tag is read little-endian; under `evr` (except for item and
/// delimiter tags) the representation comes from the stream, with a
/// four-byte length after two reserved bytes for the extra-length
/// representations and a two-byte length otherwise; under implicit
/// representation it comes from the dictionary, with a four-byte length.
/// Odd private groups force LO for creator elements and UN otherwise.
/// An empty or XX value is `Empty`; the pixel-data tag uses the
/// pixel-data rules; SQ uses the sequence rules; any other value with the
/// sentinel length is scanned for the sequence delimiter.
#[verifier::opaque]
pub open spec fn s_element(
    d: Seq<u8>,
    off: int,
    evr: bool,
    tags: Seq<(u32, EltModel)>,
) -> Result<EltDecode, DicomError>
    decreases d.len(), d.len() - off, 1int,
{
    let len = d.len() as int;
    if off < 0 || off + 4 > len {
        Err(DicomError::TruncatedInput)
    } else {
        let grp = s_u16le(d, off);
        let elt = s_u16le(d, off + 2);
        if evr && !s_always_implicit(grp, elt) {
            if off + 6 > len {
                Err(DicomError::TruncatedInput)
            } else {
                let vro = s_vr_of_bytes(d[off + 4], d[off + 5]);
                let extra = match vro {
                    Some(v) => s_is_extra_length(v),
                    None => false,
                };
                if extra {
                    if off + 12 > len {
                        Err(DicomError::TruncatedInput)
                    } else {
                        s_element_value(d, off, grp, elt, s_u32le(d, off + 8), off + 12, vro, evr, tags)
                    }
                } else {
                    if off + 8 > len {
                        Err(DicomError::TruncatedInput)
                    } else {
                        s_element_value(
                            d,
                            off,
                            grp,
                            elt,
                            s_u16le(d, off + 6) as u32,
                            off + 8,
                            vro,
                            evr,
                            tags,
                        )
                    }
                }
            }
        } else {
            match s_lookup_vr(grp, elt) {
                None => Err(DicomError::UnknownVR),
                Some(v) => if off + 8 > len {
                    Err(DicomError::TruncatedInput)
                } else {
                    s_element_value(d, off, grp, elt, s_u32le(d, off + 4), off + 8, Some(v), evr, tags)
                },
            }
        }
    }
}

/// The decoded value of the element whose header names representation
/// `vro0` and length `sz`, with the value starting at `voff`; the private
/// override is applied here.
#[verifier::opaque]
pub open spec fn s_element_value(
    d: Seq<u8>,
    off: int,
    grp: u16,
    elt: u16,
    sz: u32,
    voff: int,
    vro0: Option<Vr>,
    evr: bool,
    tags: Seq<(u32, EltModel)>,
) -> Result<EltDecode, DicomError>
    decreases d.len(), d.len() - off, 0int,
{
    let len = d.len() as int;
    let vro = if grp % 2 == 1 && grp > 0x0008 {
        if 0x0010 <= elt && elt < 0x00FF {
            Some(Vr::LO)
        } else {
            Some(Vr::UN)
        }
    } else {
        vro0
    };
    let szi = sz as int;
    if sz == 0 || vro == Some(Vr::XX) {
        Ok(EltDecode { grp, elt, val: EltModel::Empty, next: s_advance(voff, szi, len) })
    } else if grp == 0x7FE0 && elt == 0x0010 {
        match s_pixeldata(d.subrange(voff, len), sz, vro == Some(Vr::OB), tags) {
            Err(e) => Err(e),
            Ok((val, consumed)) => Ok(
                EltDecode { grp, elt, val, next: s_advance(voff, consumed, len) },
            ),
        }
    } else if vro == Some(Vr::SQ) {
        let region_end = if sz == 0xFFFFFFFF {
            len
        } else {
            voff + szi
        };
        if region_end > len || voff < 8 || voff > region_end {
            Err(DicomError::TruncatedInput)
        } else {
            match s_sequence(d.subrange(voff, region_end), 0, evr) {
                Err(e) => Err(e),
                Ok((items, consumed)) => Ok(
                    EltDecode {
                        grp,
                        elt,
                        val: EltModel::Items(items),
                        next: s_advance(voff, consumed, len),
                    },
                ),
            }
        }
    } else if sz == 0xFFFFFFFF {
        match s_undef(d.subrange(voff, len), 0, 0) {
            Err(e) => Err(e),
            Ok((next_rel, words)) => Ok(
                EltDecode {
                    grp,
                    elt,
                    val: EltModel::UInt16s(words),
                    next: s_advance(voff, next_rel, len),
                },
            ),
        }
    } else {
        match s_dispatch(d, voff, szi, vro) {
            Err(e) => Err(e),
            Ok(val) => Ok(EltDecode { grp, elt, val, next: s_advance(voff, szi, len) }),
        }
    }
}

/// The items of a sequence region: item headers (0xFFFE, 0xE000, length)
/// each followed by a dataset, until the sequence delimiter or the end of
/// the region. The result also gives the offset after the last consumed
/// byte.
#[verifier::opaque]
pub open spec fn s_sequence(d: Seq<u8>, off: int, evr: bool) -> Result<
    (Seq<DatasetModel>, int),
    DicomError,
>
    decreases d.len(), d.len() - off, 3int,
{
    let len = d.len() as int;
    if off < 0 {
        Err(DicomError::TruncatedInput)
    } else if off >= len {
        Ok((Seq::empty(), off))
    } else if off + 8 > len {
        Err(DicomError::TruncatedInput)
    } else {
        let grp = s_u16le(d, off);
        let elt = s_u16le(d, off + 2);
        let ilen = s_u32le(d, off + 4);
        let off2 = off + 8;
        if grp == 0xFFFE && elt == 0xE0DD {
            Ok((Seq::empty(), off2))
        } else if grp != 0xFFFE || elt != 0xE000 {
            Err(DicomError::UnexpectedTag)
        } else {
            let item_end = if ilen == 0xFFFFFFFF {
                len
            } else {
                off2 + ilen as int
            };
            if item_end > len {
                Err(DicomError::TruncatedInput)
            } else {
                match s_item(d, off2, item_end, evr, Seq::empty(), Seq::empty()) {
                    Err(e) => Err(e),
                    Ok((pairs, newoff)) => if newoff <= off || newoff > len {
                        Err(DicomError::TruncatedInput)
                    } else {
                        match s_sequence(d, newoff, evr) {
                            Err(e) => Err(e),
                            Ok((rest, fin)) => Ok(
                                (seq![DatasetModel { pairs }] + rest, fin),
                            ),
                        }
                    },
                }
            }
        }
    }
}

/// The keyword map of one sequence item from `off` to `item_end` or its
/// delimiter: each element whose tag the dictionary knows is recorded
/// under its keyword; a tag or keyword seen twice is a fault. Elements
/// inside an item are decoded without a tag table, so nested pixel data
/// uses the default dimensions.
#[verifier::opaque]
pub open spec fn s_item(
    d: Seq<u8>,
    off: int,
    item_end: int,
    evr: bool,
    seen: Seq<u32>,
    kws: Seq<Seq<char>>,
) -> Result<(Seq<(Seq<char>, EltModel)>, int), DicomError>
    decreases d.len(), d.len() - off, 2int,
{
    if off < 0 {
        Err(DicomError::TruncatedInput)
    } else if off >= item_end {
        Ok((Seq::empty(), off))
    } else {
        match s_element(d, off, evr, Seq::empty()) {
            Err(e) => Err(e),
            Ok(ed) => {
                if ed.grp == 0xFFFE && ed.elt == 0xE00D {
                    Ok((Seq::empty(), ed.next))
                } else if ed.next <= off || ed.next > d.len() {
                    Err(DicomError::TruncatedInput)
                } else {
                    let key = s_key(ed.grp, ed.elt);
                    if seen.contains(key) {
                        Err(DicomError::DuplicateKey)
                    } else {
                        match s_dict_keyword(key) {
                            Some(kw) => if kws.contains(kw) {
                                Err(DicomError::DuplicateKey)
                            } else {
                                match s_item(d, ed.next, item_end, evr, seen.push(key), kws.push(kw)) {
                                    Err(e) => Err(e),
                                    Ok((rest, fin)) => Ok((seq![(kw, ed.val)] + rest, fin)),
                                }
                            },
                            None => s_item(d, ed.next, item_end, evr, seen.push(key), kws),
                        }
                    }
                }
            },
        }
    }
}

/// The keyword map of the dataset running from `off` to within two bytes
/// of the end of `d`. Decoded values are kept in the tag table for the
/// pixel-data dimensions; a tag or keyword seen twice is a fault.
#[verifier::opaque]
pub open spec fn s_dataset(
    d: Seq<u8>,
    off: int,
    evr: bool,
    tags: Seq<(u32, EltModel)>,
    kws: Seq<Seq<char>>,
) -> Result<Seq<(Seq<char>, EltModel)>, DicomError>
    decreases d.len(), d.len() - off, 2int,
{
    let len = d.len() as int;
    if off < 0 {
        Err(DicomError::TruncatedInput)
    } else if off + 2 >= len {
        Ok(Seq::empty())
    } else {
        match s_element(d, off, evr, tags) {
            Err(e) => Err(e),
            Ok(ed) => {
                if ed.next <= off || ed.next > len {
                    Err(DicomError::TruncatedInput)
                } else {
                    let key = s_key(ed.grp, ed.elt);
                    if s_tags_contains(tags, key) {
                        Err(DicomError::DuplicateKey)
                    } else {
                        match s_dict_keyword(key) {
                            Some(kw) => if kws.contains(kw) {
                                Err(DicomError::DuplicateKey)
                            } else {
                                match s_dataset(
                                    d,
                                    ed.next,
                                    evr,
                                    tags.push((key, ed.val)),
                                    kws.push(kw),
                                ) {
                                    Err(e) => Err(e),
                                    Ok(rest) => Ok(seq![(kw, ed.val)] + rest),
                                }
                            },
                            None => s_dataset(d, ed.next, evr, tags.push((key, ed.val)), kws),
                        }
                    }
                }
            },
        }
    }
}

/// The dataset decoded from `d` at `start`: the transfer syntax is
/// explicit when bytes four and five past `start` name a representation,
/// implicit otherwise.
pub open spec fn s_read_dataset(d: Seq<u8>, start: int) -> Result<DatasetModel, DicomError> {
    if start < 0 || start + 6 > d.len() {
        Err(DicomError::TruncatedInput)
    } else {
        let evr = s_vr_of_bytes(d[start + 4], d[start + 5]) is Some;
        match s_dataset(d, start, evr, Seq::empty(), Seq::empty()) {
            Err(e) => Err(e),
            Ok(pairs) => Ok(DatasetModel { pairs }),
        }
    }
}

/// The slice parsed from a whole file image: a 128-byte preamble, the
/// ASCII marker DICM, then the dataset.
pub open spec fn s_parse(d: Seq<u8>) -> Result<DatasetModel, DicomError> {
    if d.len() < 132 {
        Err(DicomError::TruncatedInput)
    } else if !(d[128] == 68 && d[129] == 73 && d[130] == 67 && d[131] == 77) {
        Err(DicomError::BadMagic)
    } else {
        s_read_dataset(d, 132)
    }
}

/// The content of a decoded-tag table.
pub open spec fn tags_view(t: Seq<(u32, DicomElt)>) -> Seq<(u32, EltModel)>
    decreases t,
{
    if t.len() == 0 {
        Seq::empty()
    } else {
        tags_view(t.drop_last()).push((t.last().0, elt_view(t.last().1)))
    }
}

pub broadcast proof fn lemma_tags_view_index(t: Seq<(u32, DicomElt)>)
    ensures
        (#[trigger] tags_view(t)).len() == t.len(),
        forall|i: int| 0 <= i < t.len() ==> tags_view(t)[i] == (t[i].0, elt_view(t[i].1)),
    decreases t,
{
    if t.len() > 0 {
        lemma_tags_view_index(t.drop_last());
    }
}

pub broadcast proof fn lemma_slices_view_push(s: Seq<DicomSlice>, x: DicomSlice)
    ensures
        #[trigger] slices_view(s.push(x)) == slices_view(s).push(slice_view(x)),
{
    assert(s.push(x).drop_last() =~= s);
    assert(s.push(x).last() == x);
}

pub broadcast proof fn lemma_pairs_view_push(p: Seq<(String, DicomElt)>, x: (String, DicomElt))
    ensures
        #[trigger] pairs_view(p.push(x)) == pairs_view(p).push((x.0@, elt_view(x.1))),
{
    assert(p.push(x).drop_last() =~= p);
    assert(p.push(x).last() == x);
}

pub broadcast proof fn lemma_tags_view_push(t: Seq<(u32, DicomElt)>, x: (u32, DicomElt))
    ensures
        #[trigger] tags_view(t.push(x)) == tags_view(t).push((x.0, elt_view(x.1))),
{
    assert(t.push(x).drop_last() =~= t);
    assert(t.push(x).last() == x);
}

/// The value decoded earlier under tag key `k`, if any.
fn tags_get<'a>(t: &'a Vec<(u32, DicomElt)>, k: u32) -> (r: Option<&'a DicomElt>)
    ensures
        match r {
            Some(e) => s_tags_get(tags_view(t@), k) == Some(elt_view(*e)),
            None => s_tags_get(tags_view(t@), k) is None,
        },
{
    let n = t.len();
    let mut i: usize = 0;
    proof {
        lemma_tags_view_index(t@);
        assert(tags_view(t@).subrange(0, n as int) =~= tags_view(t@));
    }
    while i < n
        invariant
            i <= n,
            n == t@.len(),
            tags_view(t@).len() == n,
            forall|j: int| 0 <= j < n ==> tags_view(t@)[j] == (t@[j].0, elt_view(t@[j].1)),
            s_tags_get(tags_view(t@), k) == s_tags_get(
                tags_view(t@).subrange(i as int, n as int),
                k,
            ),
        decreases n - i,
    {
        let ghost tail = tags_view(t@).subrange(i as int, n as int);
        if t[i].0 == k {
            return Some(&t[i].1);
        }
        proof {
            assert(tail[0] == tags_view(t@)[i as int]);
            assert(tail.subrange(1, tail.len() as int) =~= tags_view(t@).subrange(
                i as int + 1,
                n as int,
            ));
        }
        i = i + 1;
    }
    proof {
        assert(tags_view(t@).subrange(n as int, n as int) =~= Seq::empty());
    }
    None
}

/// Whether a value was decoded earlier under tag key `k`.
fn tags_contains(t: &Vec<(u32, DicomElt)>, k: u32) -> (r: bool)
    ensures
        r == s_tags_contains(tags_view(t@), k),
{
    match tags_get(t, k) {
        Some(_) => true,
        None => false,
    }
}

/// The keys of a run of keyword/value pairs.
pub open spec fn keys_of(p: Seq<(Seq<char>, EltModel)>) -> Seq<Seq<char>> {
    p.map_values(|pr: (Seq<char>, EltModel)| pr.0)
}

/// Whether the keyword map already holds the keyword `kw`.
fn keydict_contains(acc: &Vec<(String, DicomElt)>, kw: &String) -> (r: bool)
    ensures
        r == keys_of(pairs_view(acc@)).contains(kw@),
{
    let n = acc.len();
    let mut i: usize = 0;
    proof {
        lemma_pairs_view_index(acc@);
    }
    while i < n
        invariant
            i <= n,
            n == acc@.len(),
            pairs_view(acc@).len() == n,
            forall|j: int|
                0 <= j < n ==> pairs_view(acc@)[j] == (acc@[j].0@, elt_view(acc@[j].1)),
            forall|j: int| 0 <= j < i ==> keys_of(pairs_view(acc@))[j] != kw@,
        decreases n - i,
    {
        if acc[i].0.eq(kw) {
            proof {
                assert(keys_of(pairs_view(acc@))[i as int] == kw@);
            }
            return true;
        }
        i = i + 1;
    }
    proof {
        assert(forall|j: int| 0 <= j < n ==> keys_of(pairs_view(acc@))[j] != kw@);
    }
    false
}

/// The offset of the next element: past the value and its pad byte,
/// clamped to the end of the input.
fn advance(voff: usize, consumed: usize, n: usize) -> (r: usize)
    requires
        voff <= n,
    ensures
        r as int == s_advance(voff as int, consumed as int, n as int),
        voff <= r <= n,
{
    let a = match voff.checked_add(consumed) {
        Some(a) => a,
        None => {
            return n;
        },
    };
    let a2 = if consumed % 2 == 1 {
        match a.checked_add(1) {
            Some(b) => b,
            None => {
                return n;
            },
        }
    } else {
        a
    };
    if a2 > n {
        n
    } else {
        a2
    }
}

/// A copy of a pixel array with the same content.
fn clone_img16(i: &DcmImg16) -> (r: DcmImg16)
    ensures
        img16_view(r) == img16_view(*i),
{
    DcmImg16 { xr: i.xr, yr: i.yr, zr: i.zr, data: slice_to_vec(i.data.as_slice()) }
}

/// A copy of a pixel array with the same content.
fn clone_img8(i: &DcmImg8) -> (r: DcmImg8)
    ensures
        img8_view(r) == img8_view(*i),
{
    DcmImg8 { xr: i.xr, yr: i.yr, zr: i.zr, data: slice_to_vec(i.data.as_slice()) }
}

/// A copy of an element value with the same content.
#[verifier::loop_isolation(false)]
pub fn clone_elt(e: &DicomElt) -> (r: DicomElt)
    ensures
        elt_view(r) == elt_view(*e),
    decreases *e,
{
    match e {
        DicomElt::Int16s(v) => DicomElt::Int16s(slice_to_vec(v.as_slice())),
        DicomElt::UInt16s(v) => DicomElt::UInt16s(slice_to_vec(v.as_slice())),
        DicomElt::Int32s(v) => DicomElt::Int32s(slice_to_vec(v.as_slice())),
        DicomElt::UInt32s(v) => DicomElt::UInt32s(slice_to_vec(v.as_slice())),
        DicomElt::Decimals(v) => DicomElt::Decimals(slice_to_vec(v.as_slice())),
        DicomElt::Float64Bits(v) => DicomElt::Float64Bits(slice_to_vec(v.as_slice())),
        DicomElt::Float32Bits(v) => DicomElt::Float32Bits(slice_to_vec(v.as_slice())),
        DicomElt::Text(s) => DicomElt::Text(s.clone()),
        DicomElt::Bytes(v) => DicomElt::Bytes(slice_to_vec(v.as_slice())),
        DicomElt::Items(items) => {
            let n = items.len();
            let mut out: Vec<DicomSlice> = Vec::new();
            let mut i: usize = 0;
            proof {
                lemma_slices_view_index(items@);
            }
            while i < n
                invariant
                    i <= n,
                    n == items@.len(),
                    slices_view(items@).len() == n,
                    forall|j: int|
                        0 <= j < n ==> slices_view(items@)[j] == slice_view(items@[j]),
                    slices_view(out@) == slices_view(items@).subrange(0, i as int),
                decreases n - i,
            {
                proof {
                    broadcast use vstd::std_specs::vec::axiom_vec_index_decreases;
                    assert(*e == DicomElt::Items(*items));
                    assert(decreases_to!(DicomElt::Items(*items) => *items));
                    assert(decreases_to!(*items => items@[i as int]));
                }
                let ghost out_old = out@;
                let c = clone_slice(&items[i]);
                out.push(c);
                i = i + 1;
                proof {
                    lemma_slices_view_push(out_old, c);
                    assert(slices_view(out@) =~= slices_view(items@).subrange(0, i as int));
                }
            }
            proof {
                assert(slices_view(items@).subrange(0, n as int) =~= slices_view(items@));
            }
            DicomElt::Items(out)
        },
        DicomElt::Image16(i) => DicomElt::Image16(clone_img16(i)),
        DicomElt::Image8(i) => DicomElt::Image8(clone_img8(i)),
        DicomElt::Empty => DicomElt::Empty,
    }
}

/// A copy of a dataset with the same content.
#[verifier::loop_isolation(false)]
pub fn clone_slice(s: &DicomSlice) -> (r: DicomSlice)
    ensures
        slice_view(r) == slice_view(*s),
    decreases *s,
{
    let n = s.keydict.len();
    let mut out: Vec<(String, DicomElt)> = Vec::new();
    let mut i: usize = 0;
    proof {
        lemma_pairs_view_index(s.keydict@);
    }
    while i < n
        invariant
            i <= n,
            n == s.keydict@.len(),
            pairs_view(s.keydict@).len() == n,
            forall|j: int|
                0 <= j < n ==> pairs_view(s.keydict@)[j] == (
                    s.keydict@[j].0@,
                    elt_view(s.keydict@[j].1),
                ),
            pairs_view(out@) == pairs_view(s.keydict@).subrange(0, i as int),
        decreases n - i,
    {
        proof {
            broadcast use vstd::std_specs::vec::axiom_vec_index_decreases;
            assert(decreases_to!(*s => s.keydict));
            assert(decreases_to!(s.keydict => s.keydict@[i as int]));
            assert(decreases_to!(s.keydict@[i as int] => s.keydict@[i as int].1));
        }
        let ghost out_old = out@;
        let k = s.keydict[i].0.clone();
        let v = clone_elt(&s.keydict[i].1);
        out.push((k, v));
        i = i + 1;
        proof {
            lemma_pairs_view_push(out_old, ((k, v)));
            assert(pairs_view(out@) =~= pairs_view(s.keydict@).subrange(0, i as int));
        }
    }
    proof {
        assert(pairs_view(s.keydict@).subrange(0, n as int) =~= pairs_view(s.keydict@));
    }
    DicomSlice { keydict: out }
}

/// `pre` prepended to the words of `o`, or the fault of `o`.
pub open spec fn s_undef_compose(
    pre: Seq<u16>,
    o: Result<(int, Seq<u16>), DicomError>,
) -> Result<(int, Seq<u16>), DicomError> {
    match o {
        Err(e) => Err(e),
        Ok((next, ws)) => Ok((next, pre + ws)),
    }
}

/// The words of an undefined-length value at the start of `data`, and the
/// offset just past the sequence delimiter and its trailing length.
#[verifier::loop_isolation(false)]
pub fn undefined_length(data: &[u8]) -> (r: Result<(usize, Vec<u16>), DicomError>)
    ensures
        match r {
            Ok((next, v)) => match s_undef(data@, 0, 0) {
                Ok((nx, ws)) => ws == v@ && next as int == (if nx > data@.len() {
                    data@.len() as int
                } else {
                    nx
                }),
                Err(_) => false,
            },
            Err(e) => s_undef(data@, 0, 0) == Err::<(int, Seq<u16>), _>(e),
        },
{
    reveal(s_undef);
    let n = data.len();
    let mut off: usize = 0;
    let mut prev: u16 = 0;
    let mut words: Vec<u16> = Vec::new();
    loop
        invariant
            off <= n,
            s_undef(data@, 0, 0) == s_undef_compose(words@, s_undef(data@, off as int, prev)),
        decreases n - off,
    {
        reveal(s_undef);
        if n < 2 || off > n - 2 {
            return Err(DicomError::TruncatedInput);
        }
        let w2 = read_u16le(data, off);
        if prev == 0xFFFE && w2 == 0xE0DD {
            proof {
                assert(words@ + Seq::<u16>::empty() =~= words@);
            }
            if n < 6 || off > n - 6 {
                return Ok((n, words));
            }
            return Ok((off + 6, words));
        }
        let ghost words_old = words@;
        if prev == 0xFFFE {
            words.push(0xFFFE);
        }
        if w2 != 0xFFFE {
            words.push(w2);
        }
        proof {
            let head = (if prev == 0xFFFEu16 {
                seq![0xFFFEu16]
            } else {
                Seq::<u16>::empty()
            }) + (if w2 != 0xFFFE {
                seq![w2]
            } else {
                Seq::<u16>::empty()
            });
            assert(words@ =~= words_old + head);
            match s_undef(data@, off as int + 2, w2) {
                Err(_) => {},
                Ok((nx, ws)) => {
                    assert(words_old + (head + ws) =~= (words_old + head) + ws);
                },
            }
        }
        prev = w2;
        off = off + 2;
    }
}

/// The pixel dimensions from the decoded-tag table, with `xr_default` as
/// the fallback width.
fn pix_dims(elements: &Vec<(u32, DicomElt)>, xr_default: usize) -> (r: (usize, usize, usize))
    ensures
        (r.0 as int, r.1 as int, r.2 as int) == s_pix_dims(tags_view(elements@), xr_default as int),
{
    let xr: usize = match tags_get(elements, KEY_ROWS) {
        Some(DicomElt::UInt16s(v)) => if v.len() > 0 {
            v[0] as usize
        } else {
            xr_default
        },
        _ => xr_default,
    };
    let yr: usize = match tags_get(elements, KEY_COLUMNS) {
        Some(DicomElt::UInt16s(v)) => if v.len() > 0 {
            v[0] as usize
        } else {
            1
        },
        _ => 1,
    };
    let zr: usize = match tags_get(elements, KEY_PLANES) {
        Some(DicomElt::UInt16s(v)) => if v.len() > 0 {
            v[0] as usize
        } else {
            1
        },
        _ => 1,
    };
    (xr, yr, zr)
}

/// `pre` prepended to the samples of `o`, or the fault of `o`.
pub open spec fn s_encap8_compose(
    pre: Seq<u8>,
    o: Result<(Seq<u8>, int), DicomError>,
) -> Result<(Seq<u8>, int), DicomError> {
    match o {
        Err(e) => Err(e),
        Ok((ws, next)) => Ok((pre + ws, next)),
    }
}

/// `pre` prepended to the samples of `o`, or the fault of `o`.
pub open spec fn s_encap16_compose(
    pre: Seq<i16>,
    o: Result<(Seq<i16>, int), DicomError>,
) -> Result<(Seq<i16>, int), DicomError> {
    match o {
        Err(e) => Err(e),
        Ok((ws, next)) => Ok((pre + ws, next)),
    }
}

/// The concatenated payloads of an encapsulated 8-bit pixel stream at the
/// start of `data`, and the offset past its delimiter.
#[verifier::loop_isolation(false)]
fn encap8(data: &[u8]) -> (r: Result<(Vec<u8>, usize), DicomError>)
    ensures
        match r {
            Ok((v, next)) => s_encap8(data@, 0) == Ok::<_, DicomError>((v@, next as int)) && next
                <= data@.len(),
            Err(e) => s_encap8(data@, 0) == Err::<(Seq<u8>, int), _>(e),
        },
{
    reveal(s_encap8);
    let n = data.len();
    let mut off: usize = 0;
    let mut samples: Vec<u8> = Vec::new();
    loop
        invariant
            off <= n,
            s_encap8(data@, 0) == s_encap8_compose(samples@, s_encap8(data@, off as int)),
        decreases n - off,
    {
        reveal(s_encap8);
        if n < 8 || off > n - 8 {
            return Err(DicomError::TruncatedInput);
        }
        let grp = read_u16le(data, off);
        let elt = read_u16le(data, off + 2);
        let ilen = read_u32le(data, off + 4) as usize;
        let off2 = off + 8;
        if grp == 0xFFFE && elt == 0xE0DD {
            proof {
                assert(samples@ + Seq::<u8>::empty() =~= samples@);
            }
            return Ok((samples, off2));
        }
        if grp != 0xFFFE || elt != 0xE000 {
            return Err(DicomError::UnexpectedTag);
        }
        if ilen > n - off2 {
            return Err(DicomError::TruncatedInput);
        }
        let ghost samples_old = samples@;
        let mut part = bytes_of(data, off2, ilen);
        samples.append(&mut part);
        proof {
            assert(samples@ =~= samples_old + data@.subrange(off2 as int, off2 + ilen));
            match s_encap8(data@, off2 + ilen) {
                Err(_) => {},
                Ok((rest, nx)) => {
                    assert(samples_old + (data@.subrange(off2 as int, off2 + ilen) + rest) =~= (
                    samples_old + data@.subrange(off2 as int, off2 + ilen)) + rest);
                },
            }
        }
        off = off2 + ilen;
    }
}

/// The concatenated payloads of an encapsulated 16-bit pixel stream at the
/// start of `data`, and the offset past its delimiter.
#[verifier::loop_isolation(false)]
fn encap16(data: &[u8]) -> (r: Result<(Vec<i16>, usize), DicomError>)
    ensures
        match r {
            Ok((v, next)) => s_encap16(data@, 0) == Ok::<_, DicomError>((v@, next as int)) && next
                <= data@.len(),
            Err(e) => s_encap16(data@, 0) == Err::<(Seq<i16>, int), _>(e),
        },
{
    reveal(s_encap16);
    let n = data.len();
    let mut off: usize = 0;
    let mut samples: Vec<i16> = Vec::new();
    loop
        invariant
            off <= n,
            s_encap16(data@, 0) == s_encap16_compose(samples@, s_encap16(data@, off as int)),
        decreases n - off,
    {
        reveal(s_encap16);
        if n < 8 || off > n - 8 {
            return Err(DicomError::TruncatedInput);
        }
        let grp = read_u16le(data, off);
        let elt = read_u16le(data, off + 2);
        let ilen = read_u32le(data, off + 4) as usize;
        let off2 = off + 8;
        if grp == 0xFFFE && elt == 0xE0DD {
            proof {
                assert(samples@ + Seq::<i16>::empty() =~= samples@);
            }
            return Ok((samples, off2));
        }
        if grp != 0xFFFE || elt != 0xE000 {
            return Err(DicomError::UnexpectedTag);
        }
        if ilen > n - off2 {
            return Err(DicomError::TruncatedInput);
        }
        let ghost samples_old = samples@;
        let mut part = parse_i16les(data, off2, ilen / 2);
        samples.append(&mut part);
        proof {
            assert(samples@ =~= samples_old + crate::bytes::s_i16le_seq(
                data@,
                off2 as int,
                ilen as int / 2,
            ));
            match s_encap16(data@, off2 + ilen) {
                Err(_) => {},
                Ok((rest, nx)) => {
                    assert(samples_old + (crate::bytes::s_i16le_seq(
                        data@,
                        off2 as int,
                        ilen as int / 2,
                    ) + rest) =~= (samples_old + crate::bytes::s_i16le_seq(
                        data@,
                        off2 as int,
                        ilen as int / 2,
                    )) + rest);
                },
            }
        }
        off = off2 + ilen;
    }
}

/// The pixel-data value of the tail `data` under the element length `sz`
/// and the decoded-tag table, and the bytes it consumes.
pub fn pixeldata_parse(
    data: &[u8],
    sz: u32,
    is_ob: bool,
    elements: &Vec<(u32, DicomElt)>,
) -> (r: Result<(DicomElt, usize), DicomError>)
    ensures
        match r {
            Ok((v, consumed)) => s_pixeldata(data@, sz, is_ob, tags_view(elements@)) == Ok::<
                _,
                DicomError,
            >((elt_view(v), consumed as int)) && consumed <= data@.len() && elt_wf(elt_view(v)),
            Err(e) => s_pixeldata(data@, sz, is_ob, tags_view(elements@)) == Err::<
                (EltModel, int),
                _,
            >(e),
        },
{
    reveal(s_pixeldata);
    let n = data.len();
    if sz != 0xFFFFFFFF {
        let szu = sz as usize;
        if szu > n {
            return Err(DicomError::TruncatedInput);
        }
        let xr_default = if is_ob {
            szu
        } else {
            szu / 2
        };
        let dims = pix_dims(elements, xr_default);
        if is_ob {
            let v = bytes_of(data, 0, szu);
            Ok((DicomElt::Image8(DcmImg8 { xr: dims.0, yr: dims.1, zr: dims.2, data: v }), szu))
        } else {
            let v = parse_i16les(data, 0, szu / 2);
            Ok((DicomElt::Image16(DcmImg16 { xr: dims.0, yr: dims.1, zr: dims.2, data: v }), szu))
        }
    } else {
        if is_ob {
            match encap8(data) {
                Err(e) => Err(e),
                Ok((samples, next)) => {
                    let m = samples.len();
                    let dims = pix_dims(elements, m);
                    Ok(
                        (
                            DicomElt::Image8(
                                DcmImg8 { xr: dims.0, yr: dims.1, zr: dims.2, data: samples },
                            ),
                            next,
                        ),
                    )
                },
            }
        } else {
            match encap16(data) {
                Err(e) => Err(e),
                Ok((samples, next)) => {
                    let m = samples.len();
                    let dims = pix_dims(elements, m);
                    Ok(
                        (
                            DicomElt::Image16(
                                DcmImg16 { xr: dims.0, yr: dims.1, zr: dims.2, data: samples },
                            ),
                            next,
                        ),
                    )
                },
            }
        }
    }
}

/// The decoded value of a sized, non-sequence, non-pixel element.
fn dispatch_value(data: &[u8], voff: usize, szu: usize, vro: Option<Vr>) -> (r: Result<
    DicomElt,
    DicomError,
>)
    requires
        voff <= data@.len(),
    ensures
        match r {
            Ok(v) => s_dispatch(data@, voff as int, szu as int, vro) == Ok::<_, DicomError>(
                elt_view(v),
            ) && elt_wf(elt_view(v)),
            Err(e) => s_dispatch(data@, voff as int, szu as int, vro) == Err::<EltModel, _>(e),
        },
{
    reveal(s_dispatch);
    let n = data.len();
    if szu > n - voff {
        return Err(DicomError::TruncatedInput);
    }
    match vro {
        Some(Vr::AT) => {
            if szu < 4 {
                Err(DicomError::TruncatedInput)
            } else {
                Ok(DicomElt::UInt16s(parse_u16les(data, voff, 2)))
            }
        },
        Some(Vr::AE) | Some(Vr::AS) | Some(Vr::CS) | Some(Vr::DA) | Some(Vr::DT) | Some(Vr::LO)
            | Some(Vr::PN) | Some(Vr::SH) | Some(Vr::TM) | Some(Vr::UI) | Some(Vr::ST) | Some(
            Vr::LT,
        ) | Some(Vr::UT) => Ok(DicomElt::Text(text_of(data, voff, szu))),
        Some(Vr::IS) | Some(Vr::DS) => match parse_ds(data, voff, szu) {
            None => Err(DicomError::BadNumber),
            Some(v) => Ok(DicomElt::Decimals(v)),
        },
        Some(Vr::FL) => Ok(DicomElt::Float32Bits(parse_u32les(data, voff, szu / 4))),
        Some(Vr::FD) => Ok(DicomElt::Float64Bits(parse_u64les(data, voff, szu / 8))),
        Some(Vr::SL) => Ok(DicomElt::Int32s(parse_i32les(data, voff, szu / 4))),
        Some(Vr::SS) => Ok(DicomElt::Int16s(parse_i16les(data, voff, szu / 2))),
        Some(Vr::UL) => Ok(DicomElt::UInt32s(parse_u32les(data, voff, szu / 4))),
        Some(Vr::US) => Ok(DicomElt::UInt16s(parse_u16les(data, voff, szu / 2))),
        Some(Vr::OB) | Some(Vr::UN) => Ok(DicomElt::Bytes(bytes_of(data, voff, szu))),
        Some(Vr::OD) => Ok(DicomElt::Float64Bits(parse_u64bes(data, voff, szu / 8))),
        Some(Vr::OF) => Ok(DicomElt::Float32Bits(parse_u32bes(data, voff, szu / 4))),
        Some(Vr::OW) => Ok(DicomElt::UInt16s(parse_u16bes(data, voff, szu / 2))),
        _ => Err(DicomError::UnknownVR),
    }
}

/// The decoded value of the element whose header was read at `start`,
/// with representation `vro0`, length `sz` and value offset `voff`.
fn element_value(
    data: &[u8],
    start: usize,
    grp: u16,
    elt: u16,
    sz: u32,
    voff: usize,
    vro0: Option<Vr>,
    evr: bool,
    elements: &Vec<(u32, DicomElt)>,
) -> (r: Result<(u16, u16, DicomElt, usize), DicomError>)
    requires
        start + 8 <= voff <= data@.len(),
        voff <= start + 12,
    ensures
        match r {
            Ok(t) => s_element_value(
                data@,
                start as int,
                grp,
                elt,
                sz,
                voff as int,
                vro0,
                evr,
                tags_view(elements@),
            ) == Ok::<_, DicomError>(
                EltDecode { grp: t.0, elt: t.1, val: elt_view(t.2), next: t.3 as int },
            ) && elt_wf(elt_view(t.2)) && t.0 == grp && t.1 == elt && start + 8 <= t.3
                <= data@.len(),
            Err(e) => s_element_value(
                data@,
                start as int,
                grp,
                elt,
                sz,
                voff as int,
                vro0,
                evr,
                tags_view(elements@),
            ) == Err::<EltDecode, _>(e),
        },
    decreases data@.len(), 0int,
{
    reveal(s_element_value);
    reveal(s_sequence);
    let n = data.len();
    let vro: Option<Vr> = if grp % 2 == 1 && grp > 0x0008 {
        if 0x0010 <= elt && elt < 0x00FF {
            Some(Vr::LO)
        } else {
            Some(Vr::UN)
        }
    } else {
        vro0
    };
    let is_xx = match vro {
        Some(Vr::XX) => true,
        _ => false,
    };
    if sz == 0 || is_xx {
        let nx = advance(voff, sz as usize, n);
        return Ok((grp, elt, DicomElt::Empty, nx));
    }
    if grp == 0x7FE0 && elt == 0x0010 {
        let is_ob = match vro {
            Some(Vr::OB) => true,
            _ => false,
        };
        let tail = slice_subrange(data, voff, n);
        match pixeldata_parse(tail, sz, is_ob, elements) {
            Err(e) => {
                return Err(e);
            },
            Ok((v, consumed)) => {
                let nx = advance(voff, consumed, n);
                return Ok((grp, elt, v, nx));
            },
        }
    }
    let is_sq = match vro {
        Some(Vr::SQ) => true,
        _ => false,
    };
    if is_sq {
        let region_end: usize = if sz == 0xFFFFFFFF {
            n
        } else {
            match voff.checked_add(sz as usize) {
                Some(re) => {
                    if re > n {
                        return Err(DicomError::TruncatedInput);
                    }
                    re
                },
                None => {
                    return Err(DicomError::TruncatedInput);
                },
            }
        };
        let region = slice_subrange(data, voff, region_end);
        match sequence_parse(region, evr) {
            Err(e) => {
                return Err(e);
            },
            Ok((consumed, items)) => {
                let nx = advance(voff, consumed, n);
                return Ok((grp, elt, DicomElt::Items(items), nx));
            },
        }
    }
    if sz == 0xFFFFFFFF {
        let tail = slice_subrange(data, voff, n);
        match undefined_length(tail) {
            Err(e) => {
                return Err(e);
            },
            Ok((next_rel, words)) => {
                let nx = advance(voff, next_rel, n);
                proof {
                    let tl = data@.subrange(voff as int, n as int);
                    match s_undef(tl, 0, 0) {
                        Ok((nxs, ws)) => {
                            assert(s_advance(voff as int, next_rel as int, n as int) == s_advance(
                                voff as int,
                                nxs,
                                n as int,
                            ));
                        },
                        Err(_) => {},
                    }
                }
                return Ok((grp, elt, DicomElt::UInt16s(words), nx));
            },
        }
    }
    let szu = sz as usize;
    match dispatch_value(data, voff, szu, vro) {
        Err(e) => Err(e),
        Ok(v) => {
            let nx = advance(voff, szu, n);
            Ok((grp, elt, v, nx))
        },
    }
}

/// One decoded element of `data` at `start`: its tag, its value, and the
/// offset where the next element begins.
#[verifier::rlimit(100)]
pub fn element(
    data: &[u8],
    start: usize,
    evr: bool,
    elements: &Vec<(u32, DicomElt)>,
) -> (r: Result<(u16, u16, DicomElt, usize), DicomError>)
    requires
        start <= data@.len(),
    ensures
        match r {
            Ok(t) => s_element(data@, start as int, evr, tags_view(elements@)) == Ok::<
                _,
                DicomError,
            >(EltDecode { grp: t.0, elt: t.1, val: elt_view(t.2), next: t.3 as int }) && elt_wf(
                elt_view(t.2),
            ) && start + 8 <= t.3 <= data@.len(),
            Err(e) => s_element(data@, start as int, evr, tags_view(elements@)) == Err::<
                EltDecode,
                _,
            >(e),
        },
    decreases data@.len(), 1int,
{
    reveal(s_element);
    let n = data.len();
    if n < 4 || start > n - 4 {
        return Err(DicomError::TruncatedInput);
    }
    let grp = read_u16le(data, start);
    let elt = read_u16le(data, start + 2);
    if evr && !always_implicit(grp, elt) {
        if n < 6 || start > n - 6 {
            return Err(DicomError::TruncatedInput);
        }
        let v = vr_of_bytes(data[start + 4], data[start + 5]);
        let extra = match v {
            Some(vv) => is_extra_length(vv),
            None => false,
        };
        if extra {
            if n < 12 || start > n - 12 {
                return Err(DicomError::TruncatedInput);
            }
            let sz = read_u32le(data, start + 8);
            proof {
                reveal(s_element);
                reveal(s_element_value);
    reveal(s_sequence);
                assert(s_element(data@, start as int, evr, tags_view(elements@))
                    == s_element_value(
                    data@,
                    start as int,
                    grp,
                    elt,
                    sz,
                    start as int + 12,
                    v,
                    evr,
                    tags_view(elements@),
                ));
            }
            element_value(data, start, grp, elt, sz, start + 12, v, evr, elements)
        } else {
            if n < 8 || start > n - 8 {
                return Err(DicomError::TruncatedInput);
            }
            let sz = read_u16le(data, start + 6) as u32;
            proof {
                reveal(s_element);
                reveal(s_element_value);
    reveal(s_sequence);
                assert(s_element(data@, start as int, evr, tags_view(elements@))
                    == s_element_value(
                    data@,
                    start as int,
                    grp,
                    elt,
                    sz,
                    start as int + 8,
                    v,
                    evr,
                    tags_view(elements@),
                ));
            }
            element_value(data, start, grp, elt, sz, start + 8, v, evr, elements)
        }
    } else {
        let v = match lookup_vr((grp, elt)) {
            None => {
                return Err(DicomError::UnknownVR);
            },
            Some(v) => v,
        };
        if n < 8 || start > n - 8 {
            return Err(DicomError::TruncatedInput);
        }
        let sz = read_u32le(data, start + 4);
        proof {
            reveal(s_element);
            reveal(s_element_value);
    reveal(s_sequence);
            assert(s_element(data@, start as int, evr, tags_view(elements@)) == s_element_value(
                data@,
                start as int,
                grp,
                elt,
                sz,
                start as int + 8,
                Some(v),
                evr,
                tags_view(elements@),
            ));
        }
        element_value(data, start, grp, elt, sz, start + 8, Some(v), evr, elements)
    }
}

/// `pre` prepended to the pairs of `o`, or the fault of `o`.
pub open spec fn s_item_compose(
    pre: Seq<(Seq<char>, EltModel)>,
    o: Result<(Seq<(Seq<char>, EltModel)>, int), DicomError>,
) -> Result<(Seq<(Seq<char>, EltModel)>, int), DicomError> {
    match o {
        Err(e) => Err(e),
        Ok((pairs, fin)) => Ok((pre + pairs, fin)),
    }
}

/// The keyword map of one sequence item, and the offset after it.
#[verifier::loop_isolation(false)]
#[verifier::rlimit(100)]
pub fn sequence_item(data: &[u8], off: usize, item_end: usize, evr: bool) -> (r: Result<
    (DicomSlice, usize),
    DicomError,
>)
    requires
        off <= data@.len(),
        item_end <= data@.len(),
    ensures
        match r {
            Ok(t) => s_item(data@, off as int, item_end as int, evr, Seq::empty(), Seq::empty())
                == Ok::<_, DicomError>((pairs_view(t.0.keydict@), t.1 as int)) && dataset_wf(
                slice_view(t.0),
            ) && off <= t.1 <= data@.len(),
            Err(e) => s_item(data@, off as int, item_end as int, evr, Seq::empty(), Seq::empty())
                == Err::<(Seq<(Seq<char>, EltModel)>, int), _>(e),
        },
    decreases data@.len(), 2int,
{
    reveal(s_item);
    reveal(s_element);
    let n = data.len();
    let empty_tags: Vec<(u32, DicomElt)> = Vec::new();
    let mut acc: Vec<(String, DicomElt)> = Vec::new();
    let mut seen: Vec<u32> = Vec::new();
    let mut cur: usize = off;
    proof {
        assert(tags_view(empty_tags@) =~= Seq::<(u32, EltModel)>::empty());
        assert(keys_of(pairs_view(acc@)) =~= Seq::<Seq<char>>::empty());
    }
    loop
        invariant
            off <= cur <= n,
            s_item(data@, off as int, item_end as int, evr, Seq::empty(), Seq::empty())
                == s_item_compose(
                pairs_view(acc@),
                s_item(data@, cur as int, item_end as int, evr, seen@, keys_of(pairs_view(acc@))),
            ),
            pairs_unique(pairs_view(acc@)),
            pairs_values_wf(pairs_view(acc@)),
        decreases n - cur,
    {
        reveal(s_item);
        reveal(s_element);
    reveal(s_element);
        if cur >= item_end {
            proof {
                assert(pairs_view(acc@) + Seq::<(Seq<char>, EltModel)>::empty() =~= pairs_view(
                    acc@,
                ));
            }
            return Ok((DicomSlice { keydict: acc }, cur));
        }
        match element(data, cur, evr, &empty_tags) {
            Err(e) => {
                return Err(e);
            },
            Ok((g, e, v, nx)) => {
                if g == 0xFFFE && e == 0xE00D {
                    proof {
                        assert(pairs_view(acc@) + Seq::<(Seq<char>, EltModel)>::empty()
                            =~= pairs_view(acc@));
                    }
                    return Ok((DicomSlice { keydict: acc }, nx));
                }
                let key = tag_key(g, e);
                if u32s_contains(&seen, key) {
                    return Err(DicomError::DuplicateKey);
                }
                let ghost seen_old = seen@;
                let ghost acc_old = acc@;
                let ghost kws_old = keys_of(pairs_view(acc@));
                seen.push(key);
                match dict_keyword(key) {
                    Some(kw) => {
                        if keydict_contains(&acc, &kw) {
                            return Err(DicomError::DuplicateKey);
                        }
                        let ghost kwv = kw@;
                        acc.push((kw, v));
                        proof {
                            lemma_pairs_view_push(acc_old, acc@.last());
                            assert(keys_of(pairs_view(acc@)) =~= kws_old.push(kwv));
                            assert(forall|i: int|
                                0 <= i < pairs_view(acc_old).len() ==> kws_old[i]
                                    == #[trigger] pairs_view(acc_old)[i].0);
                            assert(pairs_unique(pairs_view(acc@)));
                            lemma_pairs_values_wf_index(pairs_view(acc_old));
                            lemma_pairs_values_wf_index(pairs_view(acc@));
                            assert(forall|j: int|
                                0 <= j < pairs_view(acc@).len() - 1 ==> #[trigger] pairs_view(
                                    acc@,
                                )[j] == pairs_view(acc_old)[j]);
                            match s_item(
                                data@,
                                nx as int,
                                item_end as int,
                                evr,
                                seen@,
                                kws_old.push(kwv),
                            ) {
                                Err(_) => {},
                                Ok((rest, fin)) => {
                                    assert(pairs_view(acc_old) + (seq![(kwv, elt_view(v))] + rest)
                                        =~= pairs_view(acc@) + rest);
                                },
                            }
                        }
                    },
                    None => {
                    },
                }
                cur = nx;
            },
        }
    }
}

/// Whether `v` holds the value `k`.
fn u32s_contains(v: &Vec<u32>, k: u32) -> (r: bool)
    ensures
        r == v@.contains(k),
{
    let n = v.len();
    let mut i: usize = 0;
    while i < n
        invariant
            i <= n,
            n == v@.len(),
            forall|j: int| 0 <= j < i ==> v@[j] != k,
        decreases n - i,
    {
        if v[i] == k {
            return true;
        }
        i = i + 1;
    }
    false
}

/// `pre` prepended to the items of `o`, or the fault of `o`.
pub open spec fn s_seq_compose(
    pre: Seq<DatasetModel>,
    o: Result<(Seq<DatasetModel>, int), DicomError>,
) -> Result<(Seq<DatasetModel>, int), DicomError> {
    match o {
        Err(e) => Err(e),
        Ok((items, fin)) => Ok((pre + items, fin)),
    }
}

/// The items of a sequence region: the consumed length and the nested
/// datasets.
#[verifier::loop_isolation(false)]
pub fn sequence_parse(data: &[u8], evr: bool) -> (r: Result<(usize, Vec<DicomSlice>), DicomError>)
    ensures
        match r {
            Ok(t) => s_sequence(data@, 0, evr) == Ok::<_, DicomError>((
                slices_view(t.1@),
                t.0 as int,
            )) && datasets_wf(slices_view(t.1@)) && t.0 <= data@.len(),
            Err(e) => s_sequence(data@, 0, evr) == Err::<(Seq<DatasetModel>, int), _>(e),
        },
    decreases data@.len(), 3int,
{
    reveal(s_sequence);
    reveal(s_item);
    let n = data.len();
    let mut items: Vec<DicomSlice> = Vec::new();
    let mut off: usize = 0;
    proof {
        assert(slices_view(items@) =~= Seq::<DatasetModel>::empty());
    }
    loop
        invariant
            off <= n,
            s_sequence(data@, 0, evr) == s_seq_compose(
                slices_view(items@),
                s_sequence(data@, off as int, evr),
            ),
            datasets_wf(slices_view(items@)),
        decreases n - off,
    {
        reveal(s_sequence);
        reveal(s_item);
        if off >= n {
            proof {
                assert(slices_view(items@) + Seq::<DatasetModel>::empty() =~= slices_view(items@));
            }
            return Ok((off, items));
        }
        if n < 8 || off > n - 8 {
            return Err(DicomError::TruncatedInput);
        }
        let grp = read_u16le(data, off);
        let elt = read_u16le(data, off + 2);
        let ilen = read_u32le(data, off + 4);
        let off2 = off + 8;
        if grp == 0xFFFE && elt == 0xE0DD {
            proof {
                assert(slices_view(items@) + Seq::<DatasetModel>::empty() =~= slices_view(items@));
            }
            return Ok((off2, items));
        }
        if grp != 0xFFFE || elt != 0xE000 {
            return Err(DicomError::UnexpectedTag);
        }
        let item_end: usize = if ilen == 0xFFFFFFFF {
            n
        } else {
            match off2.checked_add(ilen as usize) {
                Some(ie) => {
                    if ie > n {
                        return Err(DicomError::TruncatedInput);
                    }
                    ie
                },
                None => {
                    return Err(DicomError::TruncatedInput);
                },
            }
        };
        match sequence_item(data, off2, item_end, evr) {
            Err(e) => {
                return Err(e);
            },
            Ok((ds, newoff)) => {
                let ghost items_old = items@;
                items.push(ds);
                proof {
                    lemma_slices_view_push(items_old, items@.last());
                    lemma_datasets_wf_index(slices_view(items_old));
                    lemma_datasets_wf_index(slices_view(items@));
                    assert(forall|j: int|
                        0 <= j < slices_view(items@).len() - 1 ==> #[trigger] slices_view(
                            items@,
                        )[j] == slices_view(items_old)[j]);
                    match s_sequence(data@, newoff as int, evr) {
                        Err(_) => {},
                        Ok((rest, fin)) => {
                            assert(slices_view(items_old) + (seq![slice_view(ds)] + rest) =~= (
                            slices_view(items_old).push(slice_view(ds))) + rest);
                        },
                    }
                }
                off = newoff;
            },
        }
    }
}


/// `pre` prepended to the pairs of `o`, or the fault of `o`.
pub open spec fn s_dataset_compose(
    pre: Seq<(Seq<char>, EltModel)>,
    o: Result<Seq<(Seq<char>, EltModel)>, DicomError>,
) -> Result<Seq<(Seq<char>, EltModel)>, DicomError> {
    match o {
        Err(e) => Err(e),
        Ok(pairs) => Ok(pre + pairs),
    }
}

/// The dataset decoded from `data` at `start`: a keyword map with
/// pairwise-distinct keys and well-formed values.
#[verifier::loop_isolation(false)]
#[verifier::rlimit(100)]
pub fn read_dataset(data: &[u8], start: usize) -> (r: Result<DicomSlice, DicomError>)
    requires
        start <= data@.len(),
    ensures
        match r {
            Ok(ds) => s_read_dataset(data@, start as int) == Ok::<_, DicomError>(slice_view(ds))
                && dataset_wf(slice_view(ds)),
            Err(e) => s_read_dataset(data@, start as int) == Err::<DatasetModel, _>(e),
        },
{
    reveal(s_dataset);
    let n = data.len();
    if n < 6 || start > n - 6 {
        return Err(DicomError::TruncatedInput);
    }
    let evr = match vr_of_bytes(data[start + 4], data[start + 5]) {
        Some(_) => true,
        None => false,
    };
    let mut acc: Vec<(String, DicomElt)> = Vec::new();
    let mut side: Vec<(u32, DicomElt)> = Vec::new();
    let mut cur: usize = start;
    proof {
        assert(tags_view(side@) =~= Seq::<(u32, EltModel)>::empty());
        assert(keys_of(pairs_view(acc@)) =~= Seq::<Seq<char>>::empty());
    }
    loop
        invariant
            start <= cur <= n,
            s_dataset(data@, start as int, evr, Seq::empty(), Seq::empty()) == s_dataset_compose(
                pairs_view(acc@),
                s_dataset(data@, cur as int, evr, tags_view(side@), keys_of(pairs_view(acc@))),
            ),
            pairs_unique(pairs_view(acc@)),
            pairs_values_wf(pairs_view(acc@)),
        decreases n - cur,
    {
        reveal(s_dataset);
        if n < 2 || cur >= n - 2 {
            proof {
                assert(pairs_view(acc@) + Seq::<(Seq<char>, EltModel)>::empty() =~= pairs_view(
                    acc@,
                ));
            }
            return Ok(DicomSlice { keydict: acc });
        }
        match element(data, cur, evr, &side) {
            Err(e) => {
                return Err(e);
            },
            Ok((g, e, v, nx)) => {
                let key = tag_key(g, e);
                if tags_contains(&side, key) {
                    return Err(DicomError::DuplicateKey);
                }
                let ghost side_old = side@;
                let ghost acc_old = acc@;
                let ghost kws_old = keys_of(pairs_view(acc@));
                match dict_keyword(key) {
                    Some(kw) => {
                        if keydict_contains(&acc, &kw) {
                            return Err(DicomError::DuplicateKey);
                        }
                        let ghost kwv = kw@;
                        let v2 = clone_elt(&v);
                        acc.push((kw, v2));
                        side.push((key, v));
                        proof {
                            lemma_pairs_view_push(acc_old, acc@.last());
                            lemma_tags_view_push(side_old, side@.last());
                            assert(keys_of(pairs_view(acc@)) =~= kws_old.push(kwv));
                            assert(forall|i: int|
                                0 <= i < pairs_view(acc_old).len() ==> kws_old[i]
                                    == #[trigger] pairs_view(acc_old)[i].0);
                            assert(pairs_unique(pairs_view(acc@)));
                            lemma_pairs_values_wf_index(pairs_view(acc_old));
                            lemma_pairs_values_wf_index(pairs_view(acc@));
                            assert(forall|j: int|
                                0 <= j < pairs_view(acc@).len() - 1 ==> #[trigger] pairs_view(
                                    acc@,
                                )[j] == pairs_view(acc_old)[j]);
                            match s_dataset(
                                data@,
                                nx as int,
                                evr,
                                tags_view(side@),
                                kws_old.push(kwv),
                            ) {
                                Err(_) => {},
                                Ok(rest) => {
                                    assert(pairs_view(acc_old) + (seq![(kwv, elt_view(v2))] + rest)
                                        =~= pairs_view(acc@) + rest);
                                },
                            }
                        }
                    },
                    None => {
                        side.push((key, v));
                        proof {
                            lemma_tags_view_push(side_old, side@.last());
                        }
                    },
                }
                cur = nx;
            },
        }
    }
}

/// The slice parsed from a whole file image: after the 128-byte preamble
/// the ASCII marker DICM must stand, followed by the dataset.
pub fn parse_slice(data: &[u8]) -> (r: Result<DicomSlice, DicomError>)
    ensures
        match r {
            Ok(ds) => s_parse(data@) == Ok::<_, DicomError>(slice_view(ds)) && dataset_wf(
                slice_view(ds),
            ),
            Err(e) => s_parse(data@) == Err::<DatasetModel, _>(e),
        },
{
    let n = data.len();
    if n < 132 {
        return Err(DicomError::TruncatedInput);
    }
    if !(data[128] == 68 && data[129] == 73 && data[130] == 67 && data[131] == 77) {
        return Err(DicomError::BadMagic);
    }
    read_dataset(data, 132)
}

} // verus!
