//! Value representations: the two-letter type codes of data elements.

use vstd::prelude::*;

verus! {

/// A value representation. `XX` is the dictionary's marker for entries
/// without a defined representation; it never appears on the wire.
#[derive(PartialEq, Eq, Structural, Clone, Copy, Debug)]
pub enum Vr {
    AE,
    AS,
    AT,
    CS,
    DA,
    DS,
    DT,
    FL,
    FD,
    IS,
    LO,
    LT,
    OB,
    OD,
    OF,
    OW,
    PN,
    SH,
    SL,
    SQ,
    SS,
    ST,
    TM,
    UI,
    UL,
    UN,
    US,
    UT,
    XX,
}

/// The representation encoded by the two ASCII bytes, if any.
#[verifier::opaque]
pub open spec fn s_vr_of_bytes(b0: u8, b1: u8) -> Option<Vr> {
    if b0 == 65 && b1 == 69 {
        Some(Vr::AE)
    } else if b0 == 65 && b1 == 83 {
        Some(Vr::AS)
    } else if b0 == 65 && b1 == 84 {
        Some(Vr::AT)
    } else if b0 == 67 && b1 == 83 {
        Some(Vr::CS)
    } else if b0 == 68 && b1 == 65 {
        Some(Vr::DA)
    } else if b0 == 68 && b1 == 83 {
        Some(Vr::DS)
    } else if b0 == 68 && b1 == 84 {
        Some(Vr::DT)
    } else if b0 == 70 && b1 == 76 {
        Some(Vr::FL)
    } else if b0 == 70 && b1 == 68 {
        Some(Vr::FD)
    } else if b0 == 73 && b1 == 83 {
        Some(Vr::IS)
    } else if b0 == 76 && b1 == 79 {
        Some(Vr::LO)
    } else if b0 == 76 && b1 == 84 {
        Some(Vr::LT)
    } else if b0 == 79 && b1 == 66 {
        Some(Vr::OB)
    } else if b0 == 79 && b1 == 68 {
        Some(Vr::OD)
    } else if b0 == 79 && b1 == 70 {
        Some(Vr::OF)
    } else if b0 == 79 && b1 == 87 {
        Some(Vr::OW)
    } else if b0 == 80 && b1 == 78 {
        Some(Vr::PN)
    } else if b0 == 83 && b1 == 72 {
        Some(Vr::SH)
    } else if b0 == 83 && b1 == 76 {
        Some(Vr::SL)
    } else if b0 == 83 && b1 == 81 {
        Some(Vr::SQ)
    } else if b0 == 83 && b1 == 83 {
        Some(Vr::SS)
    } else if b0 == 83 && b1 == 84 {
        Some(Vr::ST)
    } else if b0 == 84 && b1 == 77 {
        Some(Vr::TM)
    } else if b0 == 85 && b1 == 73 {
        Some(Vr::UI)
    } else if b0 == 85 && b1 == 76 {
        Some(Vr::UL)
    } else if b0 == 85 && b1 == 78 {
        Some(Vr::UN)
    } else if b0 == 85 && b1 == 83 {
        Some(Vr::US)
    } else if b0 == 85 && b1 == 84 {
        Some(Vr::UT)
    } else {
        None
    }
}

/// The representation encoded by the two ASCII bytes, if any.
pub fn vr_of_bytes(b0: u8, b1: u8) -> (r: Option<Vr>)
    ensures
        r == s_vr_of_bytes(b0, b1),
{
    proof {
        reveal(s_vr_of_bytes);
    }
    match (b0, b1) {
        (65, 69) => Some(Vr::AE),
        (65, 83) => Some(Vr::AS),
        (65, 84) => Some(Vr::AT),
        (67, 83) => Some(Vr::CS),
        (68, 65) => Some(Vr::DA),
        (68, 83) => Some(Vr::DS),
        (68, 84) => Some(Vr::DT),
        (70, 76) => Some(Vr::FL),
        (70, 68) => Some(Vr::FD),
        (73, 83) => Some(Vr::IS),
        (76, 79) => Some(Vr::LO),
        (76, 84) => Some(Vr::LT),
        (79, 66) => Some(Vr::OB),
        (79, 68) => Some(Vr::OD),
        (79, 70) => Some(Vr::OF),
        (79, 87) => Some(Vr::OW),
        (80, 78) => Some(Vr::PN),
        (83, 72) => Some(Vr::SH),
        (83, 76) => Some(Vr::SL),
        (83, 81) => Some(Vr::SQ),
        (83, 83) => Some(Vr::SS),
        (83, 84) => Some(Vr::ST),
        (84, 77) => Some(Vr::TM),
        (85, 73) => Some(Vr::UI),
        (85, 76) => Some(Vr::UL),
        (85, 78) => Some(Vr::UN),
        (85, 83) => Some(Vr::US),
        (85, 84) => Some(Vr::UT),
        _ => None,
    }
}

/// Whether an explicit-VR element with this representation carries two
/// reserved bytes and a four-byte length instead of a two-byte length.
pub open spec fn s_is_extra_length(vr: Vr) -> bool {
    vr == Vr::OB || vr == Vr::OW || vr == Vr::OF || vr == Vr::SQ || vr == Vr::UN || vr == Vr::UT
}

/// Whether an explicit-VR element with this representation carries two
/// reserved bytes and a four-byte length instead of a two-byte length.
pub fn is_extra_length(vr: Vr) -> (r: bool)
    ensures
        r == s_is_extra_length(vr),
{
    match vr {
        Vr::OB | Vr::OW | Vr::OF | Vr::SQ | Vr::UN | Vr::UT => true,
        _ => false,
    }
}

/// Whether the tag is an item or delimiter tag, which is framed with an
/// implicit representation even inside an explicit-VR dataset.
pub open spec fn s_always_implicit(grp: u16, elt: u16) -> bool {
    grp == 0xFFFE && (elt == 0xE0DD || elt == 0xE000 || elt == 0xE00D)
}

/// Whether the tag is an item or delimiter tag, which is framed with an
/// implicit representation even inside an explicit-VR dataset.
pub fn always_implicit(grp: u16, elt: u16) -> (r: bool)
    ensures
        r == s_always_implicit(grp, elt),
{
    grp == 0xFFFE && (elt == 0xE0DD || elt == 0xE000 || elt == 0xE00D)
}

} // verus!
