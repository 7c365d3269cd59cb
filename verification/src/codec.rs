//! A deterministic binary encoding of slices and scans.
//!
//! Everything is little-endian and length-prefixed: numbers are fixed-width
//! words, lists carry an eight-byte count, an element value carries a
//! one-byte variant tag, and text carries one 32-bit word per character.
//! Decoding inverts encoding exactly: the round-trip law is proved below.

use vstd::prelude::*;
use vstd::string::StrSliceExecFns;
use vstd::arithmetic::div_mod::lemma_fundamental_div_mod;
use vstd::arithmetic::div_mod::lemma_multiply_divide_lt;
use crate::decimal::Dec;
use crate::decimal::dec_wf;
use crate::decimal::pow10;
use crate::types::DatasetModel;
use crate::types::EltModel;
use crate::types::ImgModel16;
use crate::types::ImgModel8;
use crate::types::ScanModel;
use crate::types::DcmImg16;
use crate::types::DcmImg8;
use crate::types::DicomElt;
use crate::types::DicomError;
use crate::types::DicomScan;
use crate::types::DicomSlice;
use crate::types::elt_view;
use crate::types::img16_view;
use crate::types::img8_view;
use crate::types::slice_view;
use crate::types::slices_view;
use crate::types::pairs_view;
use crate::types::scan_view;
use crate::types::lemma_pairs_view_index;
use crate::types::lemma_slices_view_index;
use crate::types::dataset_wf;
use crate::types::datasets_wf;
use crate::types::elt_wf;
use crate::types::pairs_values_wf;
use crate::types::lemma_pairs_values_wf_index;
use crate::types::lemma_datasets_wf_index;

verus! {

/// 256 to the power `n`.
pub open spec fn pow256(n: nat) -> nat
    decreases n,
{
    if n == 0 {
        1
    } else {
        256 * pow256((n - 1) as nat)
    }
}

proof fn lemma_pow256_values()
    ensures
        pow256(1) == 0x100,
        pow256(2) == 0x10000,
        pow256(4) == 0x100000000,
        pow256(8) == 0x10000000000000000,
{
    reveal_with_fuel(pow256, 9);
}

/// The `n` little-endian bytes of `v`.
pub open spec fn enc_le(v: nat, n: nat) -> Seq<u8>
    decreases n,
{
    if n == 0 {
        Seq::empty()
    } else {
        seq![(v % 256) as u8] + enc_le(v / 256, (n - 1) as nat)
    }
}

/// The number the `n` bytes of `d` at `off` encode, least significant
/// first.
pub open spec fn dec_le_n(d: Seq<u8>, off: int, n: nat) -> nat
    recommends
        0 <= off,
        off + n <= d.len(),
    decreases n,
{
    if n == 0 {
        0
    } else {
        (d[off] + 256 * dec_le_n(d, off + 1, (n - 1) as nat)) as nat
    }
}

proof fn lemma_enc_le_len(v: nat, n: nat)
    ensures
        enc_le(v, n).len() == n,
    decreases n,
{
    if n > 0 {
        lemma_enc_le_len(v / 256, (n - 1) as nat);
    }
}

proof fn lemma_dec_le_n_bound(d: Seq<u8>, off: int, n: nat)
    requires
        0 <= off,
        off + n <= d.len(),
    ensures
        dec_le_n(d, off, n) < pow256(n),
    decreases n,
{
    if n > 0 {
        lemma_dec_le_n_bound(d, off + 1, (n - 1) as nat);
    }
}

/// Decoding inverts encoding: where the bytes at `off` are the encoding
/// of `v`, the decoded number is `v`.
proof fn lemma_rt_le(v: nat, n: nat, d: Seq<u8>, off: int)
    requires
        0 <= off,
        off + n <= d.len(),
        v < pow256(n),
        d.subrange(off, off + n) == enc_le(v, n),
    ensures
        dec_le_n(d, off, n) == v,
    decreases n,
{
    lemma_enc_le_len(v, n);
    if n == 0 {
    } else {
        let e = enc_le(v, n);
        lemma_enc_le_len(v / 256, (n - 1) as nat);
        assert(d[off] == e[0]);
        assert(e[0] == (v % 256) as u8);
        assert(forall|j: int| 0 <= j < n ==> d[off + j] == #[trigger] e[j]) by {
            assert(forall|j: int|
                0 <= j < n ==> #[trigger] d.subrange(off, off + n)[j] == d[off + j]);
        }
        assert(d.subrange(off + 1, off + n) =~= enc_le(v / 256, (n - 1) as nat)) by {
            assert(forall|i: int|
                0 <= i < n - 1 ==> #[trigger] enc_le(v / 256, (n - 1) as nat)[i] == e[i + 1]);
            assert(forall|i: int|
                0 <= i < n - 1 ==> #[trigger] d.subrange(off + 1, off + n)[i] == d[off + 1 + i]);
        }
        lemma_multiply_divide_lt(v as int, 256, pow256((n - 1) as nat) as int);
        lemma_rt_le(v / 256, (n - 1) as nat, d, off + 1);
        lemma_fundamental_div_mod(v as int, 256);
    }
}

/// The one-byte encoding of a truth value.
pub open spec fn s_cenc_bool(b: bool) -> Seq<u8> {
    seq![
        if b {
            1u8
        } else {
            0u8
        },
    ]
}

/// The eleven-byte encoding of a decimal: sign, mantissa, scale.
pub open spec fn s_cenc_dec(x: Dec) -> Seq<u8> {
    s_cenc_bool(x.neg) + enc_le(x.mant as nat, 8) + enc_le(x.scale as nat, 1)
}

/// The decimal the bytes of `d` at `off` encode, if they are the encoding
/// of a well-formed decimal.
pub open spec fn s_cdec_dec(d: Seq<u8>, off: int) -> Option<(Dec, int)> {
    if off < 0 || off + 10 > d.len() {
        None
    } else if d[off] != 0 && d[off] != 1 {
        None
    } else {
        let mant = dec_le_n(d, off + 1, 8);
        let scale = dec_le_n(d, off + 9, 1);
        if scale <= 18 && mant < pow10(19) {
            Some(
                (Dec { neg: d[off] == 1, mant: mant as u64, scale: scale as u8 }, off + 10),
            )
        } else {
            None
        }
    }
}

/// Splitting an embedded concatenation: where the bytes at `off` are
/// `a + b`, the two parts stand at `off` and past `a`.
proof fn lemma_embed(d: Seq<u8>, off: int, a: Seq<u8>, b: Seq<u8>)
    requires
        0 <= off,
        off + a.len() + b.len() <= d.len(),
        d.subrange(off, off + a.len() + b.len()) == a + b,
    ensures
        d.subrange(off, off + a.len()) =~= a,
        d.subrange(off + a.len(), off + a.len() + b.len()) =~= b,
{
    assert(forall|j: int|
        0 <= j < a.len() + b.len() ==> d[off + j] == #[trigger] (a + b)[j]) by {
        assert(forall|j: int|
            0 <= j < a.len() + b.len() ==> #[trigger] d.subrange(
                off,
                off + a.len() + b.len(),
            )[j] == d[off + j]);
    }
    assert(forall|j: int|
        0 <= j < a.len() ==> #[trigger] d.subrange(off, off + a.len())[j] == d[off + j]);
    assert(forall|j: int|
        0 <= j < b.len() ==> #[trigger] d.subrange(off + a.len(), off + a.len() + b.len())[j]
            == d[off + a.len() + j]);
    assert(forall|j: int| 0 <= j < b.len() ==> (a + b)[a.len() + j] == #[trigger] b[j]);
}

/// The unsigned 64-bit word the bytes of `d` at `off` encode.
pub open spec fn s_cdec_u64(d: Seq<u8>, off: int) -> Option<(u64, int)> {
    if off < 0 || off + 8 > d.len() {
        None
    } else {
        Some((dec_le_n(d, off, 8) as u64, off + 8))
    }
}

proof fn lemma_rt_u64(v: u64, d: Seq<u8>, off: int)
    requires
        0 <= off,
        off + 8 <= d.len(),
        d.subrange(off, off + 8) == enc_le(v as nat, 8),
    ensures
        s_cdec_u64(d, off) == Some((v, off + 8)),
{
    lemma_pow256_values();
    lemma_rt_le(v as nat, 8, d, off);
}

proof fn lemma_rt_dec(x: Dec, d: Seq<u8>, off: int)
    requires
        0 <= off,
        off + 10 <= d.len(),
        dec_wf(x),
        d.subrange(off, off + 10) == s_cenc_dec(x),
    ensures
        s_cdec_dec(d, off) == Some((x, off + 10)),
{
    lemma_pow256_values();
    lemma_enc_le_len(x.mant as nat, 8);
    lemma_enc_le_len(x.scale as nat, 1);
    assert(s_cenc_dec(x) =~= s_cenc_bool(x.neg) + (enc_le(x.mant as nat, 8) + enc_le(
        x.scale as nat,
        1,
    )));
    lemma_embed(d, off, s_cenc_bool(x.neg), enc_le(x.mant as nat, 8) + enc_le(x.scale as nat, 1));
    lemma_embed(d, off + 1, enc_le(x.mant as nat, 8), enc_le(x.scale as nat, 1));
    assert(d[off] == s_cenc_bool(x.neg)[0]) by {
        assert(d.subrange(off, off + 1)[0] == d[off]);
    }
    lemma_rt_le(x.mant as nat, 8, d, off + 1);
    lemma_rt_le(x.scale as nat, 1, d, off + 9);
    crate::decimal::lemma_pow10_19_value();
}

/// The encoding of a run of u16s values.
pub open spec fn s_cenc_u16s(v: Seq<u16>) -> Seq<u8>
    decreases v.len(),
{
    if v.len() == 0 {
        Seq::empty()
    } else {
        s_cenc_u16s(v.drop_last()) + (enc_le(v.last() as nat, 2))
    }
}

proof fn lemma_cenc_u16s_len(v: Seq<u16>)
    ensures
        s_cenc_u16s(v).len() == 2 * v.len(),
    decreases v.len(),
{
    if v.len() > 0 {
        lemma_cenc_u16s_len(v.drop_last());
        lemma_enc_le_helper_u16s(v.last());
    }
}

proof fn lemma_enc_le_helper_u16s(x: u16)
    ensures
        (enc_le(x as nat, 2)).len() == 2,
{
    
    
    lemma_enc_le_len(x as nat, 2);
    
}

proof fn lemma_split_u16s(v: Seq<u16>)
    requires
        v.len() > 0,
    ensures
        s_cenc_u16s(v) =~= (enc_le(v[0] as nat, 2)) + s_cenc_u16s(
            v.subrange(1, v.len() as int),
        ),
    decreases v.len(),
{
    if v.len() == 1 {
        assert(v.drop_last() =~= Seq::<u16>::empty());
        assert(v.subrange(1, 1) =~= Seq::<u16>::empty());
        assert(v.last() == v[0]);
        assert(Seq::<u8>::empty() + (enc_le(v[0] as nat, 2)) =~= (enc_le(v[0] as nat, 2))
            + Seq::<u8>::empty());
    } else {
        let w = v.drop_last();
        lemma_split_u16s(w);
        assert(w[0] == v[0]);
        assert(v.subrange(1, v.len() as int).drop_last() =~= w.subrange(1, w.len() as int));
        assert(v.subrange(1, v.len() as int).last() == v.last());
        assert(((enc_le(v[0] as nat, 2)) + s_cenc_u16s(w.subrange(1, w.len() as int)))
            + (enc_le(v.last() as nat, 2)) =~= (enc_le(v[0] as nat, 2)) + (s_cenc_u16s(
            w.subrange(1, w.len() as int),
        ) + (enc_le(v.last() as nat, 2))));
    }
}

/// The encoding of a run of i16s values.
pub open spec fn s_cenc_i16s(v: Seq<i16>) -> Seq<u8>
    decreases v.len(),
{
    if v.len() == 0 {
        Seq::empty()
    } else {
        s_cenc_i16s(v.drop_last()) + (enc_le((v.last() as u16) as nat, 2))
    }
}

proof fn lemma_cenc_i16s_len(v: Seq<i16>)
    ensures
        s_cenc_i16s(v).len() == 2 * v.len(),
    decreases v.len(),
{
    if v.len() > 0 {
        lemma_cenc_i16s_len(v.drop_last());
        lemma_enc_le_helper_i16s(v.last());
    }
}

proof fn lemma_enc_le_helper_i16s(x: i16)
    ensures
        (enc_le((x as u16) as nat, 2)).len() == 2,
{
    lemma_enc_le_len((x as u16) as nat, 2);
    
    
    
}

proof fn lemma_split_i16s(v: Seq<i16>)
    requires
        v.len() > 0,
    ensures
        s_cenc_i16s(v) =~= (enc_le((v[0] as u16) as nat, 2)) + s_cenc_i16s(
            v.subrange(1, v.len() as int),
        ),
    decreases v.len(),
{
    if v.len() == 1 {
        assert(v.drop_last() =~= Seq::<i16>::empty());
        assert(v.subrange(1, 1) =~= Seq::<i16>::empty());
        assert(v.last() == v[0]);
        assert(Seq::<u8>::empty() + (enc_le((v[0] as u16) as nat, 2)) =~= (enc_le((v[0] as u16) as nat, 2))
            + Seq::<u8>::empty());
    } else {
        let w = v.drop_last();
        lemma_split_i16s(w);
        assert(w[0] == v[0]);
        assert(v.subrange(1, v.len() as int).drop_last() =~= w.subrange(1, w.len() as int));
        assert(v.subrange(1, v.len() as int).last() == v.last());
        assert(((enc_le((v[0] as u16) as nat, 2)) + s_cenc_i16s(w.subrange(1, w.len() as int)))
            + (enc_le((v.last() as u16) as nat, 2)) =~= (enc_le((v[0] as u16) as nat, 2)) + (s_cenc_i16s(
            w.subrange(1, w.len() as int),
        ) + (enc_le((v.last() as u16) as nat, 2))));
    }
}

/// The encoding of a run of u32s values.
pub open spec fn s_cenc_u32s(v: Seq<u32>) -> Seq<u8>
    decreases v.len(),
{
    if v.len() == 0 {
        Seq::empty()
    } else {
        s_cenc_u32s(v.drop_last()) + (enc_le(v.last() as nat, 4))
    }
}

proof fn lemma_cenc_u32s_len(v: Seq<u32>)
    ensures
        s_cenc_u32s(v).len() == 4 * v.len(),
    decreases v.len(),
{
    if v.len() > 0 {
        lemma_cenc_u32s_len(v.drop_last());
        lemma_enc_le_helper_u32s(v.last());
    }
}

proof fn lemma_enc_le_helper_u32s(x: u32)
    ensures
        (enc_le(x as nat, 4)).len() == 4,
{
    
    
    lemma_enc_le_len(x as nat, 4);
    
}

proof fn lemma_split_u32s(v: Seq<u32>)
    requires
        v.len() > 0,
    ensures
        s_cenc_u32s(v) =~= (enc_le(v[0] as nat, 4)) + s_cenc_u32s(
            v.subrange(1, v.len() as int),
        ),
    decreases v.len(),
{
    if v.len() == 1 {
        assert(v.drop_last() =~= Seq::<u32>::empty());
        assert(v.subrange(1, 1) =~= Seq::<u32>::empty());
        assert(v.last() == v[0]);
        assert(Seq::<u8>::empty() + (enc_le(v[0] as nat, 4)) =~= (enc_le(v[0] as nat, 4))
            + Seq::<u8>::empty());
    } else {
        let w = v.drop_last();
        lemma_split_u32s(w);
        assert(w[0] == v[0]);
        assert(v.subrange(1, v.len() as int).drop_last() =~= w.subrange(1, w.len() as int));
        assert(v.subrange(1, v.len() as int).last() == v.last());
        assert(((enc_le(v[0] as nat, 4)) + s_cenc_u32s(w.subrange(1, w.len() as int)))
            + (enc_le(v.last() as nat, 4)) =~= (enc_le(v[0] as nat, 4)) + (s_cenc_u32s(
            w.subrange(1, w.len() as int),
        ) + (enc_le(v.last() as nat, 4))));
    }
}

/// The encoding of a run of i32s values.
pub open spec fn s_cenc_i32s(v: Seq<i32>) -> Seq<u8>
    decreases v.len(),
{
    if v.len() == 0 {
        Seq::empty()
    } else {
        s_cenc_i32s(v.drop_last()) + (enc_le((v.last() as u32) as nat, 4))
    }
}

proof fn lemma_cenc_i32s_len(v: Seq<i32>)
    ensures
        s_cenc_i32s(v).len() == 4 * v.len(),
    decreases v.len(),
{
    if v.len() > 0 {
        lemma_cenc_i32s_len(v.drop_last());
        lemma_enc_le_helper_i32s(v.last());
    }
}

proof fn lemma_enc_le_helper_i32s(x: i32)
    ensures
        (enc_le((x as u32) as nat, 4)).len() == 4,
{
    
    lemma_enc_le_len((x as u32) as nat, 4);
    
    
}

proof fn lemma_split_i32s(v: Seq<i32>)
    requires
        v.len() > 0,
    ensures
        s_cenc_i32s(v) =~= (enc_le((v[0] as u32) as nat, 4)) + s_cenc_i32s(
            v.subrange(1, v.len() as int),
        ),
    decreases v.len(),
{
    if v.len() == 1 {
        assert(v.drop_last() =~= Seq::<i32>::empty());
        assert(v.subrange(1, 1) =~= Seq::<i32>::empty());
        assert(v.last() == v[0]);
        assert(Seq::<u8>::empty() + (enc_le((v[0] as u32) as nat, 4)) =~= (enc_le((v[0] as u32) as nat, 4))
            + Seq::<u8>::empty());
    } else {
        let w = v.drop_last();
        lemma_split_i32s(w);
        assert(w[0] == v[0]);
        assert(v.subrange(1, v.len() as int).drop_last() =~= w.subrange(1, w.len() as int));
        assert(v.subrange(1, v.len() as int).last() == v.last());
        assert(((enc_le((v[0] as u32) as nat, 4)) + s_cenc_i32s(w.subrange(1, w.len() as int)))
            + (enc_le((v.last() as u32) as nat, 4)) =~= (enc_le((v[0] as u32) as nat, 4)) + (s_cenc_i32s(
            w.subrange(1, w.len() as int),
        ) + (enc_le((v.last() as u32) as nat, 4))));
    }
}

/// The encoding of a run of u64s values.
pub open spec fn s_cenc_u64s(v: Seq<u64>) -> Seq<u8>
    decreases v.len(),
{
    if v.len() == 0 {
        Seq::empty()
    } else {
        s_cenc_u64s(v.drop_last()) + (enc_le(v.last() as nat, 8))
    }
}

proof fn lemma_cenc_u64s_len(v: Seq<u64>)
    ensures
        s_cenc_u64s(v).len() == 8 * v.len(),
    decreases v.len(),
{
    if v.len() > 0 {
        lemma_cenc_u64s_len(v.drop_last());
        lemma_enc_le_helper_u64s(v.last());
    }
}

proof fn lemma_enc_le_helper_u64s(x: u64)
    ensures
        (enc_le(x as nat, 8)).len() == 8,
{
    
    
    lemma_enc_le_len(x as nat, 8);
    
}

proof fn lemma_split_u64s(v: Seq<u64>)
    requires
        v.len() > 0,
    ensures
        s_cenc_u64s(v) =~= (enc_le(v[0] as nat, 8)) + s_cenc_u64s(
            v.subrange(1, v.len() as int),
        ),
    decreases v.len(),
{
    if v.len() == 1 {
        assert(v.drop_last() =~= Seq::<u64>::empty());
        assert(v.subrange(1, 1) =~= Seq::<u64>::empty());
        assert(v.last() == v[0]);
        assert(Seq::<u8>::empty() + (enc_le(v[0] as nat, 8)) =~= (enc_le(v[0] as nat, 8))
            + Seq::<u8>::empty());
    } else {
        let w = v.drop_last();
        lemma_split_u64s(w);
        assert(w[0] == v[0]);
        assert(v.subrange(1, v.len() as int).drop_last() =~= w.subrange(1, w.len() as int));
        assert(v.subrange(1, v.len() as int).last() == v.last());
        assert(((enc_le(v[0] as nat, 8)) + s_cenc_u64s(w.subrange(1, w.len() as int)))
            + (enc_le(v.last() as nat, 8)) =~= (enc_le(v[0] as nat, 8)) + (s_cenc_u64s(
            w.subrange(1, w.len() as int),
        ) + (enc_le(v.last() as nat, 8))));
    }
}

/// The encoding of a run of chars values.
pub open spec fn s_cenc_chars(v: Seq<char>) -> Seq<u8>
    decreases v.len(),
{
    if v.len() == 0 {
        Seq::empty()
    } else {
        s_cenc_chars(v.drop_last()) + (enc_le((v.last() as u32) as nat, 4))
    }
}

proof fn lemma_cenc_chars_len(v: Seq<char>)
    ensures
        s_cenc_chars(v).len() == 4 * v.len(),
    decreases v.len(),
{
    if v.len() > 0 {
        lemma_cenc_chars_len(v.drop_last());
        lemma_enc_le_helper_chars(v.last());
    }
}

proof fn lemma_enc_le_helper_chars(x: char)
    ensures
        (enc_le((x as u32) as nat, 4)).len() == 4,
{
    lemma_enc_le_len((x as u32) as nat, 4);
}

proof fn lemma_split_chars(v: Seq<char>)
    requires
        v.len() > 0,
    ensures
        s_cenc_chars(v) =~= (enc_le((v[0] as u32) as nat, 4)) + s_cenc_chars(
            v.subrange(1, v.len() as int),
        ),
    decreases v.len(),
{
    if v.len() == 1 {
        assert(v.drop_last() =~= Seq::<char>::empty());
        assert(v.subrange(1, 1) =~= Seq::<char>::empty());
        assert(v.last() == v[0]);
        assert(Seq::<u8>::empty() + (enc_le((v[0] as u32) as nat, 4)) =~= (enc_le((v[0] as u32) as nat, 4))
            + Seq::<u8>::empty());
    } else {
        let w = v.drop_last();
        lemma_split_chars(w);
        assert(w[0] == v[0]);
        assert(v.subrange(1, v.len() as int).drop_last() =~= w.subrange(1, w.len() as int));
        assert(v.subrange(1, v.len() as int).last() == v.last());
        assert(((enc_le((v[0] as u32) as nat, 4)) + s_cenc_chars(w.subrange(1, w.len() as int)))
            + (enc_le((v.last() as u32) as nat, 4)) =~= (enc_le((v[0] as u32) as nat, 4)) + (s_cenc_chars(
            w.subrange(1, w.len() as int),
        ) + (enc_le((v.last() as u32) as nat, 4))));
    }
}

/// The encoding of a run of decs values.
pub open spec fn s_cenc_decs(v: Seq<Dec>) -> Seq<u8>
    decreases v.len(),
{
    if v.len() == 0 {
        Seq::empty()
    } else {
        s_cenc_decs(v.drop_last()) + (s_cenc_dec(v.last()))
    }
}

proof fn lemma_cenc_decs_len(v: Seq<Dec>)
    ensures
        s_cenc_decs(v).len() == 10 * v.len(),
    decreases v.len(),
{
    if v.len() > 0 {
        lemma_cenc_decs_len(v.drop_last());
        lemma_enc_le_helper_decs(v.last());
    }
}

proof fn lemma_enc_le_helper_decs(x: Dec)
    ensures
        (s_cenc_dec(x)).len() == 10,
{
    
    
    
    lemma_enc_le_len(x.mant as nat, 8); lemma_enc_le_len(x.scale as nat, 1);
}

proof fn lemma_split_decs(v: Seq<Dec>)
    requires
        v.len() > 0,
    ensures
        s_cenc_decs(v) =~= (s_cenc_dec(v[0])) + s_cenc_decs(
            v.subrange(1, v.len() as int),
        ),
    decreases v.len(),
{
    if v.len() == 1 {
        assert(v.drop_last() =~= Seq::<Dec>::empty());
        assert(v.subrange(1, 1) =~= Seq::<Dec>::empty());
        assert(v.last() == v[0]);
        assert(Seq::<u8>::empty() + (s_cenc_dec(v[0])) =~= (s_cenc_dec(v[0]))
            + Seq::<u8>::empty());
    } else {
        let w = v.drop_last();
        lemma_split_decs(w);
        assert(w[0] == v[0]);
        assert(v.subrange(1, v.len() as int).drop_last() =~= w.subrange(1, w.len() as int));
        assert(v.subrange(1, v.len() as int).last() == v.last());
        assert(((s_cenc_dec(v[0])) + s_cenc_decs(w.subrange(1, w.len() as int)))
            + (s_cenc_dec(v.last())) =~= (s_cenc_dec(v[0])) + (s_cenc_decs(
            w.subrange(1, w.len() as int),
        ) + (s_cenc_dec(v.last()))));
    }
}

/// Whether `w` is a Unicode scalar value.
pub open spec fn s_valid_scalar(w: u32) -> bool {
    vstd::utf8::is_scalar(w)
}

/// The run of u16s values the bytes of `d` at `off` encode.
pub open spec fn s_cdec_u16s(d: Seq<u8>, off: int, cnt: nat) -> Option<(Seq<u16>, int)>
    decreases cnt,
{
    if cnt == 0 {
        Some((Seq::empty(), off))
    } else if off < 0 || off + 2 > d.len() {
        None
    } else {
        let w = dec_le_n(d, off, 2) as u16;
        match s_cdec_u16s(d, off + 2, (cnt - 1) as nat) {
            None => None,
            Some((r, fin)) => Some((seq![w] + r, fin)),
        }
    }
}

/// The run of i16s values the bytes of `d` at `off` encode.
pub open spec fn s_cdec_i16s(d: Seq<u8>, off: int, cnt: nat) -> Option<(Seq<i16>, int)>
    decreases cnt,
{
    if cnt == 0 {
        Some((Seq::empty(), off))
    } else if off < 0 || off + 2 > d.len() {
        None
    } else {
        let w = crate::bytes::s_as_i16(dec_le_n(d, off, 2) as u16);
        match s_cdec_i16s(d, off + 2, (cnt - 1) as nat) {
            None => None,
            Some((r, fin)) => Some((seq![w] + r, fin)),
        }
    }
}

/// The run of u32s values the bytes of `d` at `off` encode.
pub open spec fn s_cdec_u32s(d: Seq<u8>, off: int, cnt: nat) -> Option<(Seq<u32>, int)>
    decreases cnt,
{
    if cnt == 0 {
        Some((Seq::empty(), off))
    } else if off < 0 || off + 4 > d.len() {
        None
    } else {
        let w = dec_le_n(d, off, 4) as u32;
        match s_cdec_u32s(d, off + 4, (cnt - 1) as nat) {
            None => None,
            Some((r, fin)) => Some((seq![w] + r, fin)),
        }
    }
}

/// The run of i32s values the bytes of `d` at `off` encode.
pub open spec fn s_cdec_i32s(d: Seq<u8>, off: int, cnt: nat) -> Option<(Seq<i32>, int)>
    decreases cnt,
{
    if cnt == 0 {
        Some((Seq::empty(), off))
    } else if off < 0 || off + 4 > d.len() {
        None
    } else {
        let w = crate::bytes::s_as_i32(dec_le_n(d, off, 4) as u32);
        match s_cdec_i32s(d, off + 4, (cnt - 1) as nat) {
            None => None,
            Some((r, fin)) => Some((seq![w] + r, fin)),
        }
    }
}

/// The run of u64s values the bytes of `d` at `off` encode.
pub open spec fn s_cdec_u64s(d: Seq<u8>, off: int, cnt: nat) -> Option<(Seq<u64>, int)>
    decreases cnt,
{
    if cnt == 0 {
        Some((Seq::empty(), off))
    } else if off < 0 || off + 8 > d.len() {
        None
    } else {
        let w = dec_le_n(d, off, 8) as u64;
        match s_cdec_u64s(d, off + 8, (cnt - 1) as nat) {
            None => None,
            Some((r, fin)) => Some((seq![w] + r, fin)),
        }
    }
}

/// The run of chars values the bytes of `d` at `off` encode.
pub open spec fn s_cdec_chars(d: Seq<u8>, off: int, cnt: nat) -> Option<(Seq<char>, int)>
    decreases cnt,
{
    if cnt == 0 {
        Some((Seq::empty(), off))
    } else if off < 0 || off + 4 > d.len() {
        None
    } else {
        let w = dec_le_n(d, off, 4) as u32;
        if !s_valid_scalar(w) {
            None
        } else {
            match s_cdec_chars(d, off + 4, (cnt - 1) as nat) {
                None => None,
                Some((r, fin)) => Some((seq![w as char] + r, fin)),
            }
        }
    }
}

/// The run of decs values the bytes of `d` at `off` encode.
pub open spec fn s_cdec_decs(d: Seq<u8>, off: int, cnt: nat) -> Option<(Seq<Dec>, int)>
    decreases cnt,
{
    if cnt == 0 {
        Some((Seq::empty(), off))
    } else if off < 0 || off + 10 > d.len() {
        None
    } else {
        match s_cdec_dec(d, off) {
            None => None,
            Some((x, off2)) => match s_cdec_decs(d, off2, (cnt - 1) as nat) {
                None => None,
                Some((r, fin)) => Some((seq![x] + r, fin)),
            },
        }
    }
}

proof fn lemma_i16_cast_rt(x: i16)
    ensures
        crate::bytes::s_as_i16(x as u16) == x,
{
    assert((x as u16) as i16 == x) by (bit_vector);
    crate::bytes::lemma_cast_u16_i16(x as u16);
}

proof fn lemma_i32_cast_rt(x: i32)
    ensures
        crate::bytes::s_as_i32(x as u32) == x,
{
    assert((x as u32) as i32 == x) by (bit_vector);
    crate::bytes::lemma_cast_u32_i32(x as u32);
}

proof fn lemma_rt_u16s(v: Seq<u16>, d: Seq<u8>, off: int)
    requires
        0 <= off,
        off + 2 * v.len() <= d.len(),
        d.subrange(off, off + 2 * v.len()) == s_cenc_u16s(v),
    ensures
        s_cdec_u16s(d, off, v.len()) == Some((v, off + 2 * v.len())),
    decreases v.len(),
{
    lemma_pow256_values();
    if v.len() > 0 {
        let tail = v.subrange(1, v.len() as int);
        lemma_split_u16s(v);
        lemma_enc_le_helper_u16s(v[0]);
        lemma_cenc_u16s_len(tail);
        lemma_embed(d, off, enc_le(v[0] as nat, 2), s_cenc_u16s(tail));
        lemma_rt_le(v[0] as nat, 2, d, off);
        lemma_rt_u16s(tail, d, off + 2);
        assert(seq![v[0]] + tail =~= v);
    }
}

proof fn lemma_rt_i16s(v: Seq<i16>, d: Seq<u8>, off: int)
    requires
        0 <= off,
        off + 2 * v.len() <= d.len(),
        d.subrange(off, off + 2 * v.len()) == s_cenc_i16s(v),
    ensures
        s_cdec_i16s(d, off, v.len()) == Some((v, off + 2 * v.len())),
    decreases v.len(),
{
    lemma_pow256_values();
    if v.len() > 0 {
        let tail = v.subrange(1, v.len() as int);
        lemma_split_i16s(v);
        lemma_enc_le_helper_i16s(v[0]);
        lemma_cenc_i16s_len(tail);
        lemma_embed(d, off, enc_le((v[0] as u16) as nat, 2), s_cenc_i16s(tail));
        lemma_rt_le((v[0] as u16) as nat, 2, d, off);
        lemma_i16_cast_rt(v[0]);
        lemma_rt_i16s(tail, d, off + 2);
        assert(seq![v[0]] + tail =~= v);
    }
}

proof fn lemma_rt_u32s(v: Seq<u32>, d: Seq<u8>, off: int)
    requires
        0 <= off,
        off + 4 * v.len() <= d.len(),
        d.subrange(off, off + 4 * v.len()) == s_cenc_u32s(v),
    ensures
        s_cdec_u32s(d, off, v.len()) == Some((v, off + 4 * v.len())),
    decreases v.len(),
{
    lemma_pow256_values();
    if v.len() > 0 {
        let tail = v.subrange(1, v.len() as int);
        lemma_split_u32s(v);
        lemma_enc_le_helper_u32s(v[0]);
        lemma_cenc_u32s_len(tail);
        lemma_embed(d, off, enc_le(v[0] as nat, 4), s_cenc_u32s(tail));
        lemma_rt_le(v[0] as nat, 4, d, off);
        lemma_rt_u32s(tail, d, off + 4);
        assert(seq![v[0]] + tail =~= v);
    }
}

proof fn lemma_rt_i32s(v: Seq<i32>, d: Seq<u8>, off: int)
    requires
        0 <= off,
        off + 4 * v.len() <= d.len(),
        d.subrange(off, off + 4 * v.len()) == s_cenc_i32s(v),
    ensures
        s_cdec_i32s(d, off, v.len()) == Some((v, off + 4 * v.len())),
    decreases v.len(),
{
    lemma_pow256_values();
    if v.len() > 0 {
        let tail = v.subrange(1, v.len() as int);
        lemma_split_i32s(v);
        lemma_enc_le_helper_i32s(v[0]);
        lemma_cenc_i32s_len(tail);
        lemma_embed(d, off, enc_le((v[0] as u32) as nat, 4), s_cenc_i32s(tail));
        lemma_rt_le((v[0] as u32) as nat, 4, d, off);
        lemma_i32_cast_rt(v[0]);
        lemma_rt_i32s(tail, d, off + 4);
        assert(seq![v[0]] + tail =~= v);
    }
}

proof fn lemma_rt_u64s(v: Seq<u64>, d: Seq<u8>, off: int)
    requires
        0 <= off,
        off + 8 * v.len() <= d.len(),
        d.subrange(off, off + 8 * v.len()) == s_cenc_u64s(v),
    ensures
        s_cdec_u64s(d, off, v.len()) == Some((v, off + 8 * v.len())),
    decreases v.len(),
{
    lemma_pow256_values();
    if v.len() > 0 {
        let tail = v.subrange(1, v.len() as int);
        lemma_split_u64s(v);
        lemma_enc_le_helper_u64s(v[0]);
        lemma_cenc_u64s_len(tail);
        lemma_embed(d, off, enc_le(v[0] as nat, 8), s_cenc_u64s(tail));
        lemma_rt_le(v[0] as nat, 8, d, off);
        lemma_rt_u64s(tail, d, off + 8);
        assert(seq![v[0]] + tail =~= v);
    }
}

proof fn lemma_rt_chars(v: Seq<char>, d: Seq<u8>, off: int)
    requires
        0 <= off,
        off + 4 * v.len() <= d.len(),
        d.subrange(off, off + 4 * v.len()) == s_cenc_chars(v),
    ensures
        s_cdec_chars(d, off, v.len()) == Some((v, off + 4 * v.len())),
    decreases v.len(),
{
    lemma_pow256_values();
    if v.len() > 0 {
        let tail = v.subrange(1, v.len() as int);
        lemma_split_chars(v);
        lemma_enc_le_helper_chars(v[0]);
        lemma_cenc_chars_len(tail);
        lemma_embed(d, off, enc_le((v[0] as u32) as nat, 4), s_cenc_chars(tail));
        vstd::utf8::char_is_scalar(v[0]);
        lemma_pow256_values();
        lemma_rt_le((v[0] as u32) as nat, 4, d, off);
        assert(s_valid_scalar(v[0] as u32));
        vstd::utf8::char_u32_cast(v[0], v[0] as u32);
        lemma_rt_chars(tail, d, off + 4);
        assert(seq![v[0]] + tail =~= v);
    }
}

proof fn lemma_rt_decs(v: Seq<Dec>, d: Seq<u8>, off: int)
    requires
        0 <= off,
        off + 10 * v.len() <= d.len(),
        d.subrange(off, off + 10 * v.len()) == s_cenc_decs(v),
        forall|i: int| 0 <= i < v.len() ==> dec_wf(#[trigger] v[i]),
    ensures
        s_cdec_decs(d, off, v.len()) == Some((v, off + 10 * v.len())),
    decreases v.len(),
{
    lemma_pow256_values();
    if v.len() > 0 {
        let tail = v.subrange(1, v.len() as int);
        lemma_split_decs(v);
        lemma_enc_le_helper_decs(v[0]);
        lemma_cenc_decs_len(tail);
        lemma_embed(d, off, s_cenc_dec(v[0]), s_cenc_decs(tail));
        assert(forall|i: int| 0 <= i < tail.len() ==> dec_wf(#[trigger] tail[i])) by {
            assert(forall|i: int| 0 <= i < tail.len() ==> tail[i] == v[i + 1]);
        }
        assert(s_cenc_dec(v[0]).len() == 10) by {
            lemma_enc_le_helper_decs(v[0]);
        }
        lemma_rt_dec(v[0], d, off);
        lemma_rt_decs(tail, d, off + 10);
        assert(seq![v[0]] + tail =~= v);
    }
}

/// The encoding of text: an eight-byte count and one word per character.
pub open spec fn s_cenc_text(t: Seq<char>) -> Seq<u8> {
    enc_le(t.len(), 8) + s_cenc_chars(t)
}

/// The text the bytes of `d` at `off` encode.
pub open spec fn s_cdec_text(d: Seq<u8>, off: int) -> Option<(Seq<char>, int)> {
    match s_cdec_u64(d, off) {
        None => None,
        Some((cnt, off2)) => s_cdec_chars(d, off2, cnt as nat),
    }
}

proof fn lemma_rt_text(t: Seq<char>, d: Seq<u8>, off: int)
    requires
        0 <= off,
        off + s_cenc_text(t).len() <= d.len(),
        d.subrange(off, off + s_cenc_text(t).len()) == s_cenc_text(t),
        t.len() <= usize::MAX,
    ensures
        s_cdec_text(d, off) == Some((t, off + s_cenc_text(t).len())),
        s_cenc_text(t).len() == 8 + 4 * t.len(),
{
    lemma_pow256_values();
    lemma_enc_le_len(t.len(), 8);
    lemma_cenc_chars_len(t);
    lemma_embed(d, off, enc_le(t.len(), 8), s_cenc_chars(t));
    lemma_rt_u64(t.len() as u64, d, off);
    lemma_rt_chars(t, d, off + 8);
}

/// Whether the dimensions and the sample count of a pixel array fit the
/// machine.
pub open spec fn img16_bounded(im: ImgModel16) -> bool {
    &&& 0 <= im.xr <= usize::MAX
    &&& 0 <= im.yr <= usize::MAX
    &&& 0 <= im.zr <= usize::MAX
    &&& im.data.len() <= usize::MAX
}

/// Whether the dimensions and the sample count of a pixel array fit the
/// machine.
pub open spec fn img8_bounded(im: ImgModel8) -> bool {
    &&& 0 <= im.xr <= usize::MAX
    &&& 0 <= im.yr <= usize::MAX
    &&& 0 <= im.zr <= usize::MAX
    &&& im.data.len() <= usize::MAX
}

/// The encoding of a 16-bit pixel array: dimensions, count, samples.
pub open spec fn s_cenc_img16(im: ImgModel16) -> Seq<u8> {
    enc_le(im.xr as nat, 8) + enc_le(im.yr as nat, 8) + enc_le(im.zr as nat, 8) + enc_le(
        im.data.len(),
        8,
    ) + s_cenc_i16s(im.data)
}

/// The 16-bit pixel array the bytes of `d` at `off` encode.
pub open spec fn s_cdec_img16(d: Seq<u8>, off: int) -> Option<(ImgModel16, int)> {
    if off < 0 || off + 32 > d.len() {
        None
    } else {
        let xr = dec_le_n(d, off, 8);
        let yr = dec_le_n(d, off + 8, 8);
        let zr = dec_le_n(d, off + 16, 8);
        let cnt = dec_le_n(d, off + 24, 8);
        if xr > usize::MAX || yr > usize::MAX || zr > usize::MAX {
            None
        } else {
            match s_cdec_i16s(d, off + 32, cnt) {
                None => None,
                Some((v, fin)) => Some(
                    (ImgModel16 { xr: xr as int, yr: yr as int, zr: zr as int, data: v }, fin),
                ),
            }
        }
    }
}

proof fn lemma_rt_img16(im: ImgModel16, d: Seq<u8>, off: int)
    requires
        0 <= off,
        off + s_cenc_img16(im).len() <= d.len(),
        d.subrange(off, off + s_cenc_img16(im).len()) == s_cenc_img16(im),
        img16_bounded(im),
    ensures
        s_cdec_img16(d, off) == Some((im, off + s_cenc_img16(im).len())),
        s_cenc_img16(im).len() == 32 + 2 * im.data.len(),
{
    lemma_pow256_values();
    lemma_enc_le_len(im.xr as nat, 8);
    lemma_enc_le_len(im.yr as nat, 8);
    lemma_enc_le_len(im.zr as nat, 8);
    lemma_enc_le_len(im.data.len(), 8);
    lemma_cenc_i16s_len(im.data);
    let e1 = enc_le(im.xr as nat, 8);
    let e2 = enc_le(im.yr as nat, 8);
    let e3 = enc_le(im.zr as nat, 8);
    let e4 = enc_le(im.data.len(), 8);
    let e5 = s_cenc_i16s(im.data);
    assert(s_cenc_img16(im) =~= e1 + (e2 + (e3 + (e4 + e5))));
    lemma_embed(d, off, e1, e2 + (e3 + (e4 + e5)));
    lemma_embed(d, off + 8, e2, e3 + (e4 + e5));
    lemma_embed(d, off + 16, e3, e4 + e5);
    lemma_embed(d, off + 24, e4, e5);
    lemma_rt_le(im.xr as nat, 8, d, off);
    lemma_rt_le(im.yr as nat, 8, d, off + 8);
    lemma_rt_le(im.zr as nat, 8, d, off + 16);
    lemma_rt_le(im.data.len(), 8, d, off + 24);
    lemma_rt_i16s(im.data, d, off + 32);
}

/// The encoding of an 8-bit pixel array: dimensions, count, samples.
pub open spec fn s_cenc_img8(im: ImgModel8) -> Seq<u8> {
    enc_le(im.xr as nat, 8) + enc_le(im.yr as nat, 8) + enc_le(im.zr as nat, 8) + enc_le(
        im.data.len(),
        8,
    ) + im.data
}

/// The 8-bit pixel array the bytes of `d` at `off` encode.
pub open spec fn s_cdec_img8(d: Seq<u8>, off: int) -> Option<(ImgModel8, int)> {
    if off < 0 || off + 32 > d.len() {
        None
    } else {
        let xr = dec_le_n(d, off, 8);
        let yr = dec_le_n(d, off + 8, 8);
        let zr = dec_le_n(d, off + 16, 8);
        let cnt = dec_le_n(d, off + 24, 8);
        if xr > usize::MAX || yr > usize::MAX || zr > usize::MAX || off + 32 + cnt > d.len() {
            None
        } else {
            Some(
                (
                    ImgModel8 {
                        xr: xr as int,
                        yr: yr as int,
                        zr: zr as int,
                        data: d.subrange(off + 32, off + 32 + cnt),
                    },
                    off + 32 + cnt,
                ),
            )
        }
    }
}

proof fn lemma_rt_img8(im: ImgModel8, d: Seq<u8>, off: int)
    requires
        0 <= off,
        off + s_cenc_img8(im).len() <= d.len(),
        d.subrange(off, off + s_cenc_img8(im).len()) == s_cenc_img8(im),
        img8_bounded(im),
    ensures
        s_cdec_img8(d, off) == Some((im, off + s_cenc_img8(im).len())),
        s_cenc_img8(im).len() == 32 + im.data.len(),
{
    lemma_pow256_values();
    lemma_enc_le_len(im.xr as nat, 8);
    lemma_enc_le_len(im.yr as nat, 8);
    lemma_enc_le_len(im.zr as nat, 8);
    lemma_enc_le_len(im.data.len(), 8);
    let e1 = enc_le(im.xr as nat, 8);
    let e2 = enc_le(im.yr as nat, 8);
    let e3 = enc_le(im.zr as nat, 8);
    let e4 = enc_le(im.data.len(), 8);
    let e5 = im.data;
    assert(s_cenc_img8(im) =~= e1 + (e2 + (e3 + (e4 + e5))));
    lemma_embed(d, off, e1, e2 + (e3 + (e4 + e5)));
    lemma_embed(d, off + 8, e2, e3 + (e4 + e5));
    lemma_embed(d, off + 16, e3, e4 + e5);
    lemma_embed(d, off + 24, e4, e5);
    lemma_rt_le(im.xr as nat, 8, d, off);
    lemma_rt_le(im.yr as nat, 8, d, off + 8);
    lemma_rt_le(im.zr as nat, 8, d, off + 16);
    lemma_rt_le(im.data.len(), 8, d, off + 24);
}

/// Whether every list in the value, at any depth, fits the machine.
pub open spec fn elt_bounded(e: EltModel) -> bool
    decreases e,
{
    match e {
        EltModel::Int16s(v) => v.len() <= usize::MAX,
        EltModel::UInt16s(v) => v.len() <= usize::MAX,
        EltModel::Int32s(v) => v.len() <= usize::MAX,
        EltModel::UInt32s(v) => v.len() <= usize::MAX,
        EltModel::Decimals(v) => v.len() <= usize::MAX,
        EltModel::Float64Bits(v) => v.len() <= usize::MAX,
        EltModel::Float32Bits(v) => v.len() <= usize::MAX,
        EltModel::Text(t) => t.len() <= usize::MAX,
        EltModel::Bytes(v) => v.len() <= usize::MAX,
        EltModel::Items(items) => items.len() <= usize::MAX && datasets_bounded(items),
        EltModel::Image16(im) => img16_bounded(im),
        EltModel::Image8(im) => img8_bounded(im),
        EltModel::Empty => true,
    }
}

/// Whether every dataset of the run is bounded.
pub open spec fn datasets_bounded(s: Seq<DatasetModel>) -> bool
    decreases s,
{
    if s.len() == 0 {
        true
    } else {
        datasets_bounded(s.drop_last()) && dataset_bounded(s.last())
    }
}

/// Whether a dataset's pairs and all their parts fit the machine.
pub open spec fn dataset_bounded(m: DatasetModel) -> bool
    decreases m,
{
    m.pairs.len() <= usize::MAX && pairs_bounded(m.pairs)
}

/// Whether every pair of the run is bounded.
pub open spec fn pairs_bounded(p: Seq<(Seq<char>, EltModel)>) -> bool
    decreases p,
{
    if p.len() == 0 {
        true
    } else {
        pairs_bounded(p.drop_last()) && p.last().0.len() <= usize::MAX && elt_bounded(p.last().1)
    }
}

/// The encoding of an element value: a variant tag and the payload.
pub open spec fn s_cenc_elt(e: EltModel) -> Seq<u8>
    decreases e,
{
    match e {
        EltModel::Int16s(v) => seq![1u8] + enc_le(v.len(), 8) + s_cenc_i16s(v),
        EltModel::UInt16s(v) => seq![2u8] + enc_le(v.len(), 8) + s_cenc_u16s(v),
        EltModel::Int32s(v) => seq![3u8] + enc_le(v.len(), 8) + s_cenc_i32s(v),
        EltModel::UInt32s(v) => seq![4u8] + enc_le(v.len(), 8) + s_cenc_u32s(v),
        EltModel::Decimals(v) => seq![5u8] + enc_le(v.len(), 8) + s_cenc_decs(v),
        EltModel::Float64Bits(v) => seq![6u8] + enc_le(v.len(), 8) + s_cenc_u64s(v),
        EltModel::Float32Bits(v) => seq![7u8] + enc_le(v.len(), 8) + s_cenc_u32s(v),
        EltModel::Text(t) => seq![8u8] + s_cenc_text(t),
        EltModel::Bytes(v) => seq![9u8] + enc_le(v.len(), 8) + v,
        EltModel::Items(items) => seq![10u8] + enc_le(items.len(), 8) + s_cenc_datasets(items),
        EltModel::Image16(im) => seq![11u8] + s_cenc_img16(im),
        EltModel::Image8(im) => seq![12u8] + s_cenc_img8(im),
        EltModel::Empty => seq![13u8],
    }
}

/// The encoding of a run of datasets.
pub open spec fn s_cenc_datasets(s: Seq<DatasetModel>) -> Seq<u8>
    decreases s,
{
    if s.len() == 0 {
        Seq::empty()
    } else {
        s_cenc_datasets(s.drop_last()) + s_cenc_dataset(s.last())
    }
}

/// The encoding of a dataset: a pair count and the pairs.
pub open spec fn s_cenc_dataset(m: DatasetModel) -> Seq<u8>
    decreases m,
{
    enc_le(m.pairs.len(), 8) + s_cenc_pairs(m.pairs)
}

/// The encoding of a run of keyword/value pairs.
pub open spec fn s_cenc_pairs(p: Seq<(Seq<char>, EltModel)>) -> Seq<u8>
    decreases p,
{
    if p.len() == 0 {
        Seq::empty()
    } else {
        s_cenc_pairs(p.drop_last()) + (s_cenc_text(p.last().0) + s_cenc_elt(p.last().1))
    }
}

/// The encoding of a scan: a slice count, the slices, the volume.
pub open spec fn s_cenc_scan(s: ScanModel) -> Seq<u8> {
    enc_le(s.slices.len(), 8) + s_cenc_datasets(s.slices) + s_cenc_img16(s.image)
}

/// The element value the bytes of `d` at `off` encode.
pub open spec fn s_cdec_elt(d: Seq<u8>, off: int) -> Option<(EltModel, int)>
    decreases d.len() - off, 0int,
{
    if off < 0 || off + 1 > d.len() {
        None
    } else {
        let tag = d[off];
        if tag == 13 {
            Some((EltModel::Empty, off + 1))
        } else if tag == 8 {
            match s_cdec_text(d, off + 1) {
                None => None,
                Some((t, fin)) => Some((EltModel::Text(t), fin)),
            }
        } else if tag == 11 {
            match s_cdec_img16(d, off + 1) {
                None => None,
                Some((im, fin)) => Some((EltModel::Image16(im), fin)),
            }
        } else if tag == 12 {
            match s_cdec_img8(d, off + 1) {
                None => None,
                Some((im, fin)) => Some((EltModel::Image8(im), fin)),
            }
        } else if off + 9 > d.len() {
            None
        } else {
            let cnt = dec_le_n(d, off + 1, 8);
            let off2 = off + 9;
            if tag == 1 {
                match s_cdec_i16s(d, off2, cnt) {
                    None => None,
                    Some((v, fin)) => Some((EltModel::Int16s(v), fin)),
                }
            } else if tag == 2 {
                match s_cdec_u16s(d, off2, cnt) {
                    None => None,
                    Some((v, fin)) => Some((EltModel::UInt16s(v), fin)),
                }
            } else if tag == 3 {
                match s_cdec_i32s(d, off2, cnt) {
                    None => None,
                    Some((v, fin)) => Some((EltModel::Int32s(v), fin)),
                }
            } else if tag == 4 {
                match s_cdec_u32s(d, off2, cnt) {
                    None => None,
                    Some((v, fin)) => Some((EltModel::UInt32s(v), fin)),
                }
            } else if tag == 5 {
                match s_cdec_decs(d, off2, cnt) {
                    None => None,
                    Some((v, fin)) => Some((EltModel::Decimals(v), fin)),
                }
            } else if tag == 6 {
                match s_cdec_u64s(d, off2, cnt) {
                    None => None,
                    Some((v, fin)) => Some((EltModel::Float64Bits(v), fin)),
                }
            } else if tag == 7 {
                match s_cdec_u32s(d, off2, cnt) {
                    None => None,
                    Some((v, fin)) => Some((EltModel::Float32Bits(v), fin)),
                }
            } else if tag == 9 {
                if off2 + cnt > d.len() {
                    None
                } else {
                    Some((EltModel::Bytes(d.subrange(off2, off2 + cnt)), off2 + cnt))
                }
            } else if tag == 10 {
                match s_cdec_datasets(d, off2, cnt) {
                    None => None,
                    Some((items, fin)) => Some((EltModel::Items(items), fin)),
                }
            } else {
                None
            }
        }
    }
}

/// The run of `cnt` datasets the bytes of `d` at `off` encode.
pub open spec fn s_cdec_datasets(d: Seq<u8>, off: int, cnt: nat) -> Option<
    (Seq<DatasetModel>, int),
>
    decreases d.len() - off, 2int, cnt,
{
    if cnt == 0 {
        Some((Seq::empty(), off))
    } else if off < 0 || off > d.len() {
        None
    } else {
        match s_cdec_dataset(d, off) {
            None => None,
            Some((m, off2)) => {
                if off2 <= off || off2 > d.len() {
                    None
                } else {
                    match s_cdec_datasets(d, off2, (cnt - 1) as nat) {
                        None => None,
                        Some((r, fin)) => Some((seq![m] + r, fin)),
                    }
                }
            },
        }
    }
}

/// The dataset the bytes of `d` at `off` encode.
pub open spec fn s_cdec_dataset(d: Seq<u8>, off: int) -> Option<(DatasetModel, int)>
    decreases d.len() - off, 1int,
{
    if off < 0 || off + 8 > d.len() {
        None
    } else {
        let cnt = dec_le_n(d, off, 8);
        match s_cdec_pairs(d, off + 8, cnt) {
            None => None,
            Some((p, fin)) => Some((DatasetModel { pairs: p }, fin)),
        }
    }
}

/// The run of `cnt` keyword/value pairs the bytes of `d` at `off` encode.
pub open spec fn s_cdec_pairs(d: Seq<u8>, off: int, cnt: nat) -> Option<
    (Seq<(Seq<char>, EltModel)>, int),
>
    decreases d.len() - off, 0int, cnt,
{
    if cnt == 0 {
        Some((Seq::empty(), off))
    } else if off < 0 || off > d.len() {
        None
    } else {
        match s_cdec_text(d, off) {
            None => None,
            Some((t, off2)) => {
                if off2 <= off || off2 > d.len() {
                    None
                } else {
                    match s_cdec_elt(d, off2) {
                        None => None,
                        Some((e, off3)) => {
                            if off3 <= off2 || off3 > d.len() {
                                None
                            } else {
                                match s_cdec_pairs(d, off3, (cnt - 1) as nat) {
                                    None => None,
                                    Some((r, fin)) => Some((seq![(t, e)] + r, fin)),
                                }
                            }
                        },
                    }
                }
            },
        }
    }
}

/// The scan the bytes of `d` at `off` encode.
pub open spec fn s_cdec_scan(d: Seq<u8>, off: int) -> Option<(ScanModel, int)> {
    if off < 0 || off + 8 > d.len() {
        None
    } else {
        let cnt = dec_le_n(d, off, 8);
        match s_cdec_datasets(d, off + 8, cnt) {
            None => None,
            Some((slices, off2)) => match s_cdec_img16(d, off2) {
                None => None,
                Some((im, fin)) => Some((ScanModel { slices, image: im }, fin)),
            },
        }
    }
}

proof fn lemma_split_pairs(p: Seq<(Seq<char>, EltModel)>)
    requires
        p.len() > 0,
    ensures
        s_cenc_pairs(p) =~= (s_cenc_text(p[0].0) + s_cenc_elt(p[0].1)) + s_cenc_pairs(
            p.subrange(1, p.len() as int),
        ),
    decreases p.len(),
{
    if p.len() == 1 {
        assert(p.drop_last() =~= Seq::<(Seq<char>, EltModel)>::empty());
        assert(p.subrange(1, 1) =~= Seq::<(Seq<char>, EltModel)>::empty());
        assert(p.last() == p[0]);
    } else {
        let w = p.drop_last();
        lemma_split_pairs(w);
        assert(w[0] == p[0]);
        assert(p.subrange(1, p.len() as int).drop_last() =~= w.subrange(1, w.len() as int));
        assert(p.subrange(1, p.len() as int).last() == p.last());
    }
}

proof fn lemma_split_datasets(s: Seq<DatasetModel>)
    requires
        s.len() > 0,
    ensures
        s_cenc_datasets(s) =~= s_cenc_dataset(s[0]) + s_cenc_datasets(
            s.subrange(1, s.len() as int),
        ),
    decreases s.len(),
{
    if s.len() == 1 {
        assert(s.drop_last() =~= Seq::<DatasetModel>::empty());
        assert(s.subrange(1, 1) =~= Seq::<DatasetModel>::empty());
        assert(s.last() == s[0]);
    } else {
        let w = s.drop_last();
        lemma_split_datasets(w);
        assert(w[0] == s[0]);
        assert(s.subrange(1, s.len() as int).drop_last() =~= w.subrange(1, w.len() as int));
        assert(s.subrange(1, s.len() as int).last() == s.last());
    }
}

pub proof fn lemma_pairs_bounded_index(p: Seq<(Seq<char>, EltModel)>)
    ensures
        #[trigger] pairs_bounded(p) <==> (forall|i: int|
            0 <= i < p.len() ==> (#[trigger] p[i]).0.len() <= usize::MAX && elt_bounded(p[i].1)),
    decreases p,
{
    if p.len() > 0 {
        lemma_pairs_bounded_index(p.drop_last());
        if forall|i: int|
            0 <= i < p.len() ==> (#[trigger] p[i]).0.len() <= usize::MAX && elt_bounded(p[i].1) {
            assert(forall|i: int| 0 <= i < p.len() - 1 ==> #[trigger] p.drop_last()[i] == p[i]);
        }
        if pairs_bounded(p) {
            assert(forall|i: int| 0 <= i < p.len() - 1 ==> #[trigger] p[i] == p.drop_last()[i]);
        }
    }
}

pub proof fn lemma_datasets_bounded_index(s: Seq<DatasetModel>)
    ensures
        #[trigger] datasets_bounded(s) <==> (forall|i: int|
            0 <= i < s.len() ==> dataset_bounded(#[trigger] s[i])),
    decreases s,
{
    if s.len() > 0 {
        lemma_datasets_bounded_index(s.drop_last());
        if forall|i: int| 0 <= i < s.len() ==> dataset_bounded(#[trigger] s[i]) {
            assert(forall|i: int| 0 <= i < s.len() - 1 ==> #[trigger] s.drop_last()[i] == s[i]);
        }
        if datasets_bounded(s) {
            assert(forall|i: int| 0 <= i < s.len() - 1 ==> #[trigger] s[i] == s.drop_last()[i]);
        }
    }
}

/// Decoding inverts encoding for one element value.
#[verifier::rlimit(100)]
#[verifier::spinoff_prover]
pub proof fn lemma_crt_elt(e: EltModel, d: Seq<u8>, off: int)
    requires
        0 <= off,
        off + s_cenc_elt(e).len() <= d.len(),
        d.subrange(off, off + s_cenc_elt(e).len()) == s_cenc_elt(e),
        elt_wf(e),
        elt_bounded(e),
    ensures
        s_cdec_elt(d, off) == Some((e, off + s_cenc_elt(e).len())),
    decreases e, 0int,
{
    lemma_pow256_values();
    let el = s_cenc_elt(e).len() as int;
    match e {
        EltModel::Empty => {
            lemma_crt_tagpre(d, off, el, 13, Seq::empty());
        },
        EltModel::Text(t) => {
            lemma_crt_tagpre(d, off, el, 8, s_cenc_text(t));
            lemma_rt_text(t, d, off + 1);
        },
        EltModel::Image16(im) => {
            lemma_crt_tagpre(d, off, el, 11, s_cenc_img16(im));
            lemma_rt_img16(im, d, off + 1);
        },
        EltModel::Image8(im) => {
            lemma_crt_tagpre(d, off, el, 12, s_cenc_img8(im));
            lemma_rt_img8(im, d, off + 1);
        },
        EltModel::Int16s(v) => {
            lemma_crt_listpre(d, off, el, 1, enc_le(v.len(), 8), s_cenc_i16s(v));
            lemma_enc_le_len(v.len(), 8);
            lemma_cenc_i16s_len(v);
            lemma_rt_le(v.len(), 8, d, off + 1);
            lemma_rt_i16s(v, d, off + 9);
        },
        EltModel::UInt16s(v) => {
            lemma_crt_listpre(d, off, el, 2, enc_le(v.len(), 8), s_cenc_u16s(v));
            lemma_enc_le_len(v.len(), 8);
            lemma_cenc_u16s_len(v);
            lemma_rt_le(v.len(), 8, d, off + 1);
            lemma_rt_u16s(v, d, off + 9);
        },
        EltModel::Int32s(v) => {
            lemma_crt_listpre(d, off, el, 3, enc_le(v.len(), 8), s_cenc_i32s(v));
            lemma_enc_le_len(v.len(), 8);
            lemma_cenc_i32s_len(v);
            lemma_rt_le(v.len(), 8, d, off + 1);
            lemma_rt_i32s(v, d, off + 9);
        },
        EltModel::UInt32s(v) => {
            lemma_crt_listpre(d, off, el, 4, enc_le(v.len(), 8), s_cenc_u32s(v));
            lemma_enc_le_len(v.len(), 8);
            lemma_cenc_u32s_len(v);
            lemma_rt_le(v.len(), 8, d, off + 1);
            lemma_rt_u32s(v, d, off + 9);
        },
        EltModel::Decimals(v) => {
            lemma_crt_listpre(d, off, el, 5, enc_le(v.len(), 8), s_cenc_decs(v));
            lemma_enc_le_len(v.len(), 8);
            lemma_cenc_decs_len(v);
            lemma_rt_le(v.len(), 8, d, off + 1);
            lemma_rt_decs(v, d, off + 9);
        },
        EltModel::Float64Bits(v) => {
            lemma_crt_listpre(d, off, el, 6, enc_le(v.len(), 8), s_cenc_u64s(v));
            lemma_enc_le_len(v.len(), 8);
            lemma_cenc_u64s_len(v);
            lemma_rt_le(v.len(), 8, d, off + 1);
            lemma_rt_u64s(v, d, off + 9);
        },
        EltModel::Float32Bits(v) => {
            lemma_crt_listpre(d, off, el, 7, enc_le(v.len(), 8), s_cenc_u32s(v));
            lemma_enc_le_len(v.len(), 8);
            lemma_cenc_u32s_len(v);
            lemma_rt_le(v.len(), 8, d, off + 1);
            lemma_rt_u32s(v, d, off + 9);
        },
        EltModel::Bytes(v) => {
            lemma_crt_listpre(d, off, el, 9, enc_le(v.len(), 8), v);
            lemma_enc_le_len(v.len(), 8);
            lemma_rt_le(v.len(), 8, d, off + 1);
        },
        EltModel::Items(items) => {
            lemma_crt_listpre(d, off, el, 10, enc_le(items.len(), 8), s_cenc_datasets(items));
            lemma_enc_le_len(items.len(), 8);
            lemma_rt_le(items.len(), 8, d, off + 1);
            lemma_crt_datasets(items, d, off + 9);
        },
    }
}

/// The shape of a tagged payload: the tag stands at `off` and the payload
/// after it.
proof fn lemma_crt_tagpre(d: Seq<u8>, off: int, el: int, tag: u8, payload: Seq<u8>)
    requires
        0 <= off,
        off + el <= d.len(),
        el == 1 + payload.len(),
        d.subrange(off, off + el) == seq![tag] + payload,
    ensures
        d[off] == tag,
        d.subrange(off + 1, off + el) =~= payload,
{
    lemma_embed(d, off, seq![tag], payload);
    assert(d.subrange(off, off + 1)[0] == d[off]);
}

/// The common shape of a tagged, counted payload: the tag stands at `off`,
/// the count bytes after it, and the payload after those.
proof fn lemma_crt_listpre(d: Seq<u8>, off: int, el: int, tag: u8, cntenc: Seq<u8>, payload: Seq<u8>)
    requires
        0 <= off,
        off + el <= d.len(),
        el == 1 + cntenc.len() + payload.len(),
        d.subrange(off, off + el) == seq![tag] + cntenc + payload,
    ensures
        d[off] == tag,
        d.subrange(off + 1, off + 1 + cntenc.len()) =~= cntenc,
        d.subrange(off + 1 + cntenc.len(), off + el) =~= payload,
{
    assert(seq![tag] + cntenc + payload =~= seq![tag] + (cntenc + payload));
    lemma_embed(d, off, seq![tag], cntenc + payload);
    lemma_embed(d, off + 1, cntenc, payload);
    assert(d.subrange(off, off + 1)[0] == d[off]);
}

/// Decoding inverts encoding for a run of datasets.
pub proof fn lemma_crt_datasets(s: Seq<DatasetModel>, d: Seq<u8>, off: int)
    requires
        0 <= off,
        off + s_cenc_datasets(s).len() <= d.len(),
        d.subrange(off, off + s_cenc_datasets(s).len()) == s_cenc_datasets(s),
        datasets_wf(s),
        datasets_bounded(s),
    ensures
        s_cdec_datasets(d, off, s.len()) == Some((s, off + s_cenc_datasets(s).len())),
    decreases s, 1int,
{
    if s.len() > 0 {
        let tail = s.subrange(1, s.len() as int);
        lemma_split_datasets(s);
        lemma_datasets_wf_index(s);
        lemma_datasets_bounded_index(s);
        lemma_embed(d, off, s_cenc_dataset(s[0]), s_cenc_datasets(tail));
        lemma_crt_dataset(s[0], d, off);
        let off2 = off + s_cenc_dataset(s[0]).len();
        assert(datasets_wf(tail) && datasets_bounded(tail)) by {
            lemma_datasets_wf_index(tail);
            lemma_datasets_bounded_index(tail);
            assert(forall|i: int| 0 <= i < tail.len() ==> #[trigger] tail[i] == s[i + 1]);
        }
        lemma_crt_datasets(tail, d, off2);
        assert(s_cenc_dataset(s[0]).len() >= 8) by {
            lemma_enc_le_len(s[0].pairs.len(), 8);
        }
        assert(seq![s[0]] + tail =~= s);
    }
}

/// Decoding inverts encoding for one dataset.
pub proof fn lemma_crt_dataset(m: DatasetModel, d: Seq<u8>, off: int)
    requires
        0 <= off,
        off + s_cenc_dataset(m).len() <= d.len(),
        d.subrange(off, off + s_cenc_dataset(m).len()) == s_cenc_dataset(m),
        dataset_wf(m),
        dataset_bounded(m),
    ensures
        s_cdec_dataset(d, off) == Some((m, off + s_cenc_dataset(m).len())),
    decreases m, 2int,
{
    lemma_pow256_values();
    lemma_enc_le_len(m.pairs.len(), 8);
    lemma_embed(d, off, enc_le(m.pairs.len(), 8), s_cenc_pairs(m.pairs));
    lemma_rt_le(m.pairs.len(), 8, d, off);
    lemma_crt_pairs(m.pairs, d, off + 8);
}

/// Decoding inverts encoding for a run of keyword/value pairs.
pub proof fn lemma_crt_pairs(p: Seq<(Seq<char>, EltModel)>, d: Seq<u8>, off: int)
    requires
        0 <= off,
        off + s_cenc_pairs(p).len() <= d.len(),
        d.subrange(off, off + s_cenc_pairs(p).len()) == s_cenc_pairs(p),
        pairs_values_wf(p),
        pairs_bounded(p),
    ensures
        s_cdec_pairs(d, off, p.len()) == Some((p, off + s_cenc_pairs(p).len())),
    decreases p, 3int,
{
    lemma_pow256_values();
    if p.len() > 0 {
        let tail = p.subrange(1, p.len() as int);
        lemma_split_pairs(p);
        lemma_pairs_values_wf_index(p);
        lemma_pairs_bounded_index(p);
        assert(s_cenc_pairs(p) =~= s_cenc_text(p[0].0) + (s_cenc_elt(p[0].1) + s_cenc_pairs(
            tail,
        )));
        lemma_embed(d, off, s_cenc_text(p[0].0), s_cenc_elt(p[0].1) + s_cenc_pairs(tail));
        let offt = off + s_cenc_text(p[0].0).len();
        lemma_embed(d, offt, s_cenc_elt(p[0].1), s_cenc_pairs(tail));
        assert(d.subrange(off, off + s_cenc_text(p[0].0).len()) == s_cenc_text(p[0].0));
        lemma_rt_text(p[0].0, d, off);
        lemma_crt_elt(p[0].1, d, offt);
        let offe = offt + s_cenc_elt(p[0].1).len();
        assert(pairs_values_wf(tail) && pairs_bounded(tail)) by {
            lemma_pairs_values_wf_index(tail);
            lemma_pairs_bounded_index(tail);
            assert(forall|i: int| 0 <= i < tail.len() ==> #[trigger] tail[i] == p[i + 1]);
        }
        lemma_crt_pairs(tail, d, offe);
        assert(s_cenc_elt(p[0].1).len() >= 1);
        assert(seq![(p[0].0, p[0].1)] + tail =~= p);
        assert((p[0].0, p[0].1) == p[0]);
    }
}

/// The round-trip law for one dataset: decoding its encoding yields it
/// back, consuming exactly the encoding.
pub proof fn lemma_roundtrip_dataset(m: DatasetModel)
    requires
        dataset_wf(m),
        dataset_bounded(m),
    ensures
        s_cdec_dataset(s_cenc_dataset(m), 0) == Some((m, s_cenc_dataset(m).len() as int)),
{
    let d = s_cenc_dataset(m);
    assert(d.subrange(0, d.len() as int) =~= d);
    lemma_crt_dataset(m, d, 0);
}

/// The round-trip law for one scan: decoding its encoding yields it back,
/// consuming exactly the encoding.
pub proof fn lemma_roundtrip_scan(s: ScanModel)
    requires
        datasets_wf(s.slices),
        datasets_bounded(s.slices),
        s.slices.len() <= usize::MAX,
        img16_bounded(s.image),
    ensures
        s_cdec_scan(s_cenc_scan(s), 0) == Some((s, s_cenc_scan(s).len() as int)),
{
    lemma_pow256_values();
    let d = s_cenc_scan(s);
    assert(d.subrange(0, d.len() as int) =~= d);
    lemma_enc_le_len(s.slices.len(), 8);
    assert(d =~= enc_le(s.slices.len(), 8) + (s_cenc_datasets(s.slices) + s_cenc_img16(s.image)));
    lemma_embed(d, 0, enc_le(s.slices.len(), 8), s_cenc_datasets(s.slices) + s_cenc_img16(
        s.image,
    ));
    lemma_embed(d, 8, s_cenc_datasets(s.slices), s_cenc_img16(s.image));
    lemma_rt_le(s.slices.len(), 8, d, 0);
    lemma_crt_datasets(s.slices, d, 8);
    lemma_rt_img16(s.image, d, 8 + s_cenc_datasets(s.slices).len() as int);
}

/// Relies on `char::from_u32`: `Some` exactly on Unicode scalar values,
/// and then the character with that value.
#[verifier::external_body]
fn char_from_u32(v: u32) -> (r: Option<char>)
    ensures
        r is Some <==> s_valid_scalar(v),
        match r {
            Some(c) => c == v as char && c as u32 == v,
            None => true,
        },
{
    char::from_u32(v)
}

/// Appends the `n` little-endian bytes of `v` to `buf`.
#[verifier::loop_isolation(false)]
fn cenc_le(buf: &mut Vec<u8>, v: u64, n: usize)
    ensures
        final(buf)@ == old(buf)@ + enc_le(v as nat, n as nat),
{
    let ghost buf0 = buf@;
    let mut cur = v;
    let mut k: usize = 0;
    proof {
        assert(buf@ =~= buf0 + Seq::<u8>::empty());
    }
    while k < n
        invariant
            k <= n,
            enc_le(v as nat, n as nat) == (buf@.subrange(buf0.len() as int, buf@.len() as int))
                + enc_le(cur as nat, (n - k) as nat),
            buf@.len() == buf0.len() + k,
            buf@.subrange(0, buf0.len() as int) == buf0,
        decreases n - k,
    {
        let ghost pre = buf@.subrange(buf0.len() as int, buf@.len() as int);
        buf.push((cur % 256) as u8);
        proof {
            assert(buf@.subrange(buf0.len() as int, buf@.len() as int) =~= pre + seq![
                ((cur as nat) % 256) as u8,
            ]);
            assert(enc_le(cur as nat, (n - k) as nat) == seq![((cur as nat) % 256) as u8]
                + enc_le((cur as nat) / 256, (n - k - 1) as nat));
            assert(pre + (seq![((cur as nat) % 256) as u8] + enc_le(
                (cur as nat) / 256,
                (n - k - 1) as nat,
            )) =~= (pre + seq![((cur as nat) % 256) as u8]) + enc_le(
                (cur as nat) / 256,
                (n - k - 1) as nat,
            ));
            assert(buf@.subrange(0, buf0.len() as int) =~= buf0);
        }
        cur = cur / 256;
        k = k + 1;
    }
    proof {
        assert(buf@ =~= buf0 + buf@.subrange(buf0.len() as int, buf@.len() as int));
        assert(buf@.subrange(buf0.len() as int, buf@.len() as int) + Seq::<u8>::empty()
            =~= buf@.subrange(buf0.len() as int, buf@.len() as int));
    }
}

/// The `n` little-endian bytes of `d` at `off` as a number.
#[verifier::loop_isolation(false)]
fn cdec_le(d: &[u8], off: usize, n: usize) -> (r: Option<(u64, usize)>)
    requires
        n <= 8,
    ensures
        match r {
            Some(t) => off + n <= d@.len() && t.0 == dec_le_n(d@, off as int, n as nat) && t.1
                == off + n,
            None => off + n > d@.len(),
        },
{
    let dn = d.len();
    if n > dn || off > dn - n {
        return None;
    }
    let mut acc: u64 = 0;
    let mut i = n;
    proof {
        lemma_pow256_values();
        lemma_dec_le_n_bound(d@, off + n, 0);
    }
    while i > 0
        invariant
            i <= n,
            off + n <= d@.len(),
            n <= 8,
            acc == dec_le_n(d@, off + i, (n - i) as nat),
            acc < pow256((n - i) as nat),
        decreases i,
    {
        proof {
            lemma_pow256_values();
            lemma_dec_le_n_bound(d@, off + i - 1, (n - i + 1) as nat);
            assert(pow256((n - i + 1) as nat) == 256 * pow256((n - i) as nat));
            assert(pow256((n - i + 1) as nat) <= pow256(8)) by {
                lemma_pow256_mono((n - i + 1) as nat, 8);
            }
        }
        acc = d[off + i - 1] as u64 + 256 * acc;
        i = i - 1;
    }
    Some((acc, off + n))
}

proof fn lemma_pow256_mono(a: nat, b: nat)
    ensures
        a <= b ==> pow256(a) <= pow256(b),
        pow256(a) >= 1,
    decreases a + b,
{
    if a > 0 && b == 0 {
        lemma_pow256_mono((a - 1) as nat, 0);
    }
    if b > 0 {
        lemma_pow256_mono(a, (b - 1) as nat);
        if a <= b - 1 {
            assert(pow256(b) == 256 * pow256((b - 1) as nat));
        }
    }
}

/// Appends the encoding of the run to `buf`.
#[verifier::loop_isolation(false)]
fn cenc_u16s(buf: &mut Vec<u8>, v: &Vec<u16>)
    ensures
        final(buf)@ == old(buf)@ + s_cenc_u16s(v@),
{
    let ghost buf0 = buf@;
    let n = v.len();
    let mut i: usize = 0;
    proof {
        assert(buf@ =~= buf0 + s_cenc_u16s(v@.take(0)));
    }
    while i < n
        invariant
            i <= n,
            n == v@.len(),
            buf@ == buf0 + s_cenc_u16s(v@.take(i as int)),
        decreases n - i,
    {
        let ghost pre = buf@;
        cenc_le(buf, v[i] as u64, 2);
        i = i + 1;
        proof {
            assert(v@.take(i as int).drop_last() =~= v@.take(i as int - 1));
            assert(v@.take(i as int).last() == v@[i as int - 1]);
            assert(buf@ =~= buf0 + s_cenc_u16s(v@.take(i as int)));
        }
    }
    proof {
        assert(v@.take(n as int) =~= v@);
    }
}

/// Appends the encoding of the run to `buf`.
#[verifier::loop_isolation(false)]
fn cenc_i16s(buf: &mut Vec<u8>, v: &Vec<i16>)
    ensures
        final(buf)@ == old(buf)@ + s_cenc_i16s(v@),
{
    let ghost buf0 = buf@;
    let n = v.len();
    let mut i: usize = 0;
    proof {
        assert(buf@ =~= buf0 + s_cenc_i16s(v@.take(0)));
    }
    while i < n
        invariant
            i <= n,
            n == v@.len(),
            buf@ == buf0 + s_cenc_i16s(v@.take(i as int)),
        decreases n - i,
    {
        let ghost pre = buf@;
        cenc_le(buf, (v[i] as u16) as u64, 2);
        i = i + 1;
        proof {
            assert(v@.take(i as int).drop_last() =~= v@.take(i as int - 1));
            assert(v@.take(i as int).last() == v@[i as int - 1]);
            assert(buf@ =~= buf0 + s_cenc_i16s(v@.take(i as int)));
        }
    }
    proof {
        assert(v@.take(n as int) =~= v@);
    }
}

/// Appends the encoding of the run to `buf`.
#[verifier::loop_isolation(false)]
fn cenc_u32s(buf: &mut Vec<u8>, v: &Vec<u32>)
    ensures
        final(buf)@ == old(buf)@ + s_cenc_u32s(v@),
{
    let ghost buf0 = buf@;
    let n = v.len();
    let mut i: usize = 0;
    proof {
        assert(buf@ =~= buf0 + s_cenc_u32s(v@.take(0)));
    }
    while i < n
        invariant
            i <= n,
            n == v@.len(),
            buf@ == buf0 + s_cenc_u32s(v@.take(i as int)),
        decreases n - i,
    {
        let ghost pre = buf@;
        cenc_le(buf, v[i] as u64, 4);
        i = i + 1;
        proof {
            assert(v@.take(i as int).drop_last() =~= v@.take(i as int - 1));
            assert(v@.take(i as int).last() == v@[i as int - 1]);
            assert(buf@ =~= buf0 + s_cenc_u32s(v@.take(i as int)));
        }
    }
    proof {
        assert(v@.take(n as int) =~= v@);
    }
}

/// Appends the encoding of the run to `buf`.
#[verifier::loop_isolation(false)]
fn cenc_i32s(buf: &mut Vec<u8>, v: &Vec<i32>)
    ensures
        final(buf)@ == old(buf)@ + s_cenc_i32s(v@),
{
    let ghost buf0 = buf@;
    let n = v.len();
    let mut i: usize = 0;
    proof {
        assert(buf@ =~= buf0 + s_cenc_i32s(v@.take(0)));
    }
    while i < n
        invariant
            i <= n,
            n == v@.len(),
            buf@ == buf0 + s_cenc_i32s(v@.take(i as int)),
        decreases n - i,
    {
        let ghost pre = buf@;
        cenc_le(buf, (v[i] as u32) as u64, 4);
        i = i + 1;
        proof {
            assert(v@.take(i as int).drop_last() =~= v@.take(i as int - 1));
            assert(v@.take(i as int).last() == v@[i as int - 1]);
            assert(buf@ =~= buf0 + s_cenc_i32s(v@.take(i as int)));
        }
    }
    proof {
        assert(v@.take(n as int) =~= v@);
    }
}

/// Appends the encoding of the run to `buf`.
#[verifier::loop_isolation(false)]
fn cenc_u64s(buf: &mut Vec<u8>, v: &Vec<u64>)
    ensures
        final(buf)@ == old(buf)@ + s_cenc_u64s(v@),
{
    let ghost buf0 = buf@;
    let n = v.len();
    let mut i: usize = 0;
    proof {
        assert(buf@ =~= buf0 + s_cenc_u64s(v@.take(0)));
    }
    while i < n
        invariant
            i <= n,
            n == v@.len(),
            buf@ == buf0 + s_cenc_u64s(v@.take(i as int)),
        decreases n - i,
    {
        let ghost pre = buf@;
        cenc_le(buf, v[i], 8);
        i = i + 1;
        proof {
            assert(v@.take(i as int).drop_last() =~= v@.take(i as int - 1));
            assert(v@.take(i as int).last() == v@[i as int - 1]);
            assert(buf@ =~= buf0 + s_cenc_u64s(v@.take(i as int)));
        }
    }
    proof {
        assert(v@.take(n as int) =~= v@);
    }
}

/// Appends the encoding of one decimal to `buf`.
fn cenc_dec(buf: &mut Vec<u8>, x: &Dec)
    ensures
        final(buf)@ == old(buf)@ + s_cenc_dec(*x),
{
    let ghost buf0 = buf@;
    if x.neg {
        buf.push(1);
    } else {
        buf.push(0);
    }
    cenc_le(buf, x.mant, 8);
    cenc_le(buf, x.scale as u64, 1);
    proof {
        assert(buf@ =~= buf0 + s_cenc_dec(*x));
    }
}

/// Appends the encoding of the run of decimals to `buf`.
#[verifier::loop_isolation(false)]
fn cenc_decs(buf: &mut Vec<u8>, v: &Vec<Dec>)
    ensures
        final(buf)@ == old(buf)@ + s_cenc_decs(v@),
{
    let ghost buf0 = buf@;
    let n = v.len();
    let mut i: usize = 0;
    proof {
        assert(buf@ =~= buf0 + s_cenc_decs(v@.take(0)));
    }
    while i < n
        invariant
            i <= n,
            n == v@.len(),
            buf@ == buf0 + s_cenc_decs(v@.take(i as int)),
        decreases n - i,
    {
        cenc_dec(buf, &v[i]);
        i = i + 1;
        proof {
            assert(v@.take(i as int).drop_last() =~= v@.take(i as int - 1));
            assert(v@.take(i as int).last() == v@[i as int - 1]);
            assert(buf@ =~= buf0 + s_cenc_decs(v@.take(i as int)));
        }
    }
    proof {
        assert(v@.take(n as int) =~= v@);
    }
}

/// Appends the encoding of the text to `buf`.
#[verifier::loop_isolation(false)]
fn cenc_text(buf: &mut Vec<u8>, s: &String)
    ensures
        final(buf)@ == old(buf)@ + s_cenc_text(s@),
        s@.len() <= usize::MAX,
{
    let ghost buf0 = buf@;
    let sl = s.as_str();
    let n = sl.unicode_len();
    cenc_le(buf, n as u64, 8);
    let ghost buf1 = buf@;
    let mut i: usize = 0;
    proof {
        assert(buf@ =~= buf1 + s_cenc_chars(s@.take(0)));
    }
    while i < n
        invariant
            i <= n,
            n == s@.len(),
            sl@ == s@,
            buf@ == buf1 + s_cenc_chars(s@.take(i as int)),
        decreases n - i,
    {
        let c = sl.get_char(i);
        cenc_le(buf, (c as u32) as u64, 4);
        i = i + 1;
        proof {
            assert(s@.take(i as int).drop_last() =~= s@.take(i as int - 1));
            assert(s@.take(i as int).last() == s@[i as int - 1]);
            assert(buf@ =~= buf1 + s_cenc_chars(s@.take(i as int)));
        }
    }
    proof {
        assert(s@.take(n as int) =~= s@);
        assert(buf@ =~= buf0 + s_cenc_text(s@));
    }
}

/// Appends the raw bytes to `buf`.
fn cenc_bytes(buf: &mut Vec<u8>, v: &Vec<u8>)
    ensures
        final(buf)@ == old(buf)@ + v@,
{
    let ghost buf0 = buf@;
    let mut part = vstd::slice::slice_to_vec(v.as_slice());
    buf.append(&mut part);
    proof {
        assert(buf@ =~= buf0 + v@);
    }
}

/// Appends the encoding of a 16-bit pixel array to `buf`.
fn cenc_img16(buf: &mut Vec<u8>, im: &DcmImg16)
    ensures
        final(buf)@ == old(buf)@ + s_cenc_img16(img16_view(*im)),
        img16_bounded(img16_view(*im)),
{
    let ghost buf0 = buf@;
    cenc_le(buf, im.xr as u64, 8);
    cenc_le(buf, im.yr as u64, 8);
    cenc_le(buf, im.zr as u64, 8);
    let n = im.data.len();
    cenc_le(buf, n as u64, 8);
    cenc_i16s(buf, &im.data);
    proof {
        assert(buf@ =~= buf0 + s_cenc_img16(img16_view(*im)));
    }
}

/// Appends the encoding of an 8-bit pixel array to `buf`.
fn cenc_img8(buf: &mut Vec<u8>, im: &DcmImg8)
    ensures
        final(buf)@ == old(buf)@ + s_cenc_img8(img8_view(*im)),
        img8_bounded(img8_view(*im)),
{
    let ghost buf0 = buf@;
    cenc_le(buf, im.xr as u64, 8);
    cenc_le(buf, im.yr as u64, 8);
    cenc_le(buf, im.zr as u64, 8);
    let n = im.data.len();
    cenc_le(buf, n as u64, 8);
    cenc_bytes(buf, &im.data);
    proof {
        assert(buf@ =~= buf0 + s_cenc_img8(img8_view(*im)));
    }
}

/// Appends the encoding of an element value to `buf`.
#[verifier::loop_isolation(false)]
#[verifier::rlimit(100)]
pub fn cenc_elt(buf: &mut Vec<u8>, e: &DicomElt)
    ensures
        final(buf)@ == old(buf)@ + s_cenc_elt(elt_view(*e)),
        elt_bounded(elt_view(*e)),
    decreases *e, 0int,
{
    let ghost buf0 = buf@;
    match e {
        DicomElt::Int16s(v) => {
            buf.push(1);
            cenc_le(buf, v.len() as u64, 8);
            cenc_i16s(buf, v);
            proof {
                assert(buf@ =~= buf0 + s_cenc_elt(elt_view(*e)));
            }
        },
        DicomElt::UInt16s(v) => {
            buf.push(2);
            cenc_le(buf, v.len() as u64, 8);
            cenc_u16s(buf, v);
            proof {
                assert(buf@ =~= buf0 + s_cenc_elt(elt_view(*e)));
            }
        },
        DicomElt::Int32s(v) => {
            buf.push(3);
            cenc_le(buf, v.len() as u64, 8);
            cenc_i32s(buf, v);
            proof {
                assert(buf@ =~= buf0 + s_cenc_elt(elt_view(*e)));
            }
        },
        DicomElt::UInt32s(v) => {
            buf.push(4);
            cenc_le(buf, v.len() as u64, 8);
            cenc_u32s(buf, v);
            proof {
                assert(buf@ =~= buf0 + s_cenc_elt(elt_view(*e)));
            }
        },
        DicomElt::Decimals(v) => {
            buf.push(5);
            cenc_le(buf, v.len() as u64, 8);
            cenc_decs(buf, v);
            proof {
                assert(buf@ =~= buf0 + s_cenc_elt(elt_view(*e)));
            }
        },
        DicomElt::Float64Bits(v) => {
            buf.push(6);
            cenc_le(buf, v.len() as u64, 8);
            cenc_u64s(buf, v);
            proof {
                assert(buf@ =~= buf0 + s_cenc_elt(elt_view(*e)));
            }
        },
        DicomElt::Float32Bits(v) => {
            buf.push(7);
            cenc_le(buf, v.len() as u64, 8);
            cenc_u32s(buf, v);
            proof {
                assert(buf@ =~= buf0 + s_cenc_elt(elt_view(*e)));
            }
        },
        DicomElt::Text(s) => {
            buf.push(8);
            cenc_text(buf, s);
            proof {
                assert(buf@ =~= buf0 + s_cenc_elt(elt_view(*e)));
            }
        },
        DicomElt::Bytes(v) => {
            buf.push(9);
            cenc_le(buf, v.len() as u64, 8);
            cenc_bytes(buf, v);
            proof {
                assert(buf@ =~= buf0 + s_cenc_elt(elt_view(*e)));
            }
        },
        DicomElt::Items(items) => {
            buf.push(10);
            let n = items.len();
            cenc_le(buf, n as u64, 8);
            let ghost buf1 = buf@;
            let mut i: usize = 0;
            proof {
                lemma_slices_view_index(items@);
                assert(buf@ =~= buf1 + s_cenc_datasets(slices_view(items@).take(0)));
            }
            while i < n
                invariant
                    i <= n,
                    n == items@.len(),
                    slices_view(items@).len() == n,
                    forall|j: int|
                        0 <= j < n ==> slices_view(items@)[j] == slice_view(items@[j]),
                    buf@ == buf1 + s_cenc_datasets(slices_view(items@).take(i as int)),
                    datasets_bounded(slices_view(items@).take(i as int)),
                decreases n - i,
            {
                proof {
                    broadcast use vstd::std_specs::vec::axiom_vec_index_decreases;

                    assert(*e == DicomElt::Items(*items));
                    assert(decreases_to!(DicomElt::Items(*items) => *items));
                    assert(decreases_to!(*items => items@[i as int]));
                }
                cenc_slice_into(buf, &items[i]);
                i = i + 1;
                proof {
                    assert(slices_view(items@).take(i as int).drop_last() =~= slices_view(
                        items@,
                    ).take(i as int - 1));
                    assert(slices_view(items@).take(i as int).last() == slices_view(
                        items@,
                    )[i as int - 1]);
                    assert(buf@ =~= buf1 + s_cenc_datasets(slices_view(items@).take(i as int)));
                }
            }
            proof {
                assert(slices_view(items@).take(n as int) =~= slices_view(items@));
                assert(buf@ =~= buf0 + s_cenc_elt(elt_view(*e)));
            }
        },
        DicomElt::Image16(im) => {
            buf.push(11);
            cenc_img16(buf, im);
            proof {
                assert(buf@ =~= buf0 + s_cenc_elt(elt_view(*e)));
            }
        },
        DicomElt::Image8(im) => {
            buf.push(12);
            cenc_img8(buf, im);
            proof {
                assert(buf@ =~= buf0 + s_cenc_elt(elt_view(*e)));
            }
        },
        DicomElt::Empty => {
            buf.push(13);
            proof {
                assert(buf@ =~= buf0 + s_cenc_elt(elt_view(*e)));
            }
        },
    }
}

/// Appends the encoding of one dataset to `buf`.
#[verifier::loop_isolation(false)]
pub fn cenc_slice_into(buf: &mut Vec<u8>, s: &DicomSlice)
    ensures
        final(buf)@ == old(buf)@ + s_cenc_dataset(slice_view(*s)),
        dataset_bounded(slice_view(*s)),
    decreases *s, 1int,
{
    let ghost buf0 = buf@;
    let n = s.keydict.len();
    cenc_le(buf, n as u64, 8);
    let ghost buf1 = buf@;
    let mut i: usize = 0;
    proof {
        lemma_pairs_view_index(s.keydict@);
        assert(buf@ =~= buf1 + s_cenc_pairs(pairs_view(s.keydict@).take(0)));
    }
    while i < n
        invariant
            i <= n,
            n == s.keydict@.len(),
            pairs_view(s.keydict@).len() == n,
            forall|j: int|
                0 <= j < n ==> pairs_view(s.keydict@)[j] == (
                    s.keydict@[j].0@,
                    elt_view(s.keydict@[j].1),
                ),
            buf@ == buf1 + s_cenc_pairs(pairs_view(s.keydict@).take(i as int)),
            pairs_bounded(pairs_view(s.keydict@).take(i as int)),
        decreases n - i,
    {
        proof {
            broadcast use vstd::std_specs::vec::axiom_vec_index_decreases;

            assert(decreases_to!(*s => s.keydict));
            assert(decreases_to!(s.keydict => s.keydict@[i as int]));
            assert(decreases_to!(s.keydict@[i as int] => s.keydict@[i as int].1));
        }
        cenc_text(buf, &s.keydict[i].0);
        cenc_elt(buf, &s.keydict[i].1);
        i = i + 1;
        proof {
            assert(pairs_view(s.keydict@).take(i as int).drop_last() =~= pairs_view(
                s.keydict@,
            ).take(i as int - 1));
            assert(pairs_view(s.keydict@).take(i as int).last() == pairs_view(
                s.keydict@,
            )[i as int - 1]);
            assert(buf@ =~= buf1 + s_cenc_pairs(pairs_view(s.keydict@).take(i as int)));
        }
    }
    proof {
        assert(pairs_view(s.keydict@).take(n as int) =~= pairs_view(s.keydict@));
        assert(buf@ =~= buf0 + s_cenc_dataset(slice_view(*s)));
    }
}

/// The run of u16s values at `off`, mirroring the specification decoder.
#[verifier::loop_isolation(false)]
fn cdec_u16s(d: &[u8], off: usize, cnt: u64) -> (r: Option<(Vec<u16>, usize)>)
    requires
        off <= d@.len(),
    ensures
        match r {
            Some(t) => s_cdec_u16s(d@, off as int, cnt as nat) == Some((t.0@, t.1 as int))
                && off <= t.1 <= d@.len(),
            None => s_cdec_u16s(d@, off as int, cnt as nat) is None,
        },
{
    let dn = d.len();
    let mut out: Vec<u16> = Vec::new();
    let mut cur = off;
    let mut k: u64 = 0;
    proof {
        lemma_pow256_values();
    }
    while k < cnt
        invariant
            k <= cnt,
            off <= cur <= dn,
            dn == d@.len(),
            s_cdec_u16s(d@, off as int, cnt as nat) == (match s_cdec_u16s(
                d@,
                cur as int,
                (cnt - k) as nat,
            ) {
                None => None::<(Seq<u16>, int)>,
                Some((rr, fin)) => Some((out@ + rr, fin)),
            }),
        decreases cnt - k,
    {
        let ghost out_old = out@;
        match cdec_le(d, cur, 2) {
            None => {
                return None;
            },
            Some((w, nx)) => {
                out.push(w as u16);
                cur = nx;
            },
        }
        k = k + 1;
        proof {
            match s_cdec_u16s(d@, cur as int, (cnt - k) as nat) {
                None => {},
                Some((rr, fin)) => {
                    assert(out_old + (seq![out@.last()] + rr) =~= out@ + rr);
                },
            }
        }
    }
    proof {
        assert(out@ + Seq::<u16>::empty() =~= out@);
    }
    Some((out, cur))
}

/// The run of u32s values at `off`, mirroring the specification decoder.
#[verifier::loop_isolation(false)]
fn cdec_u32s(d: &[u8], off: usize, cnt: u64) -> (r: Option<(Vec<u32>, usize)>)
    requires
        off <= d@.len(),
    ensures
        match r {
            Some(t) => s_cdec_u32s(d@, off as int, cnt as nat) == Some((t.0@, t.1 as int))
                && off <= t.1 <= d@.len(),
            None => s_cdec_u32s(d@, off as int, cnt as nat) is None,
        },
{
    let dn = d.len();
    let mut out: Vec<u32> = Vec::new();
    let mut cur = off;
    let mut k: u64 = 0;
    proof {
        lemma_pow256_values();
    }
    while k < cnt
        invariant
            k <= cnt,
            off <= cur <= dn,
            dn == d@.len(),
            s_cdec_u32s(d@, off as int, cnt as nat) == (match s_cdec_u32s(
                d@,
                cur as int,
                (cnt - k) as nat,
            ) {
                None => None::<(Seq<u32>, int)>,
                Some((rr, fin)) => Some((out@ + rr, fin)),
            }),
        decreases cnt - k,
    {
        let ghost out_old = out@;
        match cdec_le(d, cur, 4) {
            None => {
                return None;
            },
            Some((w, nx)) => {
                out.push(w as u32);
                cur = nx;
            },
        }
        k = k + 1;
        proof {
            match s_cdec_u32s(d@, cur as int, (cnt - k) as nat) {
                None => {},
                Some((rr, fin)) => {
                    assert(out_old + (seq![out@.last()] + rr) =~= out@ + rr);
                },
            }
        }
    }
    proof {
        assert(out@ + Seq::<u32>::empty() =~= out@);
    }
    Some((out, cur))
}

/// The run of u64s values at `off`, mirroring the specification decoder.
#[verifier::loop_isolation(false)]
fn cdec_u64s(d: &[u8], off: usize, cnt: u64) -> (r: Option<(Vec<u64>, usize)>)
    requires
        off <= d@.len(),
    ensures
        match r {
            Some(t) => s_cdec_u64s(d@, off as int, cnt as nat) == Some((t.0@, t.1 as int))
                && off <= t.1 <= d@.len(),
            None => s_cdec_u64s(d@, off as int, cnt as nat) is None,
        },
{
    let dn = d.len();
    let mut out: Vec<u64> = Vec::new();
    let mut cur = off;
    let mut k: u64 = 0;
    proof {
        lemma_pow256_values();
    }
    while k < cnt
        invariant
            k <= cnt,
            off <= cur <= dn,
            dn == d@.len(),
            s_cdec_u64s(d@, off as int, cnt as nat) == (match s_cdec_u64s(
                d@,
                cur as int,
                (cnt - k) as nat,
            ) {
                None => None::<(Seq<u64>, int)>,
                Some((rr, fin)) => Some((out@ + rr, fin)),
            }),
        decreases cnt - k,
    {
        let ghost out_old = out@;
        match cdec_le(d, cur, 8) {
            None => {
                return None;
            },
            Some((w, nx)) => {
                out.push(w);
                cur = nx;
            },
        }
        k = k + 1;
        proof {
            match s_cdec_u64s(d@, cur as int, (cnt - k) as nat) {
                None => {},
                Some((rr, fin)) => {
                    assert(out_old + (seq![out@.last()] + rr) =~= out@ + rr);
                },
            }
        }
    }
    proof {
        assert(out@ + Seq::<u64>::empty() =~= out@);
    }
    Some((out, cur))
}

/// The run of i16s values at `off`, mirroring the specification decoder.
#[verifier::loop_isolation(false)]
fn cdec_i16s(d: &[u8], off: usize, cnt: u64) -> (r: Option<(Vec<i16>, usize)>)
    requires
        off <= d@.len(),
    ensures
        match r {
            Some(t) => s_cdec_i16s(d@, off as int, cnt as nat) == Some((t.0@, t.1 as int))
                && off <= t.1 <= d@.len(),
            None => s_cdec_i16s(d@, off as int, cnt as nat) is None,
        },
{
    let dn = d.len();
    let mut out: Vec<i16> = Vec::new();
    let mut cur = off;
    let mut k: u64 = 0;
    proof {
        lemma_pow256_values();
    }
    while k < cnt
        invariant
            k <= cnt,
            off <= cur <= dn,
            dn == d@.len(),
            s_cdec_i16s(d@, off as int, cnt as nat) == (match s_cdec_i16s(
                d@,
                cur as int,
                (cnt - k) as nat,
            ) {
                None => None::<(Seq<i16>, int)>,
                Some((rr, fin)) => Some((out@ + rr, fin)),
            }),
        decreases cnt - k,
    {
        let ghost out_old = out@;
        match cdec_le(d, cur, 2) {
            None => {
                return None;
            },
            Some((w, nx)) => {
                let wu = w as u16;
                proof {
                    crate::bytes::lemma_cast_u16_i16(wu);
                }
                out.push(wu as i16);
                cur = nx;
            },
        }
        k = k + 1;
        proof {
            match s_cdec_i16s(d@, cur as int, (cnt - k) as nat) {
                None => {},
                Some((rr, fin)) => {
                    assert(out_old + (seq![out@.last()] + rr) =~= out@ + rr);
                },
            }
        }
    }
    proof {
        assert(out@ + Seq::<i16>::empty() =~= out@);
    }
    Some((out, cur))
}

/// The run of i32s values at `off`, mirroring the specification decoder.
#[verifier::loop_isolation(false)]
fn cdec_i32s(d: &[u8], off: usize, cnt: u64) -> (r: Option<(Vec<i32>, usize)>)
    requires
        off <= d@.len(),
    ensures
        match r {
            Some(t) => s_cdec_i32s(d@, off as int, cnt as nat) == Some((t.0@, t.1 as int))
                && off <= t.1 <= d@.len(),
            None => s_cdec_i32s(d@, off as int, cnt as nat) is None,
        },
{
    let dn = d.len();
    let mut out: Vec<i32> = Vec::new();
    let mut cur = off;
    let mut k: u64 = 0;
    proof {
        lemma_pow256_values();
    }
    while k < cnt
        invariant
            k <= cnt,
            off <= cur <= dn,
            dn == d@.len(),
            s_cdec_i32s(d@, off as int, cnt as nat) == (match s_cdec_i32s(
                d@,
                cur as int,
                (cnt - k) as nat,
            ) {
                None => None::<(Seq<i32>, int)>,
                Some((rr, fin)) => Some((out@ + rr, fin)),
            }),
        decreases cnt - k,
    {
        let ghost out_old = out@;
        match cdec_le(d, cur, 4) {
            None => {
                return None;
            },
            Some((w, nx)) => {
                let wu = w as u32;
                proof {
                    crate::bytes::lemma_cast_u32_i32(wu);
                }
                out.push(wu as i32);
                cur = nx;
            },
        }
        k = k + 1;
        proof {
            match s_cdec_i32s(d@, cur as int, (cnt - k) as nat) {
                None => {},
                Some((rr, fin)) => {
                    assert(out_old + (seq![out@.last()] + rr) =~= out@ + rr);
                },
            }
        }
    }
    proof {
        assert(out@ + Seq::<i32>::empty() =~= out@);
    }
    Some((out, cur))
}

/// The decimal at `off`, mirroring the specification decoder.
fn cdec_dec(d: &[u8], off: usize) -> (r: Option<(Dec, usize)>)
    ensures
        match r {
            Some(t) => s_cdec_dec(d@, off as int) == Some((t.0, t.1 as int)) && dec_wf(t.0) && off
                < t.1 <= d@.len(),
            None => s_cdec_dec(d@, off as int) is None,
        },
{
    let dn = d.len();
    if dn < 10 || off > dn - 10 {
        return None;
    }
    let sgn = d[off];
    if sgn != 0 && sgn != 1 {
        return None;
    }
    proof {
        lemma_pow256_values();
        crate::decimal::lemma_pow10_19_value();
    }
    let mant = match cdec_le(d, off + 1, 8) {
        Some((m, _)) => m,
        None => {
            return None;
        },
    };
    let scale = match cdec_le(d, off + 9, 1) {
        Some((s, _)) => s,
        None => {
            return None;
        },
    };
    if scale <= 18 && mant < 10000000000000000000u64 {
        Some((Dec { neg: sgn == 1, mant, scale: scale as u8 }, off + 10))
    } else {
        None
    }
}

/// The run of decimals at `off`, mirroring the specification decoder.
#[verifier::loop_isolation(false)]
fn cdec_decs(d: &[u8], off: usize, cnt: u64) -> (r: Option<(Vec<Dec>, usize)>)
    requires
        off <= d@.len(),
    ensures
        match r {
            Some(t) => s_cdec_decs(d@, off as int, cnt as nat) == Some((t.0@, t.1 as int)) && off
                <= t.1 <= d@.len() && (forall|i: int|
                0 <= i < t.0@.len() ==> dec_wf(#[trigger] t.0@[i])),
            None => s_cdec_decs(d@, off as int, cnt as nat) is None,
        },
{
    let dn = d.len();
    let mut out: Vec<Dec> = Vec::new();
    let mut cur = off;
    let mut k: u64 = 0;
    while k < cnt
        invariant
            k <= cnt,
            off <= cur <= dn,
            dn == d@.len(),
            forall|i: int| 0 <= i < out@.len() ==> dec_wf(#[trigger] out@[i]),
            s_cdec_decs(d@, off as int, cnt as nat) == (match s_cdec_decs(
                d@,
                cur as int,
                (cnt - k) as nat,
            ) {
                None => None::<(Seq<Dec>, int)>,
                Some((rr, fin)) => Some((out@ + rr, fin)),
            }),
        decreases cnt - k,
    {
        let ghost out_old = out@;
        match cdec_dec(d, cur) {
            None => {
                return None;
            },
            Some((x, nx)) => {
                out.push(x);
                cur = nx;
            },
        }
        k = k + 1;
        proof {
            match s_cdec_decs(d@, cur as int, (cnt - k) as nat) {
                None => {},
                Some((rr, fin)) => {
                    assert(out_old + (seq![out@.last()] + rr) =~= out@ + rr);
                },
            }
        }
    }
    proof {
        assert(out@ + Seq::<Dec>::empty() =~= out@);
    }
    Some((out, cur))
}

/// The run of characters at `off`, mirroring the specification decoder.
#[verifier::loop_isolation(false)]
fn cdec_chars(d: &[u8], off: usize, cnt: u64) -> (r: Option<(String, usize)>)
    requires
        off <= d@.len(),
    ensures
        match r {
            Some(t) => s_cdec_chars(d@, off as int, cnt as nat) == Some((t.0@, t.1 as int)) && off
                <= t.1 <= d@.len(),
            None => s_cdec_chars(d@, off as int, cnt as nat) is None,
        },
{
    let dn = d.len();
    let mut out = String::new();
    let mut cur = off;
    let mut k: u64 = 0;
    proof {
        lemma_pow256_values();
    }
    while k < cnt
        invariant
            k <= cnt,
            off <= cur <= dn,
            dn == d@.len(),
            s_cdec_chars(d@, off as int, cnt as nat) == (match s_cdec_chars(
                d@,
                cur as int,
                (cnt - k) as nat,
            ) {
                None => None::<(Seq<char>, int)>,
                Some((rr, fin)) => Some((out@ + rr, fin)),
            }),
        decreases cnt - k,
    {
        let ghost out_old = out@;
        match cdec_le(d, cur, 4) {
            None => {
                return None;
            },
            Some((w, nx)) => {
                let wu = w as u32;
                match char_from_u32(wu) {
                    None => {
                        return None;
                    },
                    Some(c) => {
                        crate::bytes::push_char(&mut out, c);
                        cur = nx;
                    },
                }
            },
        }
        k = k + 1;
        proof {
            match s_cdec_chars(d@, cur as int, (cnt - k) as nat) {
                None => {},
                Some((rr, fin)) => {
                    assert(out_old + (seq![out@.last()] + rr) =~= out@ + rr);
                },
            }
        }
    }
    proof {
        assert(out@ + Seq::<char>::empty() =~= out@);
    }
    Some((out, cur))
}

/// The text at `off`, mirroring the specification decoder.
fn cdec_text(d: &[u8], off: usize) -> (r: Option<(String, usize)>)
    requires
        off <= d@.len(),
    ensures
        match r {
            Some(t) => s_cdec_text(d@, off as int) == Some((t.0@, t.1 as int)) && off < t.1
                <= d@.len(),
            None => s_cdec_text(d@, off as int) is None,
        },
{
    proof {
        lemma_pow256_values();
    }
    match cdec_le(d, off, 8) {
        None => None,
        Some((cnt, off2)) => match cdec_chars(d, off2, cnt) {
            None => None,
            Some((t, fin)) => Some((t, fin)),
        },
    }
}

/// The 16-bit pixel array at `off`, mirroring the specification decoder.
fn cdec_img16(d: &[u8], off: usize) -> (r: Option<(DcmImg16, usize)>)
    requires
        off <= d@.len(),
    ensures
        match r {
            Some(t) => s_cdec_img16(d@, off as int) == Some((img16_view(t.0), t.1 as int)) && off
                < t.1 <= d@.len(),
            None => s_cdec_img16(d@, off as int) is None,
        },
{
    let dn = d.len();
    if dn < 32 || off > dn - 32 {
        return None;
    }
    proof {
        lemma_pow256_values();
    }
    let xr = match cdec_le(d, off, 8) {
        Some((w, _)) => w,
        None => {
            return None;
        },
    };
    let yr = match cdec_le(d, off + 8, 8) {
        Some((w, _)) => w,
        None => {
            return None;
        },
    };
    let zr = match cdec_le(d, off + 16, 8) {
        Some((w, _)) => w,
        None => {
            return None;
        },
    };
    let cnt = match cdec_le(d, off + 24, 8) {
        Some((w, _)) => w,
        None => {
            return None;
        },
    };
    if xr > usize::MAX as u64 || yr > usize::MAX as u64 || zr > usize::MAX as u64 {
        return None;
    }
    match cdec_i16s(d, off + 32, cnt) {
        None => None,
        Some((v, fin)) => Some(
            (DcmImg16 { xr: xr as usize, yr: yr as usize, zr: zr as usize, data: v }, fin),
        ),
    }
}

/// The 8-bit pixel array at `off`, mirroring the specification decoder.
fn cdec_img8(d: &[u8], off: usize) -> (r: Option<(DcmImg8, usize)>)
    requires
        off <= d@.len(),
    ensures
        match r {
            Some(t) => s_cdec_img8(d@, off as int) == Some((img8_view(t.0), t.1 as int)) && off
                < t.1 <= d@.len(),
            None => s_cdec_img8(d@, off as int) is None,
        },
{
    let dn = d.len();
    if dn < 32 || off > dn - 32 {
        return None;
    }
    proof {
        lemma_pow256_values();
    }
    let xr = match cdec_le(d, off, 8) {
        Some((w, _)) => w,
        None => {
            return None;
        },
    };
    let yr = match cdec_le(d, off + 8, 8) {
        Some((w, _)) => w,
        None => {
            return None;
        },
    };
    let zr = match cdec_le(d, off + 16, 8) {
        Some((w, _)) => w,
        None => {
            return None;
        },
    };
    let cnt = match cdec_le(d, off + 24, 8) {
        Some((w, _)) => w,
        None => {
            return None;
        },
    };
    if xr > usize::MAX as u64 || yr > usize::MAX as u64 || zr > usize::MAX as u64 {
        return None;
    }
    if cnt > (dn - (off + 32)) as u64 {
        return None;
    }
    let v = crate::bytes::bytes_of(d, off + 32, cnt as usize);
    Some(
        (
            DcmImg8 { xr: xr as usize, yr: yr as usize, zr: zr as usize, data: v },
            off + 32 + cnt as usize,
        ),
    )
}

/// The element value at `off`, mirroring the specification decoder.
#[verifier::loop_isolation(false)]
#[verifier::rlimit(100)]
pub fn cdec_elt(d: &[u8], off: usize) -> (r: Option<(DicomElt, usize)>)
    requires
        off <= d@.len(),
    ensures
        match r {
            Some(t) => s_cdec_elt(d@, off as int) == Some((elt_view(t.0), t.1 as int)) && off < t.1
                <= d@.len(),
            None => s_cdec_elt(d@, off as int) is None,
        },
    decreases d@.len() - off, 0int,
{
    let dn = d.len();
    if off >= dn {
        return None;
    }
    let tag = d[off];
    if tag == 13 {
        return Some((DicomElt::Empty, off + 1));
    }
    if tag == 8 {
        return match cdec_text(d, off + 1) {
            None => None,
            Some((t, fin)) => Some((DicomElt::Text(t), fin)),
        };
    }
    if tag == 11 {
        return match cdec_img16(d, off + 1) {
            None => None,
            Some((im, fin)) => Some((DicomElt::Image16(im), fin)),
        };
    }
    if tag == 12 {
        return match cdec_img8(d, off + 1) {
            None => None,
            Some((im, fin)) => Some((DicomElt::Image8(im), fin)),
        };
    }
    if dn < 9 || off > dn - 9 {
        return None;
    }
    let cnt = match cdec_le(d, off + 1, 8) {
        Some((w, _)) => w,
        None => {
            return None;
        },
    };
    let off2 = off + 9;
    if tag == 1 {
        match cdec_i16s(d, off2, cnt) {
            None => None,
            Some((v, fin)) => Some((DicomElt::Int16s(v), fin)),
        }
    } else if tag == 2 {
        match cdec_u16s(d, off2, cnt) {
            None => None,
            Some((v, fin)) => Some((DicomElt::UInt16s(v), fin)),
        }
    } else if tag == 3 {
        match cdec_i32s(d, off2, cnt) {
            None => None,
            Some((v, fin)) => Some((DicomElt::Int32s(v), fin)),
        }
    } else if tag == 4 {
        match cdec_u32s(d, off2, cnt) {
            None => None,
            Some((v, fin)) => Some((DicomElt::UInt32s(v), fin)),
        }
    } else if tag == 5 {
        match cdec_decs(d, off2, cnt) {
            None => None,
            Some((v, fin)) => Some((DicomElt::Decimals(v), fin)),
        }
    } else if tag == 6 {
        match cdec_u64s(d, off2, cnt) {
            None => None,
            Some((v, fin)) => Some((DicomElt::Float64Bits(v), fin)),
        }
    } else if tag == 7 {
        match cdec_u32s(d, off2, cnt) {
            None => None,
            Some((v, fin)) => Some((DicomElt::Float32Bits(v), fin)),
        }
    } else if tag == 9 {
        if cnt > (dn - off2) as u64 {
            return None;
        }
        let v = crate::bytes::bytes_of(d, off2, cnt as usize);
        Some((DicomElt::Bytes(v), off2 + cnt as usize))
    } else if tag == 10 {
        let mut items: Vec<DicomSlice> = Vec::new();
        let mut cur = off2;
        let mut k: u64 = 0;
        proof {
            assert(slices_view(items@) =~= Seq::<DatasetModel>::empty());
        }
        while k < cnt
            invariant
                k <= cnt,
                off2 <= cur <= dn,
                s_cdec_datasets(d@, off2 as int, cnt as nat) == (match s_cdec_datasets(
                    d@,
                    cur as int,
                    (cnt - k) as nat,
                ) {
                    None => None::<(Seq<DatasetModel>, int)>,
                    Some((rr, fin)) => Some((slices_view(items@) + rr, fin)),
                }),
            decreases cnt - k,
        {
            let ghost items_old = items@;
            match cdec_slice(d, cur) {
                None => {
                    return None;
                },
                Some((m, nx)) => {
                    items.push(m);
                    proof {
                        crate::dataset::lemma_slices_view_push(items_old, items@.last());
                    }
                    cur = nx;
                },
            }
            k = k + 1;
            proof {
                match s_cdec_datasets(d@, cur as int, (cnt - k) as nat) {
                    None => {},
                    Some((rr, fin)) => {
                        assert(slices_view(items_old) + (seq![slice_view(items@.last())] + rr)
                            =~= slices_view(items@) + rr);
                    },
                }
            }
        }
        proof {
            assert(slices_view(items@) + Seq::<DatasetModel>::empty() =~= slices_view(items@));
        }
        Some((DicomElt::Items(items), cur))
    } else {
        None
    }
}

/// The dataset at `off`, mirroring the specification decoder.
#[verifier::loop_isolation(false)]
#[verifier::rlimit(60)]
pub fn cdec_slice(d: &[u8], off: usize) -> (r: Option<(DicomSlice, usize)>)
    requires
        off <= d@.len(),
    ensures
        match r {
            Some(t) => s_cdec_dataset(d@, off as int) == Some((slice_view(t.0), t.1 as int)) && off
                < t.1 <= d@.len(),
            None => s_cdec_dataset(d@, off as int) is None,
        },
    decreases d@.len() - off, 1int,
{
    let dn = d.len();
    if dn < 8 || off > dn - 8 {
        return None;
    }
    let cnt = match cdec_le(d, off, 8) {
        Some((w, _)) => w,
        None => {
            return None;
        },
    };
    let mut pairs: Vec<(String, DicomElt)> = Vec::new();
    let mut cur = off + 8;
    let mut k: u64 = 0;
    proof {
        assert(pairs_view(pairs@) =~= Seq::<(Seq<char>, EltModel)>::empty());
    }
    while k < cnt
        invariant
            k <= cnt,
            off + 8 <= cur <= dn,
            s_cdec_pairs(d@, off as int + 8, cnt as nat) == (match s_cdec_pairs(
                d@,
                cur as int,
                (cnt - k) as nat,
            ) {
                None => None::<(Seq<(Seq<char>, EltModel)>, int)>,
                Some((rr, fin)) => Some((pairs_view(pairs@) + rr, fin)),
            }),
        decreases cnt - k,
    {
        let ghost pairs_old = pairs@;
        let (kw, cur2) = match cdec_text(d, cur) {
            None => {
                return None;
            },
            Some(t) => t,
        };
        let (v, cur3) = match cdec_elt(d, cur2) {
            None => {
                return None;
            },
            Some(t) => t,
        };
        pairs.push((kw, v));
        proof {
            crate::dataset::lemma_pairs_view_push(pairs_old, pairs@.last());
        }
        cur = cur3;
        k = k + 1;
        proof {
            match s_cdec_pairs(d@, cur as int, (cnt - k) as nat) {
                None => {},
                Some((rr, fin)) => {
                    assert(pairs_view(pairs_old) + (seq![pairs_view(pairs@).last()] + rr)
                        =~= pairs_view(pairs@) + rr);
                },
            }
        }
    }
    proof {
        assert(pairs_view(pairs@) + Seq::<(Seq<char>, EltModel)>::empty() =~= pairs_view(pairs@));
    }
    Some((DicomSlice { keydict: pairs }, cur))
}

/// The serialized bytes of one slice record.
pub fn serialize_slice(s: &DicomSlice) -> (r: Vec<u8>)
    ensures
        r@ == s_cenc_dataset(slice_view(*s)),
        dataset_bounded(slice_view(*s)),
{
    let mut buf: Vec<u8> = Vec::new();
    cenc_slice_into(&mut buf, s);
    proof {
        assert(buf@ =~= s_cenc_dataset(slice_view(*s)));
    }
    buf
}

/// The slice a byte image encodes, when the whole image is one valid
/// encoding; empty or malformed input is a fault.
pub fn deserialize_slice(d: &[u8]) -> (r: Result<DicomSlice, DicomError>)
    ensures
        match r {
            Ok(ds) => s_cdec_dataset(d@, 0) == Some((slice_view(ds), d@.len() as int)),
            Err(e) => e == DicomError::TruncatedInput && (s_cdec_dataset(d@, 0) is None
                || s_cdec_dataset(d@, 0)->Some_0.1 != d@.len()),
        },
{
    match cdec_slice(d, 0) {
        None => Err(DicomError::TruncatedInput),
        Some((ds, fin)) => {
            if fin != d.len() {
                Err(DicomError::TruncatedInput)
            } else {
                Ok(ds)
            }
        },
    }
}

/// The serialized bytes of one scan.
#[verifier::loop_isolation(false)]
pub fn serialize_scan_bytes(scan: &DicomScan) -> (r: Vec<u8>)
    ensures
        r@ == s_cenc_scan(scan_view(*scan)),
        datasets_bounded(scan_view(*scan).slices),
        scan_view(*scan).slices.len() <= usize::MAX,
        img16_bounded(scan_view(*scan).image),
{
    let mut buf: Vec<u8> = Vec::new();
    let n = scan.slice_data.len();
    cenc_le(&mut buf, n as u64, 8);
    let ghost buf1 = buf@;
    let mut i: usize = 0;
    proof {
        lemma_slices_view_index(scan.slice_data@);
        assert(buf@ =~= buf1 + s_cenc_datasets(slices_view(scan.slice_data@).take(0)));
    }
    while i < n
        invariant
            i <= n,
            n == scan.slice_data@.len(),
            slices_view(scan.slice_data@).len() == n,
            forall|j: int|
                0 <= j < n ==> slices_view(scan.slice_data@)[j] == slice_view(
                    scan.slice_data@[j],
                ),
            buf@ == buf1 + s_cenc_datasets(slices_view(scan.slice_data@).take(i as int)),
            datasets_bounded(slices_view(scan.slice_data@).take(i as int)),
        decreases n - i,
    {
        cenc_slice_into(&mut buf, &scan.slice_data[i]);
        i = i + 1;
        proof {
            assert(slices_view(scan.slice_data@).take(i as int).drop_last() =~= slices_view(
                scan.slice_data@,
            ).take(i as int - 1));
            assert(slices_view(scan.slice_data@).take(i as int).last() == slices_view(
                scan.slice_data@,
            )[i as int - 1]);
            assert(buf@ =~= buf1 + s_cenc_datasets(
                slices_view(scan.slice_data@).take(i as int),
            ));
        }
    }
    cenc_img16(&mut buf, &scan.image);
    proof {
        assert(slices_view(scan.slice_data@).take(n as int) =~= slices_view(scan.slice_data@));
        assert(buf@ =~= s_cenc_scan(scan_view(*scan)));
    }
    buf
}

/// The scan a byte image encodes, when the whole image is one valid
/// encoding; empty or malformed input is a fault.
#[verifier::loop_isolation(false)]
pub fn deserialize_scan_bytes(d: &[u8]) -> (r: Result<DicomScan, DicomError>)
    ensures
        match r {
            Ok(scan) => s_cdec_scan(d@, 0) == Some((scan_view(scan), d@.len() as int)),
            Err(e) => e == DicomError::TruncatedInput && (s_cdec_scan(d@, 0) is None || s_cdec_scan(
                d@,
                0,
            )->Some_0.1 != d@.len()),
        },
{
    let dn = d.len();
    if dn < 8 {
        return Err(DicomError::TruncatedInput);
    }
    proof {
        lemma_pow256_values();
    }
    let cnt = match cdec_le(d, 0, 8) {
        Some((w, _)) => w,
        None => {
            return Err(DicomError::TruncatedInput);
        },
    };
    let mut slices: Vec<DicomSlice> = Vec::new();
    let mut cur: usize = 8;
    let mut k: u64 = 0;
    proof {
        assert(slices_view(slices@) =~= Seq::<DatasetModel>::empty());
    }
    while k < cnt
        invariant
            k <= cnt,
            8 <= cur <= dn,
            dn == d@.len(),
            s_cdec_datasets(d@, 8, cnt as nat) == (match s_cdec_datasets(
                d@,
                cur as int,
                (cnt - k) as nat,
            ) {
                None => None::<(Seq<DatasetModel>, int)>,
                Some((rr, fin)) => Some((slices_view(slices@) + rr, fin)),
            }),
        decreases cnt - k,
    {
        let ghost slices_old = slices@;
        match cdec_slice(d, cur) {
            None => {
                return Err(DicomError::TruncatedInput);
            },
            Some((m, nx)) => {
                slices.push(m);
                proof {
                    crate::dataset::lemma_slices_view_push(slices_old, slices@.last());
                }
                cur = nx;
            },
        }
        k = k + 1;
        proof {
            match s_cdec_datasets(d@, cur as int, (cnt - k) as nat) {
                None => {},
                Some((rr, fin)) => {
                    assert(slices_view(slices_old) + (seq![slice_view(slices@.last())] + rr)
                        =~= slices_view(slices@) + rr);
                },
            }
        }
    }
    proof {
        assert(slices_view(slices@) + Seq::<DatasetModel>::empty() =~= slices_view(slices@));
    }
    let (im, fin) = match cdec_img16(d, cur) {
        None => {
            return Err(DicomError::TruncatedInput);
        },
        Some(t) => t,
    };
    if fin != dn {
        return Err(DicomError::TruncatedInput);
    }
    Ok(DicomScan { slice_data: slices, image: im })
}

} // verus!
