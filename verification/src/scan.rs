//! The scan assembler: slices sorted by position, pixel arrays stacked
//! into one volume, and the Hounsfield-unit conversion.

use vstd::prelude::*;
use vstd::arithmetic::mul::lemma_mul_inequality;
use crate::decimal::Dec;
use crate::decimal::dec_wf;
use crate::decimal::dec_num;
use crate::decimal::dec_le;
use crate::decimal::dec_is_one;
use crate::decimal::mul_dec_i16;
use crate::decimal::pow10;
use crate::decimal::s_dec_le;
use crate::decimal::s_dec_is_one;
use crate::decimal::s_mul_dec_i16;
use crate::dataset::parse_slice;
use crate::dataset::s_parse;
use crate::types::DatasetModel;
use crate::types::DcmImg16;
use crate::types::DicomElt;
use crate::types::DicomError;
use crate::types::DicomScan;
use crate::types::DicomSlice;
use crate::types::EltModel;
use crate::types::ImgModel16;
use crate::types::ScanModel;
use crate::types::dataset_wf;
use crate::types::datasets_wf;
use crate::types::elt_view;
use crate::types::elt_wf;
use crate::types::img16_view;
use crate::types::lemma_datasets_wf_index;
use crate::types::lemma_pairs_values_wf_index;
use crate::types::lemma_pairs_view_index;
use crate::types::lemma_slices_view_index;
use crate::types::pairs_view;
use crate::types::pairs_unique;
use crate::types::s_pairs_get;
use crate::types::s_slice_intercept;
use crate::types::s_slice_pixel;
use crate::types::s_slice_pos;
use crate::types::s_slice_slope;
use crate::types::scan_view;
use crate::types::slice_view;
use crate::types::slices_view;

verus! {

/// The run of pairs without those keyed `k`.
pub open spec fn s_without_key(p: Seq<(Seq<char>, EltModel)>, k: Seq<char>) -> Seq<
    (Seq<char>, EltModel),
>
    decreases p.len(),
{
    if p.len() == 0 {
        Seq::empty()
    } else {
        let rest = s_without_key(p.subrange(1, p.len() as int), k);
        if p[0].0 == k {
            rest
        } else {
            seq![p[0]] + rest
        }
    }
}

/// A dataset without its pair keyed `k`.
pub open spec fn s_strip(m: DatasetModel, k: Seq<char>) -> DatasetModel {
    DatasetModel { pairs: s_without_key(m.pairs, k) }
}

/// Dropping one key leaves every other lookup unchanged.
pub proof fn lemma_without_key_get(p: Seq<(Seq<char>, EltModel)>, k: Seq<char>, k2: Seq<char>)
    requires
        k != k2,
    ensures
        s_pairs_get(s_without_key(p, k2), k) == s_pairs_get(p, k),
    decreases p.len(),
{
    if p.len() > 0 {
        let tail = p.subrange(1, p.len() as int);
        lemma_without_key_get(tail, k, k2);
        if p[0].0 == k2 {
        } else {
            let w = s_without_key(p, k2);
            assert(w == seq![p[0]] + s_without_key(tail, k2));
            assert(w[0] == p[0]);
            assert(w.subrange(1, w.len() as int) =~= s_without_key(tail, k2));
        }
    }
}

/// Dropping a key keeps the keys pairwise distinct and the values well
/// formed.
pub proof fn lemma_without_key_wf(p: Seq<(Seq<char>, EltModel)>, k: Seq<char>)
    requires
        pairs_unique(p),
        forall|i: int| 0 <= i < p.len() ==> elt_wf(#[trigger] p[i].1),
    ensures
        pairs_unique(s_without_key(p, k)),
        forall|i: int|
            0 <= i < s_without_key(p, k).len() ==> elt_wf(#[trigger] s_without_key(p, k)[i].1),
        forall|i: int|
            0 <= i < s_without_key(p, k).len() ==> exists|j: int|
                0 <= j < p.len() && #[trigger] s_without_key(p, k)[i] == p[j],
        s_without_key(p, k).len() <= p.len(),
    decreases p.len(),
{
    if p.len() > 0 {
        let tail = p.subrange(1, p.len() as int);
        assert(forall|i: int, j: int|
            0 <= i < j < tail.len() ==> #[trigger] tail[i].0 != #[trigger] tail[j].0) by {
            assert(forall|i: int| 0 <= i < tail.len() ==> tail[i] == p[i + 1]);
        }
        assert(forall|i: int| 0 <= i < tail.len() ==> elt_wf(#[trigger] tail[i].1)) by {
            assert(forall|i: int| 0 <= i < tail.len() ==> tail[i] == p[i + 1]);
        }
        lemma_without_key_wf(tail, k);
        let rest = s_without_key(tail, k);
        if p[0].0 == k {
            assert(forall|i: int|
                0 <= i < rest.len() ==> exists|j: int|
                    0 <= j < p.len() && #[trigger] rest[i] == p[j]) by {
                assert(forall|i: int|
                    0 <= i < rest.len() ==> exists|j: int|
                        0 <= j < tail.len() && #[trigger] rest[i] == tail[j]);
                assert(forall|j: int| 0 <= j < tail.len() ==> tail[j] == p[j + 1]);
            }
        } else {
            let w = seq![p[0]] + rest;
            assert(forall|i: int|
                0 <= i < w.len() ==> exists|j: int|
                    0 <= j < p.len() && #[trigger] w[i] == p[j]) by {
                assert(w[0] == p[0]);
                assert(forall|i: int| 1 <= i < w.len() ==> w[i] == rest[i - 1]);
                assert(forall|i: int|
                    0 <= i < rest.len() ==> exists|j: int|
                        0 <= j < tail.len() && #[trigger] rest[i] == tail[j]);
                assert(forall|j: int| 0 <= j < tail.len() ==> tail[j] == p[j + 1]);
            }
            assert(pairs_unique(w)) by {
                assert(forall|i: int| 1 <= i < w.len() ==> w[i] == rest[i - 1]);
                assert(forall|i: int|
                    0 <= i < rest.len() ==> exists|j: int|
                        0 <= j < tail.len() && #[trigger] rest[i] == tail[j]);
                assert(forall|i: int|
                    0 <= i < rest.len() ==> #[trigger] rest[i].0 != p[0].0) by {
                    assert(forall|j: int| 0 <= j < tail.len() ==> #[trigger] tail[j].0 != p[0].0);
                }
            }
            assert(forall|i: int| 0 <= i < w.len() ==> elt_wf(#[trigger] w[i].1)) by {
                assert(w[0] == p[0]);
                assert(forall|i: int| 1 <= i < w.len() ==> w[i] == rest[i - 1]);
            }
        }
    }
}

/// Values of `a` at most those of `b`, at most those of `c`: the order is
/// transitive.
proof fn lemma_scaled_le_trans(a: int, b: int, c: int, pa: int, pb: int, pc: int)
    by (nonlinear_arith)
    requires
        pa > 0,
        pb > 0,
        pc > 0,
        a * pb <= b * pa,
        b * pc <= c * pb,
    ensures
        a * pc <= c * pa,
{
}

/// The decimal order is transitive on well-formed decimals.
pub proof fn lemma_dec_le_trans(a: Dec, b: Dec, c: Dec)
    requires
        dec_wf(a),
        dec_wf(b),
        dec_wf(c),
        s_dec_le(a, b),
        s_dec_le(b, c),
    ensures
        s_dec_le(a, c),
{
    crate::decimal::lemma_pow10_positive(a.scale as nat);
    crate::decimal::lemma_pow10_positive(b.scale as nat);
    crate::decimal::lemma_pow10_positive(c.scale as nat);
    lemma_scaled_le_trans(
        dec_num(a),
        dec_num(b),
        dec_num(c),
        pow10(a.scale as nat) as int,
        pow10(b.scale as nat) as int,
        pow10(c.scale as nat) as int,
    );
}

/// The decimal order is total on well-formed decimals.
pub proof fn lemma_dec_le_total(a: Dec, b: Dec)
    ensures
        s_dec_le(a, b) || s_dec_le(b, a),
{
}

/// A well-formed scan: the volume has one block of `xr * yr` samples per
/// slice, every slice has a position, and positions do not decrease.
pub open spec fn scan_wf(m: ScanModel) -> bool {
    &&& m.image.zr == m.slices.len()
    &&& m.image.xr >= 0
    &&& m.image.yr >= 0
    &&& m.image.data.len() == m.image.xr * m.image.yr * m.image.zr
    &&& datasets_wf(m.slices)
    &&& forall|i: int| 0 <= i < m.slices.len() ==> s_slice_pos(#[trigger] m.slices[i]) is Ok
    &&& forall|i: int, j: int|
        0 <= i <= j < m.slices.len() ==> s_dec_le(
            s_slice_pos(m.slices[i])->Ok_0,
            s_slice_pos(m.slices[j])->Ok_0,
        )
}

/// Whether `perm` is a permutation of the indices below `n`.
pub open spec fn is_permutation(perm: Seq<int>, n: int) -> bool {
    &&& perm.len() == n
    &&& forall|k: int| 0 <= k < n ==> 0 <= #[trigger] perm[k] < n
    &&& forall|k1: int, k2: int| 0 <= k1 < k2 < n ==> perm[k1] != perm[k2]
}

/// The content of one position/slice pair.
pub open spec fn pair_model(p: (Dec, DicomSlice)) -> (Dec, DatasetModel) {
    (p.0, slice_view(p.1))
}

/// The pairs reordered so that positions do not decrease; the result is a
/// permutation of the input.
#[verifier::loop_isolation(false)]
#[verifier::rlimit(60)]
fn sort_by_pos(v: Vec<(Dec, DicomSlice)>) -> (r: Vec<(Dec, DicomSlice)>)
    requires
        forall|k: int| 0 <= k < v@.len() ==> dec_wf((#[trigger] v@[k]).0),
    ensures
        r@.len() == v@.len(),
        forall|k1: int, k2: int|
            0 <= k1 <= k2 < r@.len() ==> s_dec_le(r@[k1].0, r@[k2].0),
        forall|k: int| 0 <= k < r@.len() ==> dec_wf((#[trigger] r@[k]).0),
        exists|perm: Seq<int>|
            is_permutation(perm, v@.len() as int) && (forall|k: int|
                0 <= k < v@.len() ==> pair_model(#[trigger] r@[k]) == pair_model(
                    v@[perm[k]],
                )),
{
    let ghost n = v@.len() as int;
    let ghost orig = v@;
    let mut work = v;
    let mut out: Vec<(Dec, DicomSlice)> = Vec::new();
    let ghost mut perm: Seq<int> = Seq::empty();
    let ghost mut rem: Seq<int> = Seq::new(n as nat, |i: int| i);
    loop
        invariant
            rem.len() == work@.len(),
            perm.len() == out@.len(),
            perm.len() + rem.len() == n,
            orig.len() == n,
            forall|k: int| 0 <= k < perm.len() ==> 0 <= #[trigger] perm[k] < n,
            forall|k: int| 0 <= k < rem.len() ==> 0 <= #[trigger] rem[k] < n,
            forall|k1: int, k2: int|
                0 <= k1 < k2 < perm.len() + rem.len() ==> (perm + rem)[k1] != (perm + rem)[k2],
            forall|k: int|
                0 <= k < out@.len() ==> pair_model(#[trigger] out@[k]) == pair_model(
                    orig[perm[k]],
                ),
            forall|k: int|
                0 <= k < work@.len() ==> pair_model(#[trigger] work@[k]) == pair_model(
                    orig[rem[k]],
                ),
            forall|k: int| 0 <= k < out@.len() ==> dec_wf((#[trigger] out@[k]).0),
            forall|k: int| 0 <= k < work@.len() ==> dec_wf((#[trigger] work@[k]).0),
            forall|k1: int, k2: int|
                0 <= k1 <= k2 < out@.len() ==> s_dec_le(out@[k1].0, out@[k2].0),
            forall|k: int, l: int|
                0 <= k < out@.len() && 0 <= l < work@.len() ==> s_dec_le(
                    out@[k].0,
                    work@[l].0,
                ),
        decreases work@.len(),
    {
        let wn = work.len();
        if wn == 0 {
            proof {
                assert(perm + rem =~= perm);
                assert(is_permutation(perm, n));
            }
            return out;
        }
        let mut jmin: usize = 0;
        let mut j: usize = 1;
        while j < wn
            invariant
                jmin < j <= wn,
                wn == work@.len(),
                forall|l: int| 0 <= l < j ==> s_dec_le(work@[jmin as int].0, #[trigger] work@[l].0),
            decreases wn - j,
        {
            if !dec_le(&work[jmin].0, &work[j].0) {
                proof {
                    lemma_dec_le_total(work@[jmin as int].0, work@[j as int].0);
                    assert forall|l: int| 0 <= l < j + 1 implies s_dec_le(
                        work@[j as int].0,
                        #[trigger] work@[l].0,
                    ) by {
                        if l < j {
                            lemma_dec_le_trans(
                                work@[j as int].0,
                                work@[jmin as int].0,
                                work@[l].0,
                            );
                        }
                    }
                }
                jmin = j;
            }
            j = j + 1;
        }
        let ghost out_old = out@;
        let ghost work_old = work@;
        let x = work.remove(jmin);
        out.push(x);
        proof {
            let ghost perm_old = perm;
            let ghost rem_old = rem;
            perm = perm.push(rem[jmin as int]);
            rem = rem.remove(jmin as int);
            assert(forall|k1: int, k2: int|
                0 <= k1 < k2 < perm.len() + rem.len() ==> (perm + rem)[k1] != (perm + rem)[k2])
                by {
                let all_old = perm_old + rem_old;
                let all_new = perm + rem;
                assert(forall|k: int|
                    0 <= k < all_new.len() ==> #[trigger] all_new[k] == (if k < perm_old.len() {
                        all_old[k]
                    } else if k == perm_old.len() {
                        all_old[perm_old.len() + jmin]
                    } else if k <= perm_old.len() + jmin {
                        all_old[k - 1]
                    } else {
                        all_old[k]
                    }));
            }
        }
        proof {
            assert(forall|k: int|
                0 <= k < work@.len() ==> #[trigger] work@[k] == (if k < jmin {
                    work_old[k]
                } else {
                    work_old[k + 1]
                }));
            assert(forall|k: int, l: int|
                0 <= k < out@.len() && 0 <= l < work@.len() ==> s_dec_le(
                    out@[k].0,
                    work@[l].0,
                )) by {
                assert(forall|l: int|
                    0 <= l < work_old.len() ==> s_dec_le(
                        work_old[jmin as int].0,
                        #[trigger] work_old[l].0,
                    ));
            }
        }
    }
}

/// The slice without its PixelData pair, and the 16-bit image that pair
/// held.
#[verifier::loop_isolation(false)]
#[verifier::rlimit(30)]
fn strip_pixel(s: DicomSlice) -> (r: Result<(DicomSlice, DcmImg16), DicomError>)
    requires
        dataset_wf(slice_view(s)),
    ensures
        match r {
            Ok(t) => slice_view(t.0) == s_strip(slice_view(s), "PixelData"@) && s_slice_pixel(
                slice_view(s),
            ) == Ok::<_, DicomError>(img16_view(t.1)),
            Err(e) => e == DicomError::ValueTypeMismatch && s_slice_pixel(slice_view(s)) is Err,
        },
{
    let ghost orig = pairs_view(s.keydict@);
    let mut rest = s.keydict;
    let mut out: Vec<(String, DicomElt)> = Vec::new();
    let mut img: Option<DcmImg16> = None;
    let ghost mut idx: int = 0;
    proof {
        lemma_pairs_view_index(rest@);
        assert(pairs_view(rest@) =~= orig.subrange(0, orig.len() as int));
        assert(orig.take(0) =~= Seq::empty());
        assert(pairs_view(out@) =~= Seq::empty());
    }
    loop
        invariant
            0 <= idx <= orig.len(),
            pairs_view(rest@) == orig.subrange(idx, orig.len() as int),
            pairs_view(out@) == s_without_key(orig.take(idx), "PixelData"@),
            match img {
                None => s_pairs_get(orig.take(idx), "PixelData"@) is None,
                Some(im) => s_pairs_get(orig.take(idx), "PixelData"@) == Some(
                    EltModel::Image16(img16_view(im)),
                ),
            },
        decreases orig.len() - idx,
    {
        if rest.len() == 0 {
            proof {
                assert(orig.take(idx) =~= orig);
            }
            match img {
                None => {
                    return Err(DicomError::ValueTypeMismatch);
                },
                Some(im) => {
                    return Ok((DicomSlice { keydict: out }, im));
                },
            }
        }
        let ghost rest_old = rest@;
        let (k, v) = rest.remove(0);
        proof {
            lemma_pairs_view_index(rest_old);
            lemma_pairs_view_index(rest@);
            assert(rest@ =~= rest_old.subrange(1, rest_old.len() as int));
            assert(forall|k2: int|
                0 <= k2 < rest@.len() ==> #[trigger] rest@[k2] == rest_old[k2 + 1]);
            assert(forall|k2: int|
                0 <= k2 < rest@.len() ==> #[trigger] pairs_view(rest@)[k2] == pairs_view(
                    rest_old,
                )[k2 + 1]);
            assert(pairs_view(rest@) =~= orig.subrange(idx + 1, orig.len() as int));
            lemma_take_one_more(orig, idx, "PixelData"@);
            assert((k@, elt_view(v)) == pairs_view(rest_old)[0]);
            assert(pairs_view(rest_old)[0] == orig[idx]);
        }
        let pk = String::from_str("PixelData");
        if k.eq(&pk) {
            match v {
                DicomElt::Image16(im) => {
                    match img {
                        Some(_) => {
                            proof {
                                crate::types::lemma_pairs_get_some(
                                    orig.take(idx),
                                    "PixelData"@,
                                );
                                assert(forall|j: int|
                                    0 <= j < idx ==> #[trigger] orig.take(idx)[j] == orig[j]);
                                assert(false);
                            }
                            return Err(DicomError::ValueTypeMismatch);
                        },
                        None => {
                            img = Some(im);
                        },
                    }
                },
                _ => {
                    proof {
                        if s_pairs_get(orig.take(idx), "PixelData"@) is Some {
                            crate::types::lemma_pairs_get_some(orig.take(idx), "PixelData"@);
                            assert(forall|j: int|
                                0 <= j < idx ==> #[trigger] orig.take(idx)[j] == orig[j]);
                            assert(false);
                        } else {
                            lemma_take_one_more(orig, idx, "PixelData"@);
                            lemma_pairs_get_prefix(orig, idx + 1, "PixelData"@);
                        }
                    }
                    return Err(DicomError::ValueTypeMismatch);
                },
            }
        } else {
            let ghost out_old = out@;
            out.push((k, v));
            proof {
                crate::dataset::lemma_pairs_view_push(out_old, out@.last());
            }
        }
        proof {
            idx = idx + 1;
        }
    }
}


/// A lookup that succeeds on a prefix succeeds on the whole run with the
/// same value.
proof fn lemma_pairs_get_prefix(q: Seq<(Seq<char>, EltModel)>, i: int, k: Seq<char>)
    requires
        0 <= i <= q.len(),
        s_pairs_get(q.take(i), k) is Some,
    ensures
        s_pairs_get(q, k) == s_pairs_get(q.take(i), k),
    decreases i,
{
    if i > 0 {
        if q.take(i)[0].0 == k {
            assert(q[0].0 == k);
        } else {
            let q1 = q.subrange(1, q.len() as int);
            assert(q.take(i).subrange(1, i) =~= q1.take(i - 1));
            lemma_pairs_get_prefix(q1, i - 1, k);
        }
    }
}

/// Extending the scanned prefix by one pair extends the stripped pairs and
/// the lookup in the stated way.
proof fn lemma_take_one_more(q: Seq<(Seq<char>, EltModel)>, i: int, k: Seq<char>)
    requires
        0 <= i < q.len(),
    ensures
        s_without_key(q.take(i + 1), k) == (if q[i].0 == k {
            s_without_key(q.take(i), k)
        } else {
            s_without_key(q.take(i), k).push(q[i])
        }),
        s_pairs_get(q.take(i + 1), k) == (match s_pairs_get(q.take(i), k) {
            Some(e) => Some(e),
            None => if q[i].0 == k {
                Some(q[i].1)
            } else {
                None
            },
        }),
    decreases i,
{
    if i == 0 {
        assert(q.take(1) =~= seq![q[0]]);
        assert(q.take(0) =~= Seq::<(Seq<char>, EltModel)>::empty());
        assert(q.take(1).subrange(1, 1) =~= Seq::<(Seq<char>, EltModel)>::empty());
        if q[0].0 != k {
            assert(seq![q[0]] + Seq::<(Seq<char>, EltModel)>::empty() =~= Seq::<
                (Seq<char>, EltModel),
            >::empty().push(q[0]));
        }
    } else {
        let q1 = q.subrange(1, q.len() as int);
        lemma_take_one_more(q1, i - 1, k);
        assert(q.take(i + 1)[0] == q[0]);
        assert(q.take(i)[0] == q[0]);
        assert(q.take(i + 1).subrange(1, i + 1) =~= q1.take(i));
        assert(q.take(i).subrange(1, i) =~= q1.take(i - 1));
        assert(q1[i - 1] == q[i]);
        if q[0].0 == k {
        } else {
            if q[i].0 == k {
            } else {
                assert(seq![q[0]] + s_without_key(q1.take(i - 1), k).push(q[i]) =~= (seq![q[0]]
                    + s_without_key(q1.take(i - 1), k)).push(q[i]));
            }
        }
    }
}

/// The byte contents of each file.
pub open spec fn s_views(files: Seq<Vec<u8>>) -> Seq<Seq<u8>> {
    files.map_values(|f: Vec<u8>| f@)
}

/// The dataset parsed from file `i`.
pub open spec fn s_file_model(fs: Seq<Seq<u8>>, i: int) -> DatasetModel {
    s_parse(fs[i])->Ok_0
}

/// The pixel array of the dataset parsed from file `i`.
pub open spec fn s_file_pix(fs: Seq<Seq<u8>>, i: int) -> ImgModel16 {
    s_slice_pixel(s_file_model(fs, i))->Ok_0
}

/// Whether the files assemble into a scan: there is at least one, each
/// parses, each slice has a position and a 16-bit pixel array, the arrays
/// share one shape with one block of samples each, and the whole volume
/// fits in memory.
pub open spec fn s_scan_ok(fs: Seq<Seq<u8>>) -> bool {
    &&& fs.len() >= 1
    &&& forall|i: int| 0 <= i < fs.len() ==> s_parse(#[trigger] fs[i]) is Ok
    &&& forall|i: int| 0 <= i < fs.len() ==> s_slice_pos(#[trigger] s_file_model(fs, i)) is Ok
    &&& forall|i: int| 0 <= i < fs.len() ==> s_slice_pixel(#[trigger] s_file_model(fs, i)) is Ok
    &&& forall|i: int|
        0 <= i < fs.len() ==> (#[trigger] s_file_pix(fs, i)).xr == s_file_pix(fs, 0).xr
            && s_file_pix(fs, i).yr == s_file_pix(fs, 0).yr
    &&& forall|i: int|
        0 <= i < fs.len() ==> (#[trigger] s_file_pix(fs, i)).data.len() == s_file_pix(fs, i).xr
            * s_file_pix(fs, i).yr
    &&& s_file_pix(fs, 0).xr * s_file_pix(fs, 0).yr * fs.len() <= usize::MAX
}

/// The scan assembled from the given file images: each file is parsed to
/// a slice, slices are sorted by ascending position, each slice's pixel
/// array becomes one block of the combined volume, and the PixelData pair
/// leaves each slice record.
#[verifier::loop_isolation(false)]
#[verifier::rlimit(100)]
pub fn parse_scan(files: &Vec<Vec<u8>>) -> (r: Result<DicomScan, DicomError>)
    ensures
        r is Ok <==> s_scan_ok(s_views(files@)),
        match r {
            Ok(scan) => ({
                let m = scan_view(scan);
                let fs = s_views(files@);
                let bs = m.image.xr * m.image.yr;
                &&& scan_wf(m)
                &&& m.image.xr == s_file_pix(fs, 0).xr
                &&& m.image.yr == s_file_pix(fs, 0).yr
                &&& m.image.zr == fs.len()
                &&& exists|perm: Seq<int>|
                    is_permutation(perm, fs.len() as int) && (forall|k: int|
                        0 <= k < fs.len() ==> (#[trigger] m.slices[k]) == s_strip(
                            s_file_model(fs, perm[k]),
                            "PixelData"@,
                        ) && m.image.data.subrange(k * bs, (k + 1) * bs) == s_file_pix(
                            fs,
                            perm[k],
                        ).data)
            }),
            Err(_) => true,
        },
{
    let ghost fs = s_views(files@);
    let n = files.len();
    if n == 0 {
        return Err(DicomError::EmptyScan);
    }
    let mut parsed: Vec<(Dec, DicomSlice)> = Vec::new();
    let mut i: usize = 0;
    while i < n
        invariant
            i <= n,
            parsed@.len() == i,
            forall|j: int| 0 <= j < i ==> s_parse(#[trigger] fs[j]) is Ok,
            forall|j: int|
                0 <= j < i ==> slice_view((#[trigger] parsed@[j]).1) == s_file_model(fs, j),
            forall|j: int| 0 <= j < i ==> dataset_wf(s_file_model(fs, j)),
            forall|j: int|
                0 <= j < i ==> s_slice_pos(#[trigger] s_file_model(fs, j)) is Ok,
            forall|j: int|
                0 <= j < i ==> (#[trigger] parsed@[j]).0 == s_slice_pos(s_file_model(fs, j))->Ok_0,
            forall|j: int| 0 <= j < i ==> dec_wf((#[trigger] parsed@[j]).0),
        decreases n - i,
    {
        proof {
            assert(fs[i as int] == files@[i as int]@);
        }
        let ds = match parse_slice(files[i].as_slice()) {
            Ok(ds) => ds,
            Err(e) => {
                proof {
                    assert(s_parse(fs[i as int]) is Err);
                }
                return Err(e);
            },
        };
        let p = match ds.pos() {
            Ok(p) => p,
            Err(e) => {
                proof {
                    assert(s_parse(fs[i as int]) == Ok::<_, DicomError>(slice_view(ds)));
                    assert(s_slice_pos(s_file_model(fs, i as int)) is Err);
                }
                return Err(e);
            },
        };
        parsed.push((p, ds));
        i = i + 1;
    }
    let px0 = match parsed[0].1.pixel_data() {
        Ok(px) => px,
        Err(e) => {
            return Err(e);
        },
    };
    let xr0 = px0.xr;
    let yr0 = px0.yr;
    let pl0 = px0.data.len();
    proof {
        assert(s_file_pix(fs, 0) == img16_view(*px0));
        assert(s_file_pix(fs, 0).data.len() == pl0);
    }
    let bs = match xr0.checked_mul(yr0) {
        Some(b) => b,
        None => {
            proof {
                assert(s_file_pix(fs, 0).data.len() != s_file_pix(fs, 0).xr * s_file_pix(
                    fs,
                    0,
                ).yr);
            }
            return Err(DicomError::ShapeMismatch);
        },
    };
    let total = match bs.checked_mul(n) {
        Some(t) => t,
        None => {
            proof {
                assert(fs.len() == n as int);
                assert(s_file_pix(fs, 0).xr == xr0 as int && s_file_pix(fs, 0).yr == yr0 as int);
                assert(s_file_pix(fs, 0).xr * s_file_pix(fs, 0).yr * fs.len() == bs as int
                    * n as int) by (nonlinear_arith)
                    requires
                        s_file_pix(fs, 0).xr == xr0 as int,
                        s_file_pix(fs, 0).yr == yr0 as int,
                        fs.len() == n as int,
                        bs as int == xr0 as int * yr0 as int;
                assert(!s_scan_ok(fs));
            }
            return Err(DicomError::ShapeMismatch);
        },
    };
    let mut i2: usize = 0;
    while i2 < n
        invariant
            i2 <= n,
            forall|j: int|
                0 <= j < i2 ==> s_slice_pixel(#[trigger] s_file_model(fs, j)) is Ok,
            forall|j: int|
                0 <= j < i2 ==> (#[trigger] s_file_pix(fs, j)).xr == xr0 && s_file_pix(
                    fs,
                    j,
                ).yr == yr0,
            forall|j: int|
                0 <= j < i2 ==> (#[trigger] s_file_pix(fs, j)).data.len() == s_file_pix(
                    fs,
                    j,
                ).xr * s_file_pix(fs, j).yr,
        decreases n - i2,
    {
        let px = match parsed[i2].1.pixel_data() {
            Ok(px) => px,
            Err(e) => {
                proof {
                    assert(s_slice_pixel(s_file_model(fs, i2 as int)) is Err);
                }
                return Err(e);
            },
        };
        if px.xr != xr0 || px.yr != yr0 || px.data.len() != bs {
            proof {
                assert(s_file_pix(fs, i2 as int) == img16_view(*px));
                assert(!s_scan_ok(fs));
            }
            return Err(DicomError::ShapeMismatch);
        }
        i2 = i2 + 1;
    }
    let ghost parsed_view = parsed@;
    let mut sorted_v = sort_by_pos(parsed);
    let ghost sorted_view = sorted_v@;
    let ghost perm = choose|perm: Seq<int>|
        is_permutation(perm, n as int) && (forall|k: int|
            0 <= k < n ==> pair_model(#[trigger] sorted_view[k]) == pair_model(
                parsed_view[perm[k]],
            ));
    let mut out_slices: Vec<DicomSlice> = Vec::new();
    let mut volume: Vec<i16> = Vec::new();
    let mut k: usize = 0;
    proof {
        lemma_key_literals_differ();
    }
    while k < n
        invariant
            k <= n,
            sorted_v@ == sorted_view.subrange(k as int, n as int),
            out_slices@.len() == k,
            volume@.len() == k * bs,
            bs == xr0 as int * yr0 as int,
            forall|j: int|
                0 <= j < k ==> volume@.subrange(j * bs, (j + 1) * bs) == s_file_pix(
                    fs,
                    perm[j],
                ).data,
            forall|j: int|
                0 <= j < k ==> slice_view(#[trigger] out_slices@[j]) == s_strip(
                    s_file_model(fs, perm[j]),
                    "PixelData"@,
                ),
        decreases n - k,
    {
        proof {
            assert(sorted_v@[0] == sorted_view[k as int]);
        }
        let ghost sv_old = sorted_v@;
        let (pd, ds) = sorted_v.remove(0);
        proof {
            assert(sorted_v@ =~= sorted_view.subrange(k as int + 1, n as int));
            assert((pd, slice_view(ds)) == pair_model(sorted_view[k as int]));
            assert(slice_view(ds) == s_file_model(fs, perm[k as int]));
            assert(dataset_wf(slice_view(ds)));
        }
        let (ss, img) = match strip_pixel(ds) {
            Ok(t) => t,
            Err(e) => {
                proof {
                    assert(s_slice_pixel(s_file_model(fs, perm[k as int])) is Ok);
                    assert(false);
                }
                return Err(e);
            },
        };
        let DcmImg16 { xr: _ixr, yr: _iyr, zr: _izr, data: mut imd } = img;
        proof {
            assert(img16_view(img).data == s_file_pix(fs, perm[k as int]).data);
            assert(imd@.len() == s_file_pix(fs, perm[k as int]).xr * s_file_pix(
                fs,
                perm[k as int],
            ).yr);
            assert(imd@.len() == bs);
        }
        let ghost vol_old = volume@;
        let ghost imd_view = imd@;
        volume.append(&mut imd);
        out_slices.push(ss);
        k = k + 1;
        proof {
            assert(volume@ == vol_old + imd_view);
            assert(volume@.len() == k * bs) by {
                assert(vol_old.len() == (k - 1) * bs);
                assert((k - 1) * bs + bs == k as int * bs) by (nonlinear_arith);
            }
            assert forall|j: int| 0 <= j < k implies volume@.subrange(j * bs, (j + 1) * bs)
                == s_file_pix(fs, perm[j]).data by {
                vstd::arithmetic::mul::lemma_mul_nonnegative(j, bs as int);
                assert((k - 1) * bs + bs == k as int * bs) by (nonlinear_arith);
                assert((j + 1) * bs == j * bs + bs) by (nonlinear_arith);
                if j < k - 1 {
                    lemma_mul_inequality(j + 1, k as int - 1, bs as int);
                    assert(volume@.subrange(j * bs, (j + 1) * bs) =~= vol_old.subrange(
                        j * bs,
                        (j + 1) * bs,
                    ));
                } else {
                    assert(j * bs == vol_old.len());
                    assert((j + 1) * bs == vol_old.len() + imd_view.len()) by (nonlinear_arith)
                        requires
                            j == k - 1,
                            vol_old.len() == (k - 1) * bs,
                            imd_view.len() == bs;
                    assert(volume@.subrange(j * bs, (j + 1) * bs) =~= imd_view);
                }
            }
        }
    }
    let image = DcmImg16 { xr: xr0, yr: yr0, zr: n, data: volume };
    let scan = DicomScan { slice_data: out_slices, image };
    proof {
        let m = scan_view(scan);
        lemma_slices_view_index(scan.slice_data@);
        assert(m.slices.len() == n);
        assert(forall|j: int|
            0 <= j < n ==> #[trigger] m.slices[j] == s_strip(
                s_file_model(fs, perm[j]),
                "PixelData"@,
            ));
        assert(m.image.data.len() == m.image.xr * m.image.yr * m.image.zr) by {
            assert(volume@.len() == n as int * bs);
            assert(xr0 as int * yr0 as int * n as int == n as int * (xr0 as int * yr0 as int))
                by (nonlinear_arith);
        }
        assert forall|j: int| 0 <= j < n implies dataset_wf(#[trigger] m.slices[j]) by {
            let src = s_file_model(fs, perm[j]);
            lemma_pairs_values_wf_index(src.pairs);
            lemma_without_key_wf(src.pairs, "PixelData"@);
            lemma_pairs_values_wf_index(s_without_key(src.pairs, "PixelData"@));
        }
        lemma_datasets_wf_index(m.slices);
        assert forall|j: int| 0 <= j < n implies s_slice_pos(#[trigger] m.slices[j])
            == s_slice_pos(s_file_model(fs, perm[j])) by {
            lemma_key_literals_differ();
            lemma_without_key_get(
                s_file_model(fs, perm[j]).pairs,
                "ImagePositionPatient"@,
                "PixelData"@,
            );
        }
        assert forall|j: int| 0 <= j < n implies s_slice_pos(#[trigger] m.slices[j])->Ok_0
            == sorted_view[j].0 by {
            assert(pair_model(sorted_view[j]) == pair_model(parsed_view[perm[j]]));
        }
        assert(forall|k1: int, k2: int|
            0 <= k1 <= k2 < n ==> s_dec_le(
                s_slice_pos(m.slices[k1])->Ok_0,
                s_slice_pos(m.slices[k2])->Ok_0,
            ));
        assert(scan_wf(m));
        assert(s_scan_ok(fs)) by {
            assert(s_file_pix(fs, 0).xr * s_file_pix(fs, 0).yr * fs.len() <= usize::MAX) by {
                assert(bs as int * n as int <= usize::MAX);
                assert(xr0 as int * yr0 as int * n as int == (xr0 as int * yr0 as int) * n as int);
            }
        }
    }
    Ok(scan)
}

/// The two keywords the assembler distinguishes are distinct.
proof fn lemma_key_literals_differ()
    ensures
        "ImagePositionPatient"@ != "PixelData"@,
{
    reveal_strlit("ImagePositionPatient");
    reveal_strlit("PixelData");
    assert("ImagePositionPatient"@.len() == 20);
    assert("PixelData"@.len() == 9);
}


/// One sample converted to Hounsfield units: the out-of-scanner marker
/// -2000 becomes zero, the sample is scaled by the slope unless the slope
/// is one (truncating toward zero, saturated to the 16-bit range), and
/// the intercept is added with wraparound.
pub open spec fn s_hu_sample(v: i16, slope: Dec, icpt: i16) -> i16 {
    let v0: i16 = if v == -2000 {
        0i16
    } else {
        v
    };
    let m: i16 = if s_dec_is_one(slope) {
        v0
    } else {
        s_mul_dec_i16(v0, slope)
    };
    vstd::wrapping::i16_specs::wrapping_add(m, icpt)
}

/// The calibrated volume of a scan: every sample of block `b` converted
/// with the slope and the intercept of slice `b`. A slice without both is
/// a fault.
pub open spec fn s_pixels_hu(m: ScanModel) -> Result<Seq<i16>, DicomError> {
    if forall|i: int|
        0 <= i < m.slices.len() ==> s_slice_slope(#[trigger] m.slices[i]) is Ok
            && s_slice_intercept(m.slices[i]) is Ok {
        let bs = m.image.xr * m.image.yr;
        Ok(
            Seq::new(
                m.image.data.len(),
                |idx: int|
                    {
                        let b = if bs > 0 {
                            idx / bs
                        } else {
                            0
                        };
                        s_hu_sample(
                            m.image.data[idx],
                            s_slice_slope(m.slices[b])->Ok_0,
                            s_slice_intercept(m.slices[b])->Ok_0,
                        )
                    },
            ),
        )
    } else {
        Err(DicomError::ValueTypeMismatch)
    }
}

/// The calibrated volume of the scan; the scan itself is not changed.
#[verifier::loop_isolation(false)]
#[verifier::rlimit(60)]
pub fn get_pixels_hu(scan: &DicomScan) -> (r: Result<Vec<i16>, DicomError>)
    requires
        scan_wf(scan_view(*scan)),
    ensures
        match r {
            Ok(v) => s_pixels_hu(scan_view(*scan)) == Ok::<_, DicomError>(v@),
            Err(e) => s_pixels_hu(scan_view(*scan)) == Err::<Seq<i16>, _>(e),
        },
{
    let ghost m = scan_view(*scan);
    let n = scan.slice_data.len();
    proof {
        lemma_slices_view_index(scan.slice_data@);
        lemma_datasets_wf_index(m.slices);
    }
    let mut slopes: Vec<Dec> = Vec::new();
    let mut icpts: Vec<i16> = Vec::new();
    let mut i: usize = 0;
    while i < n
        invariant
            i <= n,
            slopes@.len() == i,
            icpts@.len() == i,
            forall|j: int|
                0 <= j < i ==> s_slice_slope(#[trigger] m.slices[j]) == Ok::<_, DicomError>(
                    slopes@[j],
                ),
            forall|j: int|
                0 <= j < i ==> s_slice_intercept(#[trigger] m.slices[j]) == Ok::<_, DicomError>(
                    icpts@[j],
                ),
            forall|j: int| 0 <= j < i ==> dec_wf(#[trigger] slopes@[j]),
        decreases n - i,
    {
        proof {
            assert(slice_view(scan.slice_data@[i as int]) == m.slices[i as int]);
            assert(dataset_wf(m.slices[i as int]));
        }
        let sl = match scan.slice_data[i].slope() {
            Ok(sl) => sl,
            Err(e) => {
                return Err(e);
            },
        };
        let ic = match scan.slice_data[i].intercept() {
            Ok(ic) => ic,
            Err(e) => {
                return Err(e);
            },
        };
        slopes.push(sl);
        icpts.push(ic);
        i = i + 1;
    }
    let dn = scan.image.data.len();
    let bs = match scan.image.xr.checked_mul(scan.image.yr) {
        Some(b) => b,
        None => {
            proof {
                lemma_zr_zero_when_block_huge(m);
                assert(m.image.data.len() == 0);
                assert(Seq::new(m.image.data.len(), |idx: int| 0i16) =~= Seq::<i16>::empty());
                assert(s_pixels_hu(m)->Ok_0 =~= Seq::<i16>::empty());
            }
            return Ok(Vec::new());
        },
    };
    if bs == 0 {
        proof {
            assert(m.image.xr * m.image.yr * m.image.zr == 0) by (nonlinear_arith)
                requires
                    m.image.xr * m.image.yr == 0;
            assert(s_pixels_hu(m)->Ok_0 =~= Seq::<i16>::empty());
        }
        return Ok(Vec::new());
    }
    let mut out: Vec<i16> = Vec::new();
    let mut idx: usize = 0;
    while idx < dn
        invariant
            idx <= dn,
            out@.len() == idx,
            bs > 0,
            forall|q: int| 0 <= q < idx ==> #[trigger] out@[q] == s_pixels_hu(m)->Ok_0[q],
        decreases dn - idx,
    {
        let b = idx / bs;
        proof {
            vstd::arithmetic::div_mod::lemma_multiply_divide_lt(
                idx as int,
                bs as int,
                m.image.zr,
            );
            assert(bs as int * m.image.zr == m.image.xr * m.image.yr * m.image.zr)
                by (nonlinear_arith)
                requires
                    bs as int == m.image.xr * m.image.yr;
        }
        let v = scan.image.data[idx];
        let v0: i16 = if v == -2000 {
            0
        } else {
            v
        };
        let mres: i16 = if dec_is_one(&slopes[b]) {
            v0
        } else {
            mul_dec_i16(v0, &slopes[b])
        };
        let s = mres.wrapping_add(icpts[b]);
        out.push(s);
        idx = idx + 1;
    }
    proof {
        assert(out@ =~= s_pixels_hu(m)->Ok_0);
    }
    Ok(out)
}

/// In a well-formed scan whose block size cannot be held in memory, the
/// volume is empty.
proof fn lemma_zr_zero_when_block_huge(m: ScanModel)
    requires
        scan_wf(m),
        m.image.xr * m.image.yr > usize::MAX,
        m.image.data.len() <= usize::MAX,
    ensures
        m.image.data.len() == 0,
{
    if m.image.zr > 0 {
        lemma_mul_inequality(1, m.image.zr, m.image.xr * m.image.yr);
        assert(m.image.xr * m.image.yr * m.image.zr == (m.image.xr * m.image.yr) * m.image.zr);
        assert((m.image.xr * m.image.yr) * m.image.zr >= (m.image.xr * m.image.yr) * 1)
            by (nonlinear_arith)
            requires
                m.image.zr >= 1,
                m.image.xr * m.image.yr >= 0;
        assert(false);
    } else {
        assert(m.image.xr * m.image.yr * m.image.zr == 0) by (nonlinear_arith)
            requires
                m.image.zr == 0;
    }
}

/// With every slope one and every intercept zero, the conversion returns
/// the volume with each -2000 sample replaced by zero and nothing else
/// changed.
pub proof fn lemma_hu_identity(m: ScanModel)
    requires
        scan_wf(m),
        forall|i: int|
            0 <= i < m.slices.len() ==> s_slice_slope(#[trigger] m.slices[i]) is Ok
                && s_dec_is_one(s_slice_slope(m.slices[i])->Ok_0),
        forall|i: int|
            0 <= i < m.slices.len() ==> s_slice_intercept(#[trigger] m.slices[i]) == Ok::<
                _,
                DicomError,
            >(0i16),
    ensures
        s_pixels_hu(m) == Ok::<_, DicomError>(
            Seq::new(
                m.image.data.len(),
                |idx: int|
                    if m.image.data[idx] == -2000 {
                        0i16
                    } else {
                        m.image.data[idx]
                    },
            ),
        ),
{
    let bs = m.image.xr * m.image.yr;
    assert forall|idx: int| 0 <= idx < m.image.data.len() implies s_pixels_hu(m)->Ok_0[idx] == (
    if m.image.data[idx] == -2000 {
        0i16
    } else {
        m.image.data[idx]
    }) by {
        let b = if bs > 0 {
            idx / bs
        } else {
            0
        };
        if bs > 0 {
            vstd::arithmetic::div_mod::lemma_multiply_divide_lt(idx, bs, m.image.zr);
            assert(bs * m.image.zr == m.image.xr * m.image.yr * m.image.zr) by (nonlinear_arith)
                requires
                    bs == m.image.xr * m.image.yr;
            vstd::arithmetic::div_mod::lemma_div_pos_is_pos(idx, bs);
        } else {
            assert(m.image.xr * m.image.yr * m.image.zr == 0) by (nonlinear_arith)
                requires
                    m.image.xr * m.image.yr == 0;
        }
    }
    assert(s_pixels_hu(m)->Ok_0 =~= Seq::new(
        m.image.data.len(),
        |idx: int|
            if m.image.data[idx] == -2000 {
                0i16
            } else {
                m.image.data[idx]
            },
    ));
}

} // verus!
