//! Little- and big-endian readers over byte slices.
//!
//! Every reader has an exact contract: the returned value is a stated
//! arithmetic function of the input bytes, so callers can reason about
//! the precise words a dataset region decodes to.

use vstd::prelude::*;

verus! {

/// The unsigned 16-bit word encoded little-endian at `i`.
pub open spec fn s_u16le(d: Seq<u8>, i: int) -> u16
    recommends
        0 <= i,
        i + 2 <= d.len(),
{
    (d[i] as int + d[i + 1] as int * 0x100) as u16
}

/// The unsigned 16-bit word encoded big-endian at `i`.
pub open spec fn s_u16be(d: Seq<u8>, i: int) -> u16
    recommends
        0 <= i,
        i + 2 <= d.len(),
{
    (d[i + 1] as int + d[i] as int * 0x100) as u16
}

/// The unsigned 32-bit word encoded little-endian at `i`.
pub open spec fn s_u32le(d: Seq<u8>, i: int) -> u32
    recommends
        0 <= i,
        i + 4 <= d.len(),
{
    (d[i] as int + d[i + 1] as int * 0x100 + d[i + 2] as int * 0x10000 + d[i + 3] as int
        * 0x1000000) as u32
}

/// The unsigned 32-bit word encoded big-endian at `i`.
pub open spec fn s_u32be(d: Seq<u8>, i: int) -> u32
    recommends
        0 <= i,
        i + 4 <= d.len(),
{
    (d[i + 3] as int + d[i + 2] as int * 0x100 + d[i + 1] as int * 0x10000 + d[i] as int
        * 0x1000000) as u32
}

/// The unsigned 64-bit word encoded little-endian at `i`.
pub open spec fn s_u64le(d: Seq<u8>, i: int) -> u64
    recommends
        0 <= i,
        i + 8 <= d.len(),
{
    (s_u32le(d, i) as int + s_u32le(d, i + 4) as int * 0x100000000) as u64
}

/// The unsigned 64-bit word encoded big-endian at `i`.
pub open spec fn s_u64be(d: Seq<u8>, i: int) -> u64
    recommends
        0 <= i,
        i + 8 <= d.len(),
{
    (s_u32be(d, i + 4) as int + s_u32be(d, i) as int * 0x100000000) as u64
}

/// Reinterpretation of an unsigned 16-bit value as two's-complement signed.
pub open spec fn s_as_i16(v: u16) -> i16 {
    if v < 0x8000 {
        v as i16
    } else {
        (v as int - 0x10000) as i16
    }
}

/// Reinterpretation of an unsigned 32-bit value as two's-complement signed.
pub open spec fn s_as_i32(v: u32) -> i32 {
    if v < 0x80000000 {
        v as i32
    } else {
        (v as int - 0x100000000) as i32
    }
}

pub proof fn lemma_cast_u16_i16(v: u16)
    ensures
        v as i16 == s_as_i16(v),
{
    assert(v as i16 == if v < 0x8000 {
        v as int
    } else {
        v as int - 0x10000
    }) by (bit_vector);
}

pub proof fn lemma_cast_u32_i32(v: u32)
    ensures
        v as i32 == s_as_i32(v),
{
    assert(v as i32 == if v < 0x80000000 {
        v as int
    } else {
        v as int - 0x100000000
    }) by (bit_vector);
}

/// The little-endian 16-bit word at the start of `bytes`.
pub fn u8tou16(bytes: &[u8]) -> (r: u16)
    requires
        bytes@.len() >= 2,
    ensures
        r == s_u16le(bytes@, 0),
{
    bytes[0] as u16 + bytes[1] as u16 * 0x100
}

/// The little-endian 32-bit word at the start of `bytes`.
pub fn u8tou32(bytes: &[u8]) -> (r: u32)
    requires
        bytes@.len() >= 4,
    ensures
        r == s_u32le(bytes@, 0),
{
    bytes[0] as u32 + bytes[1] as u32 * 0x100 + bytes[2] as u32 * 0x10000 + bytes[3] as u32
        * 0x1000000
}

/// Two 16-bit words combined into one 32-bit value, the second word high.
pub fn u16tou32(bytes: &[u16]) -> (r: u32)
    requires
        bytes@.len() >= 2,
    ensures
        r == bytes@[0] as int + bytes@[1] as int * 0x10000,
{
    bytes[0] as u32 + bytes[1] as u32 * 0x10000
}

/// Whether `x` is odd.
pub fn isodd(x: usize) -> (r: bool)
    ensures
        r == (x % 2 == 1),
{
    x % 2 == 1
}

/// The little-endian 16-bit word of `d` at `i`.
pub fn read_u16le(d: &[u8], i: usize) -> (r: u16)
    requires
        i + 2 <= d@.len(),
    ensures
        r == s_u16le(d@, i as int),
{
    d[i] as u16 + d[i + 1] as u16 * 0x100
}

/// The big-endian 16-bit word of `d` at `i`.
pub fn read_u16be(d: &[u8], i: usize) -> (r: u16)
    requires
        i + 2 <= d@.len(),
    ensures
        r == s_u16be(d@, i as int),
{
    let _n = d.len();
    d[i + 1] as u16 + d[i] as u16 * 0x100
}

/// The little-endian 32-bit word of `d` at `i`.
pub fn read_u32le(d: &[u8], i: usize) -> (r: u32)
    requires
        i + 4 <= d@.len(),
    ensures
        r == s_u32le(d@, i as int),
{
    d[i] as u32 + d[i + 1] as u32 * 0x100 + d[i + 2] as u32 * 0x10000 + d[i + 3] as u32 * 0x1000000
}

/// The big-endian 32-bit word of `d` at `i`.
pub fn read_u32be(d: &[u8], i: usize) -> (r: u32)
    requires
        i + 4 <= d@.len(),
    ensures
        r == s_u32be(d@, i as int),
{
    let _n = d.len();
    d[i + 3] as u32 + d[i + 2] as u32 * 0x100 + d[i + 1] as u32 * 0x10000 + d[i] as u32 * 0x1000000
}

/// The little-endian 64-bit word of `d` at `i`.
pub fn read_u64le(d: &[u8], i: usize) -> (r: u64)
    requires
        i + 8 <= d@.len(),
    ensures
        r == s_u64le(d@, i as int),
{
    let _n = d.len();
    read_u32le(d, i) as u64 + read_u32le(d, i + 4) as u64 * 0x100000000
}

/// The big-endian 64-bit word of `d` at `i`.
pub fn read_u64be(d: &[u8], i: usize) -> (r: u64)
    requires
        i + 8 <= d@.len(),
    ensures
        r == s_u64be(d@, i as int),
{
    let _n = d.len();
    read_u32be(d, i + 4) as u64 + read_u32be(d, i) as u64 * 0x100000000
}

/// The little-endian signed 16-bit word of `d` at `i`.
pub fn read_i16le(d: &[u8], i: usize) -> (r: i16)
    requires
        i + 2 <= d@.len(),
    ensures
        r == s_as_i16(s_u16le(d@, i as int)),
{
    let v = read_u16le(d, i);
    proof {
        lemma_cast_u16_i16(v);
    }
    v as i16
}

/// The little-endian signed 32-bit word of `d` at `i`.
pub fn read_i32le(d: &[u8], i: usize) -> (r: i32)
    requires
        i + 4 <= d@.len(),
    ensures
        r == s_as_i32(s_u32le(d@, i as int)),
{
    let v = read_u32le(d, i);
    proof {
        lemma_cast_u32_i32(v);
    }
    v as i32
}

/// The characters of the byte run `d[off .. off + n]`, each byte read as the
/// character with that code.
pub open spec fn s_text(d: Seq<u8>, off: int, n: int) -> Seq<char>
    recommends
        0 <= off,
        0 <= n,
        off + n <= d.len(),
{
    Seq::new(n as nat, |k: int| d[off + k] as char)
}

/// Relies on `String::push`: appends one character at the end of the string.
#[verifier::external_body]
pub(crate) fn push_char(s: &mut String, c: char)
    ensures
        final(s)@ == old(s)@ + seq![c],
{
    s.push(c)
}

/// The text of a whole byte slice, each byte read as the character with
/// that code.
pub fn u8tostr(bytes: &[u8]) -> (r: String)
    ensures
        r@ == s_text(bytes@, 0, bytes@.len() as int),
{
    text_of(bytes, 0, bytes.len())
}

/// The text of the byte run `d[off .. off + n]`, each byte read as the
/// character with that code.
pub fn text_of(d: &[u8], off: usize, n: usize) -> (r: String)
    requires
        off + n <= d@.len(),
    ensures
        r@ == s_text(d@, off as int, n as int),
{
    let _dn = d.len();
    let mut s = String::new();
    let mut k: usize = 0;
    while k < n
        invariant
            off + n <= d@.len(),
            d@.len() <= usize::MAX,
            k <= n,
            s@ == s_text(d@, off as int, k as int),
        decreases n - k,
    {
        let b = d[off + k];
        push_char(&mut s, b as char);
        k = k + 1;
        proof {
            assert(s@ =~= s_text(d@, off as int, k as int));
        }
    }
    s
}

/// The `n` little-endian unsigned 16-bit words of `d` starting at `off`.
pub open spec fn s_u16le_seq(d: Seq<u8>, off: int, n: int) -> Seq<u16> {
    Seq::new(n as nat, |k: int| s_u16le(d, off + 2 * k))
}

/// The `n` big-endian unsigned 16-bit words of `d` starting at `off`.
pub open spec fn s_u16be_seq(d: Seq<u8>, off: int, n: int) -> Seq<u16> {
    Seq::new(n as nat, |k: int| s_u16be(d, off + 2 * k))
}

/// The `n` little-endian signed 16-bit words of `d` starting at `off`.
pub open spec fn s_i16le_seq(d: Seq<u8>, off: int, n: int) -> Seq<i16> {
    Seq::new(n as nat, |k: int| s_as_i16(s_u16le(d, off + 2 * k)))
}

/// The `n` little-endian unsigned 32-bit words of `d` starting at `off`.
pub open spec fn s_u32le_seq(d: Seq<u8>, off: int, n: int) -> Seq<u32> {
    Seq::new(n as nat, |k: int| s_u32le(d, off + 4 * k))
}

/// The `n` little-endian signed 32-bit words of `d` starting at `off`.
pub open spec fn s_i32le_seq(d: Seq<u8>, off: int, n: int) -> Seq<i32> {
    Seq::new(n as nat, |k: int| s_as_i32(s_u32le(d, off + 4 * k)))
}

/// The `n` big-endian unsigned 32-bit words of `d` starting at `off`.
pub open spec fn s_u32be_seq(d: Seq<u8>, off: int, n: int) -> Seq<u32> {
    Seq::new(n as nat, |k: int| s_u32be(d, off + 4 * k))
}

/// The `n` little-endian unsigned 64-bit words of `d` starting at `off`.
pub open spec fn s_u64le_seq(d: Seq<u8>, off: int, n: int) -> Seq<u64> {
    Seq::new(n as nat, |k: int| s_u64le(d, off + 8 * k))
}

/// The `n` big-endian unsigned 64-bit words of `d` starting at `off`.
pub open spec fn s_u64be_seq(d: Seq<u8>, off: int, n: int) -> Seq<u64> {
    Seq::new(n as nat, |k: int| s_u64be(d, off + 8 * k))
}

/// The bytes `d[off .. off + n]` as a vector.
pub fn bytes_of(d: &[u8], off: usize, n: usize) -> (r: Vec<u8>)
    requires
        off + n <= d@.len(),
    ensures
        r@ == d@.subrange(off as int, off + n),
{
    let _dn = d.len();
    let mut r: Vec<u8> = Vec::new();
    let mut k: usize = 0;
    while k < n
        invariant
            off + n <= d@.len(),
            d@.len() <= usize::MAX,
            k <= n,
            r@ == d@.subrange(off as int, off + k),
        decreases n - k,
    {
        r.push(d[off + k]);
        k = k + 1;
        proof {
            assert(r@ =~= d@.subrange(off as int, off + k));
        }
    }
    r
}

/// The `n` little-endian unsigned 16-bit words of `d` starting at `off`.
pub fn parse_u16les(d: &[u8], off: usize, n: usize) -> (r: Vec<u16>)
    requires
        off + 2 * n <= d@.len(),
    ensures
        r@ == s_u16le_seq(d@, off as int, n as int),
{
    let _dn = d.len();
    let mut r: Vec<u16> = Vec::new();
    let mut k: usize = 0;
    while k < n
        invariant
            off + 2 * n <= d@.len(),
            d@.len() <= usize::MAX,
            k <= n,
            r@ == s_u16le_seq(d@, off as int, k as int),
        decreases n - k,
    {
        r.push(read_u16le(d, off + 2 * k));
        k = k + 1;
        proof {
            assert(r@ =~= s_u16le_seq(d@, off as int, k as int));
        }
    }
    r
}

/// The `n` big-endian unsigned 16-bit words of `d` starting at `off`.
pub fn parse_u16bes(d: &[u8], off: usize, n: usize) -> (r: Vec<u16>)
    requires
        off + 2 * n <= d@.len(),
    ensures
        r@ == s_u16be_seq(d@, off as int, n as int),
{
    let _dn = d.len();
    let mut r: Vec<u16> = Vec::new();
    let mut k: usize = 0;
    while k < n
        invariant
            off + 2 * n <= d@.len(),
            d@.len() <= usize::MAX,
            k <= n,
            r@ == s_u16be_seq(d@, off as int, k as int),
        decreases n - k,
    {
        r.push(read_u16be(d, off + 2 * k));
        k = k + 1;
        proof {
            assert(r@ =~= s_u16be_seq(d@, off as int, k as int));
        }
    }
    r
}

/// The `n` little-endian signed 16-bit words of `d` starting at `off`.
pub fn parse_i16les(d: &[u8], off: usize, n: usize) -> (r: Vec<i16>)
    requires
        off + 2 * n <= d@.len(),
    ensures
        r@ == s_i16le_seq(d@, off as int, n as int),
{
    let _dn = d.len();
    let mut r: Vec<i16> = Vec::new();
    let mut k: usize = 0;
    while k < n
        invariant
            off + 2 * n <= d@.len(),
            d@.len() <= usize::MAX,
            k <= n,
            r@ == s_i16le_seq(d@, off as int, k as int),
        decreases n - k,
    {
        r.push(read_i16le(d, off + 2 * k));
        k = k + 1;
        proof {
            assert(r@ =~= s_i16le_seq(d@, off as int, k as int));
        }
    }
    r
}

/// The `n` little-endian unsigned 32-bit words of `d` starting at `off`.
pub fn parse_u32les(d: &[u8], off: usize, n: usize) -> (r: Vec<u32>)
    requires
        off + 4 * n <= d@.len(),
    ensures
        r@ == s_u32le_seq(d@, off as int, n as int),
{
    let _dn = d.len();
    let mut r: Vec<u32> = Vec::new();
    let mut k: usize = 0;
    while k < n
        invariant
            off + 4 * n <= d@.len(),
            d@.len() <= usize::MAX,
            k <= n,
            r@ == s_u32le_seq(d@, off as int, k as int),
        decreases n - k,
    {
        r.push(read_u32le(d, off + 4 * k));
        k = k + 1;
        proof {
            assert(r@ =~= s_u32le_seq(d@, off as int, k as int));
        }
    }
    r
}

/// The `n` little-endian signed 32-bit words of `d` starting at `off`.
pub fn parse_i32les(d: &[u8], off: usize, n: usize) -> (r: Vec<i32>)
    requires
        off + 4 * n <= d@.len(),
    ensures
        r@ == s_i32le_seq(d@, off as int, n as int),
{
    let _dn = d.len();
    let mut r: Vec<i32> = Vec::new();
    let mut k: usize = 0;
    while k < n
        invariant
            off + 4 * n <= d@.len(),
            d@.len() <= usize::MAX,
            k <= n,
            r@ == s_i32le_seq(d@, off as int, k as int),
        decreases n - k,
    {
        r.push(read_i32le(d, off + 4 * k));
        k = k + 1;
        proof {
            assert(r@ =~= s_i32le_seq(d@, off as int, k as int));
        }
    }
    r
}

/// The `n` big-endian unsigned 32-bit words of `d` starting at `off`.
pub fn parse_u32bes(d: &[u8], off: usize, n: usize) -> (r: Vec<u32>)
    requires
        off + 4 * n <= d@.len(),
    ensures
        r@ == s_u32be_seq(d@, off as int, n as int),
{
    let _dn = d.len();
    let mut r: Vec<u32> = Vec::new();
    let mut k: usize = 0;
    while k < n
        invariant
            off + 4 * n <= d@.len(),
            d@.len() <= usize::MAX,
            k <= n,
            r@ == s_u32be_seq(d@, off as int, k as int),
        decreases n - k,
    {
        r.push(read_u32be(d, off + 4 * k));
        k = k + 1;
        proof {
            assert(r@ =~= s_u32be_seq(d@, off as int, k as int));
        }
    }
    r
}

/// The `n` little-endian unsigned 64-bit words of `d` starting at `off`.
pub fn parse_u64les(d: &[u8], off: usize, n: usize) -> (r: Vec<u64>)
    requires
        off + 8 * n <= d@.len(),
    ensures
        r@ == s_u64le_seq(d@, off as int, n as int),
{
    let _dn = d.len();
    let mut r: Vec<u64> = Vec::new();
    let mut k: usize = 0;
    while k < n
        invariant
            off + 8 * n <= d@.len(),
            d@.len() <= usize::MAX,
            k <= n,
            r@ == s_u64le_seq(d@, off as int, k as int),
        decreases n - k,
    {
        r.push(read_u64le(d, off + 8 * k));
        k = k + 1;
        proof {
            assert(r@ =~= s_u64le_seq(d@, off as int, k as int));
        }
    }
    r
}

/// The `n` big-endian unsigned 64-bit words of `d` starting at `off`.
pub fn parse_u64bes(d: &[u8], off: usize, n: usize) -> (r: Vec<u64>)
    requires
        off + 8 * n <= d@.len(),
    ensures
        r@ == s_u64be_seq(d@, off as int, n as int),
{
    let _dn = d.len();
    let mut r: Vec<u64> = Vec::new();
    let mut k: usize = 0;
    while k < n
        invariant
            off + 8 * n <= d@.len(),
            d@.len() <= usize::MAX,
            k <= n,
            r@ == s_u64be_seq(d@, off as int, k as int),
        decreases n - k,
    {
        r.push(read_u64be(d, off + 8 * k));
        k = k + 1;
        proof {
            assert(r@ =~= s_u64be_seq(d@, off as int, k as int));
        }
    }
    r
}

/// Endianness of the decoded word runs: a big-endian word carries its
/// first byte high, a little-endian word its second byte high.
pub proof fn lemma_word_endianness(d: Seq<u8>, off: int, n: int, k: int)
    requires
        0 <= k < n,
    ensures
        s_u16be_seq(d, off, n)[k] == (d[off + 2 * k] as int * 0x100 + d[off + 2 * k + 1] as int) as u16,
        s_u16le_seq(d, off, n)[k] == (d[off + 2 * k + 1] as int * 0x100 + d[off + 2 * k] as int) as u16,
{
}

} // verus!
