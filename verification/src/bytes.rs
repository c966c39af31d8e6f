//! Little-endian fields and byte-range edits on buffers.
use vstd::prelude::*;

verus! {

/// The 16-bit little-endian integer stored at `off`.
pub open spec fn le16(s: Seq<u8>, off: int) -> u16 {
    (s[off] + 0x100 * s[off + 1]) as u16
}

/// The 32-bit little-endian integer stored at `off`.
pub open spec fn le32(s: Seq<u8>, off: int) -> u32 {
    (s[off] + 0x100 * s[off + 1] + 0x1_0000 * s[off + 2] + 0x100_0000 * s[off + 3]) as u32
}

/// The 64-bit little-endian integer stored at `off`.
pub open spec fn le64(s: Seq<u8>, off: int) -> u64 {
    (le32(s, off) + 0x1_0000_0000 * le32(s, off + 4)) as u64
}

/// `s` with the bytes from `at` on replaced by `b`.
pub open spec fn splice(s: Seq<u8>, at: int, b: Seq<u8>) -> Seq<u8> {
    Seq::new(s.len(), |i: int| if at <= i < at + b.len() { b[i - at] } else { s[i] })
}

/// `n` zero bytes.
pub open spec fn zeros(n: int) -> Seq<u8> {
    Seq::new(n as nat, |i: int| 0u8)
}

/// The two bytes of `v`, least significant first.
pub open spec fn bytes16(v: u16) -> Seq<u8> {
    seq![(v % 0x100) as u8, (v / 0x100) as u8]
}

/// The four bytes of `v`, least significant first.
pub open spec fn bytes32(v: u32) -> Seq<u8> {
    seq![
        (v % 0x100) as u8,
        (v / 0x100 % 0x100) as u8,
        (v / 0x1_0000 % 0x100) as u8,
        (v / 0x100_0000) as u8,
    ]
}

/// The eight bytes of `v`, least significant first.
pub open spec fn bytes64(v: u64) -> Seq<u8> {
    bytes32((v % 0x1_0000_0000) as u32) + bytes32((v / 0x1_0000_0000) as u32)
}

/// `s` with `v` stored at `off` as a 16-bit field.
pub open spec fn put16(s: Seq<u8>, off: int, v: u16) -> Seq<u8> {
    splice(s, off, bytes16(v))
}

/// `s` with `v` stored at `off` as a 32-bit field.
pub open spec fn put32(s: Seq<u8>, off: int, v: u32) -> Seq<u8> {
    splice(s, off, bytes32(v))
}

/// `s` with `v` stored at `off` as a 64-bit field.
pub open spec fn put64(s: Seq<u8>, off: int, v: u64) -> Seq<u8> {
    splice(s, off, bytes64(v))
}

/// The bytes that an optional buffer holds.
pub open spec fn opt(v: Option<Vec<u8>>) -> Option<Seq<u8>> {
    match v {
        Some(b) => Some(b@),
        None => None,
    }
}

/// The byte strings that a vector of buffers holds.
pub open spec fn deep(v: Seq<Vec<u8>>) -> Seq<Seq<u8>> {
    Seq::new(v.len(), |i: int| v[i]@)
}

/// The remainder of `x` modulo 2^32: the value a wrapping 32-bit computation of
/// `x` leaves.
pub open spec fn w32(x: int) -> u32 {
    (x % 0x1_0000_0000) as u32
}

/// Law: a 16-bit field reads back as it was stored, whatever stood there.
pub proof fn law_put16_reads_back(s: Seq<u8>, off: int, v: u16)
    requires
        0 <= off,
        off + 2 <= s.len(),
    ensures
        le16(put16(s, off, v), off) == v,
{
}

/// Law: a 32-bit field reads back as it was stored.
pub proof fn law_put32_reads_back(s: Seq<u8>, off: int, v: u32)
    requires
        0 <= off,
        off + 4 <= s.len(),
    ensures
        le32(put32(s, off, v), off) == v,
{
}

/// Law: a 64-bit field reads back as it was stored.
pub proof fn law_put64_reads_back(s: Seq<u8>, off: int, v: u64)
    requires
        0 <= off,
        off + 8 <= s.len(),
    ensures
        le64(put64(s, off, v), off) == v,
{
    let t = put64(s, off, v);
    let lo = (v % 0x1_0000_0000) as u32;
    let hi = (v / 0x1_0000_0000) as u32;
    assert(t =~= put32(put32(s, off, lo), off + 4, hi)) by {
        assert(bytes64(v).len() == 8);
    }
    law_put32_reads_back(put32(s, off, lo), off + 4, hi);
    law_put32_reads_back(s, off, lo);
    assert(le32(t, off) == le32(put32(s, off, lo), off));
}

/// Law: storing a field leaves every byte outside it as it was.
pub proof fn law_splice_frame(s: Seq<u8>, at: int, b: Seq<u8>, i: int)
    requires
        0 <= i < s.len(),
        i < at || at + b.len() <= i,
    ensures
        splice(s, at, b)[i] == s[i],
        splice(s, at, b).len() == s.len(),
{
}

/// Reads the 16-bit little-endian field at `off`.
pub fn read_u16(buf: &[u8], off: usize) -> (r: u16)
    requires
        off + 2 <= buf.len(),
    ensures
        r == le16(buf@, off as int),
{
    buf[off] as u16 + 0x100 * (buf[off + 1] as u16)
}

/// Reads the 32-bit little-endian field at `off`.
pub fn read_u32(buf: &[u8], off: usize) -> (r: u32)
    requires
        off + 4 <= buf.len(),
    ensures
        r == le32(buf@, off as int),
{
    buf[off] as u32 + 0x100 * (buf[off + 1] as u32) + 0x1_0000 * (buf[off + 2] as u32) + 0x100_0000
        * (buf[off + 3] as u32)
}

/// Reads the 64-bit little-endian field at `off`.
pub fn read_u64(buf: &[u8], off: usize) -> (r: u64)
    requires
        off + 8 <= buf.len(),
    ensures
        r == le64(buf@, off as int),
{
    let lo: u32 = read_u32(buf, off);
    let hi: u32 = read_u32(buf, off + 4);
    lo as u64 + 0x1_0000_0000 * (hi as u64)
}

/// Stores `v` at `off` as a 16-bit little-endian field.
pub fn write_u16(buf: &mut Vec<u8>, off: usize, v: u16)
    requires
        off + 2 <= old(buf).len(),
    ensures
        final(buf)@ == put16(old(buf)@, off as int, v),
{
    buf.set(off, (v % 0x100) as u8);
    buf.set(off + 1, (v / 0x100) as u8);
}

/// Stores `v` at `off` as a 32-bit little-endian field.
pub fn write_u32(buf: &mut Vec<u8>, off: usize, v: u32)
    requires
        off + 4 <= old(buf).len(),
    ensures
        final(buf)@ == put32(old(buf)@, off as int, v),
{
    buf.set(off, (v % 0x100) as u8);
    buf.set(off + 1, (v / 0x100 % 0x100) as u8);
    buf.set(off + 2, (v / 0x1_0000 % 0x100) as u8);
    buf.set(off + 3, (v / 0x100_0000) as u8);
}

/// Stores `v` at `off` as a 64-bit little-endian field.
pub fn write_u64(buf: &mut Vec<u8>, off: usize, v: u64)
    requires
        off + 8 <= old(buf).len(),
    ensures
        final(buf)@ == put64(old(buf)@, off as int, v),
{
    write_u32(buf, off, (v % 0x1_0000_0000) as u32);
    write_u32(buf, off + 4, (v / 0x1_0000_0000) as u32);
    assert(buf@ =~= put64(old(buf)@, off as int, v));
}

/// Copies `src[from..from + n]` over `dst[at..at + n]`.
pub fn copy_into(dst: &mut Vec<u8>, at: usize, src: &[u8], from: usize, n: usize)
    requires
        at + n <= old(dst).len(),
        from + n <= src.len(),
    ensures
        final(dst)@ == splice(old(dst)@, at as int, src@.subrange(from as int, from + n)),
{
    let mut i: usize = 0;
    while i < n
        invariant
            i <= n,
            at + n <= dst.len(),
            from + n <= src.len(),
            dst@ == splice(old(dst)@, at as int, src@.subrange(from as int, from + i)),
        decreases n - i,
    {
        dst.set(at + i, src[from + i]);
        i = i + 1;
        assert(dst@ =~= splice(old(dst)@, at as int, src@.subrange(from as int, from + i)));
    }
    assert(dst@ =~= splice(old(dst)@, at as int, src@.subrange(from as int, from + n)));
}

/// Clears `len` bytes from `at` on.
pub fn zero_bytes(buf: &mut Vec<u8>, at: usize, len: usize)
    requires
        at + len <= old(buf).len(),
    ensures
        final(buf)@ == splice(old(buf)@, at as int, zeros(len as int)),
{
    let mut i: usize = 0;
    while i < len
        invariant
            i <= len,
            at + len <= buf.len(),
            buf@ == splice(old(buf)@, at as int, zeros(i as int)),
        decreases len - i,
    {
        buf.set(at + i, 0);
        i = i + 1;
        assert(buf@ =~= splice(old(buf)@, at as int, zeros(i as int)));
    }
    assert(buf@ =~= splice(old(buf)@, at as int, zeros(len as int)));
}

/// A fresh buffer of `n` zero bytes.
pub fn zero_vec(n: usize) -> (r: Vec<u8>)
    ensures
        r@ == zeros(n as int),
{
    let r: Vec<u8> = vec![0u8; n];
    assert(r@ =~= zeros(n as int));
    r
}

/// A copy of `src[from..to]`.
pub fn slice_copy(src: &[u8], from: usize, to: usize) -> (r: Vec<u8>)
    requires
        from <= to <= src.len(),
    ensures
        r@ == src@.subrange(from as int, to as int),
{
    vstd::slice::slice_to_vec(vstd::slice::slice_subrange(src, from, to))
}

/// Whether two byte strings are equal.
pub fn bytes_eq(a: &[u8], b: &[u8]) -> (r: bool)
    ensures
        r == (a@ == b@),
{
    if a.len() != b.len() {
        return false;
    }
    let mut i: usize = 0;
    while i < a.len()
        invariant
            i <= a@.len(),
            a@.len() == b@.len(),
            forall|j: int| 0 <= j < i ==> a@[j] == b@[j],
        decreases a@.len() - i,
    {
        if a[i] != b[i] {
            return false;
        }
        i = i + 1;
    }
    assert(a@ =~= b@);
    true
}

/// Upper case of an ASCII letter, every other byte as it is.
pub open spec fn upper(c: u8) -> u8 {
    if 0x61 <= c <= 0x7A {
        (c - 0x20) as u8
    } else {
        c
    }
}

/// Upper case of an ASCII letter, every other byte as it is.
pub fn ascii_upper(c: u8) -> (r: u8)
    ensures
        r == upper(c),
{
    if 0x61 <= c && c <= 0x7A {
        c - 0x20
    } else {
        c
    }
}

/// Whether two names are equal up to the case of ASCII letters.
pub open spec fn same_ignoring_case(a: Seq<u8>, b: Seq<u8>) -> bool {
    a.len() == b.len() && forall|i: int| 0 <= i < a.len() ==> upper(#[trigger] a[i]) == upper(b[i])
}

/// Compares two names, exactly or (`ci`) ignoring the case of ASCII letters.
pub fn name_eq(a: &[u8], b: &[u8], ci: bool) -> (r: bool)
    ensures
        r == if ci { same_ignoring_case(a@, b@) } else { a@ == b@ },
{
    if a.len() != b.len() {
        return false;
    }
    let mut i: usize = 0;
    while i < a.len()
        invariant
            i <= a@.len(),
            a@.len() == b@.len(),
            forall|j: int|
                0 <= j < i ==> #[trigger] a@[j] == b@[j] || (ci && upper(a@[j]) == upper(b@[j])),
        decreases a@.len() - i,
    {
        if !(a[i] == b[i] || (ci && ascii_upper(a[i]) == ascii_upper(b[i]))) {
            assert(a@[i as int] != b@[i as int]);
            return false;
        }
        i = i + 1;
    }
    if !ci {
        assert(a@ =~= b@);
    }
    true
}

/// 2 to the power `j`, for a bit number.
pub open spec fn pow2_of(j: int) -> int {
    if j == 0 {
        1
    } else if j == 1 {
        2
    } else if j == 2 {
        4
    } else if j == 3 {
        8
    } else if j == 4 {
        16
    } else if j == 5 {
        32
    } else if j == 6 {
        64
    } else {
        128
    }
}

/// Bit `j` of a byte.
pub open spec fn bit_at(b: u8, j: int) -> bool {
    b as int / pow2_of(j) % 2 == 1
}

/// A byte with bit `j` set to `v`.
pub open spec fn with_bit(b: u8, j: int, v: bool) -> u8 {
    if bit_at(b, j) == v {
        b
    } else if v {
        (b + pow2_of(j)) as u8
    } else {
        (b - pow2_of(j)) as u8
    }
}

/// The bits of a byte, the lowest first.
pub open spec fn bits_of(b: u8) -> Seq<bool> {
    Seq::new(8, |k: int| bit_at(b, k))
}

/// 1 for a bit that is set.
pub open spec fn one_if(v: bool) -> int {
    if v {
        1
    } else {
        0
    }
}

/// The number with the given bits.
pub open spec fn from_bits(s: Seq<bool>) -> int {
    one_if(s[0]) + 2 * one_if(s[1]) + 4 * one_if(s[2]) + 8 * one_if(s[3]) + 16 * one_if(s[4]) + 32
        * one_if(s[5]) + 64 * one_if(s[6]) + 128 * one_if(s[7])
}

/// A byte is the number with its bits.
proof fn lemma_from_bits_of(b: u8)
    ensures
        from_bits(bits_of(b)) == b,
{
    lemma_bits_of(b as int);
}

/// The bits of the number with given bits.
proof fn lemma_bits_of_from(s: Seq<bool>)
    requires
        s.len() == 8,
    ensures
        0 <= from_bits(s) <= 255,
        bits_of(from_bits(s) as u8) =~= s,
{
    lemma_byte_bits(
        one_if(s[0]),
        one_if(s[1]),
        one_if(s[2]),
        one_if(s[3]),
        one_if(s[4]),
        one_if(s[5]),
        one_if(s[6]),
        one_if(s[7]),
    );
}

/// A bit set in a byte is that bit set among its bits.
proof fn lemma_with_bit(b: u8, j: int, v: bool)
    requires
        0 <= j < 8,
    ensures
        with_bit(b, j, v) as int == from_bits(bits_of(b).update(j, v)),
{
    lemma_from_bits_of(b);
    let s = bits_of(b);
    let t = s.update(j, v);
    assert(s[j] == bit_at(b, j));
    if s[j] == v {
        assert(t =~= s);
    } else if v {
        assert(from_bits(t) == from_bits(s) + pow2_of(j));
    } else {
        assert(from_bits(t) == from_bits(s) - pow2_of(j));
    }
    lemma_bits_of_from(t);
}

/// Law: a bit reads back as it was set, and the others stay.
pub proof fn law_bit_reads_back(b: u8, j: int, v: bool, k: int)
    requires
        0 <= j < 8,
        0 <= k < 8,
    ensures
        bit_at(with_bit(b, j, v), j) == v,
        k != j ==> bit_at(with_bit(b, j, v), k) == bit_at(b, k),
{
    let t = bits_of(b).update(j, v);
    lemma_with_bit(b, j, v);
    lemma_bits_of_from(t);
    assert(bits_of(with_bit(b, j, v))[j] == v);
    assert(bits_of(with_bit(b, j, v))[k] == t[k]);
}

/// Each bit of a number from 0 to 255 is found by division.
pub proof fn lemma_byte_bits(
    b0: int,
    b1: int,
    b2: int,
    b3: int,
    b4: int,
    b5: int,
    b6: int,
    b7: int,
)
    requires
        0 <= b0 <= 1,
        0 <= b1 <= 1,
        0 <= b2 <= 1,
        0 <= b3 <= 1,
        0 <= b4 <= 1,
        0 <= b5 <= 1,
        0 <= b6 <= 1,
        0 <= b7 <= 1,
    ensures
        ({
            let v = b0 + 2 * b1 + 4 * b2 + 8 * b3 + 16 * b4 + 32 * b5 + 64 * b6 + 128 * b7;
            &&& 0 <= v <= 255
            &&& v % 2 == b0
            &&& (v / 2) % 2 == b1
            &&& (v / 4) % 2 == b2
            &&& (v / 8) % 2 == b3
            &&& (v / 16) % 2 == b4
            &&& (v / 32) % 2 == b5
            &&& (v / 64) % 2 == b6
            &&& (v / 128) % 2 == b7
        }),
{
    let v7 = b7;
    let v6 = b6 + 2 * v7;
    let v5 = b5 + 2 * v6;
    let v4 = b4 + 2 * v5;
    let v3 = b3 + 2 * v4;
    let v2 = b2 + 2 * v3;
    let v1 = b1 + 2 * v2;
    let v = b0 + 2 * v1;
    assert(v / 2 == v1 && v % 2 == b0);
    assert(v1 / 2 == v2 && v1 % 2 == b1);
    assert(v2 / 2 == v3 && v2 % 2 == b2);
    assert(v3 / 2 == v4 && v3 % 2 == b3);
    assert(v4 / 2 == v5 && v4 % 2 == b4);
    assert(v5 / 2 == v6 && v5 % 2 == b5);
    assert(v6 / 2 == v7 && v6 % 2 == b6);
    assert(v / 4 == v2);
    assert(v / 8 == v3);
    assert(v / 16 == v4);
    assert(v / 32 == v5);
    assert(v / 64 == v6);
    assert(v / 128 == v7);
}

/// A number from 0 to 255 is the sum of its bits.
proof fn lemma_bits_of(x: int)
    requires
        0 <= x <= 255,
    ensures
        x == x % 2 + 2 * (x / 2 % 2) + 4 * (x / 4 % 2) + 8 * (x / 8 % 2) + 16 * (x / 16 % 2) + 32
            * (x / 32 % 2) + 64 * (x / 64 % 2) + 128 * (x / 128 % 2),
{
    let x1 = x / 2;
    let x2 = x1 / 2;
    let x3 = x2 / 2;
    let x4 = x3 / 2;
    let x5 = x4 / 2;
    let x6 = x5 / 2;
    let x7 = x6 / 2;
    assert(x2 == x / 4);
    assert(x3 == x / 8);
    assert(x4 == x / 16);
    assert(x5 == x / 32);
    assert(x6 == x / 64);
    assert(x7 == x / 128);
    assert(x7 % 2 == x7);
}

/// 2 to the power `j`, for a bit number.
fn power(j: usize) -> (r: u8)
    requires
        j < 8,
    ensures
        r == pow2_of(j as int),
{
    if j == 0 {
        1
    } else if j == 1 {
        2
    } else if j == 2 {
        4
    } else if j == 3 {
        8
    } else if j == 4 {
        16
    } else if j == 5 {
        32
    } else if j == 6 {
        64
    } else {
        128
    }
}

/// Bit `j` of a byte.
pub fn get_bit(b: u8, j: usize) -> (r: bool)
    requires
        j < 8,
    ensures
        r == bit_at(b, j as int),
{
    b / power(j) % 2 == 1
}

/// A byte with bit `j` set to `v`.
pub fn set_bit(b: u8, j: usize, v: bool) -> (r: u8)
    requires
        j < 8,
    ensures
        r == with_bit(b, j as int, v),
{
    if get_bit(b, j) == v {
        b
    } else if v {
        proof {
            lemma_clear_bit(b, j as int);
        }
        b + power(j)
    } else {
        proof {
            lemma_set_bit(b, j as int);
        }
        b - power(j)
    }
}

/// A byte with a bit set is at least that bit.
proof fn lemma_set_bit(b: u8, j: int)
    requires
        0 <= j < 8,
        bit_at(b, j),
    ensures
        b >= pow2_of(j),
{
    assert(b as int / pow2_of(j) >= 1);
}

/// There is room in a byte for a bit that is not set.
proof fn lemma_clear_bit(b: u8, j: int)
    requires
        0 <= j < 8,
        !bit_at(b, j),
    ensures
        b + pow2_of(j) <= 255,
{
}

} // verus!
