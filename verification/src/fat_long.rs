//! What holds of long names on FAT volumes: a name that was stored in pieces is put together
//! again, and a name with a short form has the one that it should.
use vstd::prelude::*;

use crate::bytes;
use crate::fat_dir;
use crate::fat_name;
use crate::fat_name::LfnView;

verus! {

/// Where in a piece its characters are.
pub open spec fn places() -> Seq<int> {
    seq![1, 3, 5, 7, 9, 14, 16, 18, 20, 22, 24, 28, 30]
}

/// Character `i` of the pieces of `u`: behind the name comes a zero, and behind that 0xFFFF.
pub open spec fn unit(u: Seq<u16>, i: int) -> u16 {
    if i < u.len() {
        u[i]
    } else if i == u.len() {
        0
    } else {
        0xFFFF
    }
}

/// A name that can be stored: up to 255 characters, none of them zero.
pub open spec fn storable(u: Seq<u16>) -> bool {
    1 <= u.len() <= 255 && forall|i: int| 0 <= i < u.len() ==> #[trigger] u[i] != 0
}

/// Entry `x` of a directory is a piece of a long name.
pub open spec fn is_piece(d: Seq<u8>, x: int) -> bool {
    d[32 * x] != 0 && d[32 * x] != 0xE5 && d[32 * x + 11] & 0x0F == 0x0F
}

/// Entry `x` of a directory is piece `j` of the `n` of the name `u`, for a short entry with the
/// checksum `sum`. The last piece is marked.
pub open spec fn piece_of(d: Seq<u8>, x: int, j: int, n: int, u: Seq<u16>, sum: u8) -> bool {
    &&& is_piece(d, x)
    &&& d[32 * x] == if j == n {
        0x40 + j
    } else {
        j
    }
    &&& d[32 * x + 13] == sum
    &&& forall|k: int|
        0 <= k < 13 ==> bytes::le16(d, 32 * x + #[trigger] places()[k]) == unit(
            u,
            13 * (j - 1) + k,
        )
}

/// `sum` is the checksum of the eleven bytes at `o`: each one is added to the sum so far, rotated
/// to the right by one bit.
pub open spec fn sums_to(d: Seq<u8>, o: int, sum: u8) -> bool {
    exists|t: Seq<u8>| #[trigger]
        t.len() == 12 && t[0] == 0 && t[11] == sum && forall|i: int|
            0 <= i < 11 ==> t[i + 1] == ((t[i] >> 1u8 | t[i] << 7u8) + #[trigger] d[o + i]) % 256
}

/// How many pieces a name takes, 13 characters each.
pub open spec fn pieces(u: Seq<u16>) -> int {
    (u.len() as int + 12) / 13
}

/// The entries in front of entry `x` of a directory are the pieces of `u`, the last one first,
/// and belong to entry `x`.
pub open spec fn stored(d: Seq<u8>, x: int, u: Seq<u16>, sum: u8) -> bool {
    &&& storable(u)
    &&& pieces(u) <= x
    &&& sums_to(d, 32 * x, sum)
    &&& forall|j: int| 1 <= j <= pieces(u) ==> #[trigger] piece_of(d, x - j, j, pieces(u), u, sum)
}

/// The checksum is the one that the pieces are held against.
proof fn lemma_sum(d: Seq<u8>, o: int, sum: u8)
    requires
        sums_to(d, o, sum),
    ensures
        fat_name::short_checksum(d, o, 11) == sum,
{
    let t = choose|t: Seq<u8>| #[trigger]
        t.len() == 12 && t[0] == 0 && t[11] == sum && forall|i: int|
            0 <= i < 11 ==> t[i + 1] == ((t[i] >> 1u8 | t[i] << 7u8) + #[trigger] d[o + i]) % 256;
    lemma_sums(d, o, t, 11);
}

/// The sums so far.
proof fn lemma_sums(d: Seq<u8>, o: int, t: Seq<u8>, n: int)
    requires
        0 <= n <= 11,
        t.len() == 12,
        t[0] == 0,
        forall|i: int|
            0 <= i < 11 ==> t[i + 1] == ((t[i] >> 1u8 | t[i] << 7u8) + #[trigger] d[o + i]) % 256,
    ensures
        fat_name::short_checksum(d, o, n) == t[n],
    decreases n,
{
    if n > 0 {
        lemma_sums(d, o, t, n - 1);
        let s = t[n - 1];
        assert((s >> 1u8 | s << 7u8) == s / 2 + 128 * (s % 2)) by (bit_vector);
        assert(d[o + (n - 1)] == d[o + n - 1]);
    }
}

/// The number and the mark of a piece.
proof fn lemma_order(order: u8, j: int)
    requires
        1 <= j <= 20,
    ensures
        order == j ==> order & 0x3F == j && order & 0x40 == 0,
        order == 0x40 + j ==> order & 0x3F == j && order & 0x40 != 0,
{
    assert(order <= 20 ==> order & 0x3F == order && order & 0x40 == 0) by (bit_vector);
    assert(0x40 < order <= 0x54 ==> order & 0x3F == order - 0x40 && order & 0x40 != 0)
        by (bit_vector);
}

/// What has been collected of `u` when the pieces from `m` on have been seen.
pub open spec fn so_far(l: LfnView, u: Seq<u16>, m: int, sum: u8) -> bool {
    &&& l.units.len() == 261
    &&& l.active
    &&& l.filled == 13 * pieces(u)
    &&& l.cksum == sum
    &&& forall|i: int| 13 * (m - 1) <= i < 13 * pieces(u) ==> #[trigger] l.units[i] == unit(u, i)
}

/// One more piece.
proof fn lemma_piece(l: LfnView, d: Seq<u8>, x: int, j: int, u: Seq<u16>, sum: u8)
    requires
        storable(u),
        1 <= j <= pieces(u),
        l.units.len() == 261,
        j < pieces(u) ==> so_far(l, u, j + 1, sum),
        piece_of(d, x, j, pieces(u), u, sum),
    ensures
        so_far(l.push(d, x * 32), u, j, sum),
{
    lemma_order(d[32 * x], j);
    let r = l.push(d, x * 32);
    assert(x * 32 == 32 * x);
    assert forall|i: int| 13 * (j - 1) <= i < 13 * pieces(u) implies #[trigger] r.units[i] == unit(
        u,
        i,
    ) by {
        let k = i - 13 * (j - 1);
        if k < 13 {
            assert(places()[k] == fat_name::unit_off(k));
            assert(13 * (j - 1) + k == i);
        } else {
            assert(r.units[i] == l.units[i]);
        }
    }
}

/// Where the first zero is.
proof fn lemma_zero(s: Seq<u16>, i: int, m: int, n: int)
    requires
        0 <= i <= m <= n,
        forall|x: int| i <= x < m ==> #[trigger] s[x] != 0,
        m < n ==> s[m] == 0,
    ensures
        fat_name::zero_pos(s, i, n) == m,
    decreases m - i,
{
    if i < m {
        assert(s[i] != 0);
        lemma_zero(s, i + 1, m, n);
    }
}

/// All pieces seen: the name is there.
proof fn lemma_all(l: LfnView, u: Seq<u16>, sum: u8)
    requires
        storable(u),
        so_far(l, u, 1, sum),
    ensures
        l.name() == u,
{
    let n = 13 * pieces(u);
    assert forall|x: int| 0 <= x < u.len() implies #[trigger] l.units[x] != 0 by {
        assert(l.units[x] == unit(u, x));
    }
    if u.len() < n {
        assert(l.units[u.len() as int] == unit(u, u.len() as int));
    }
    lemma_zero(l.units, 0, u.len() as int, n);
    assert(l.units.subrange(0, u.len() as int) =~= u) by {
        assert forall|x: int| 0 <= x < u.len() implies l.units[x] == u[x] by {
            assert(l.units[x] == unit(u, x));
        }
    }
}

/// What is collected when entry `x` of a directory is reached.
pub open spec fn collected(d: Seq<u8>, x: int) -> LfnView
    decreases x,
{
    if x <= 0 {
        LfnView::empty()
    } else if fat_dir::slot_kind(d, (x - 1) * 32) is LongPiece {
        collected(d, x - 1).push(d, (x - 1) * 32)
    } else {
        collected(d, x - 1).reset()
    }
}

/// There is room for the longest name.
pub proof fn lemma_room(d: Seq<u8>, x: int)
    ensures
        collected(d, x).units.len() == 261,
    decreases x,
{
    if x > 0 {
        lemma_room(d, x - 1);
    }
}

/// The pieces from `j` on collected.
proof fn lemma_from(d: Seq<u8>, x: int, j: int, u: Seq<u16>, sum: u8)
    requires
        stored(d, x, u, sum),
        1 <= j <= pieces(u),
    ensures
        so_far(collected(d, x - j + 1), u, j, sum),
    decreases pieces(u) - j,
{
    assert(piece_of(d, x - j, j, pieces(u), u, sum));
    lemma_room(d, x - j);
    if j < pieces(u) {
        lemma_from(d, x, j + 1, u, sum);
    }
    lemma_piece(collected(d, x - j), d, x - j, j, u, sum);
    assert(fat_dir::slot_kind(d, (x - j) * 32) is LongPiece);
}

/// Law: a long name reads back. Where the entries in front of a file or directory are the pieces
/// of a name of 1 to 255 characters that are not zero, then what has been collected when the
/// entry is reached belongs to it and is that name, whatever stands before the pieces.
pub proof fn law_long_name_reads_back(d: Seq<u8>, x: int, u: Seq<u16>, sum: u8)
    requires
        stored(d, x, u, sum),
    ensures
        collected(d, x).active,
        collected(d, x).belongs(d, x * 32),
        collected(d, x).name() == u,
{
    lemma_from(d, x, 1, u, sum);
    lemma_all(collected(d, x), u, sum);
    lemma_sum(d, 32 * x, sum);
}

/// Law: where no piece is in front of an entry, it has no long name.
pub proof fn law_no_piece_no_long_name(d: Seq<u8>, x: int)
    requires
        x > 0 ==> !is_piece(d, x - 1),
    ensures
        !collected(d, x).active,
        collected(d, x).name() == Seq::<u16>::empty(),
{
}

/// A letter in upper case; everything else as it is.
pub open spec fn capital(c: u8) -> u8 {
    if c == 0x61 || 0x61 < c < 0x7A || c == 0x7A {
        (c - 32) as u8
    } else {
        c
    }
}

/// Law: the short form of a name is what stands before its last dot, filled with spaces up to
/// eight bytes, then what stands behind it, filled up to three, in capitals. A name whose parts
/// do not fit has none.
pub proof fn law_short_form(name: Seq<u8>, dot: int)
    requires
        0 <= dot <= name.len(),
        dot < name.len() ==> name[dot] == 0x2E,
        forall|i: int| dot < i < name.len() ==> #[trigger] name[i] != 0x2E,
        dot == name.len() ==> !name.contains(0x2E),
    ensures
        fat_name::short_name(name) is Some <==> dot <= 8 && name.len() - dot <= 4,
        fat_name::short_name(name) matches Some(sn) ==> {
            &&& sn.len() == 11
            &&& forall|i: int|
                0 <= i < 8 ==> #[trigger] sn[i] == if i < dot {
                    capital(name[i])
                } else {
                    0x20
                }
            &&& forall|i: int|
                8 <= i < 11 ==> #[trigger] sn[i] == if dot + 1 + (i - 8) < name.len() {
                    capital(name[dot + 1 + (i - 8)])
                } else {
                    0x20
                }
        },
{
    let n = name.len() as int;
    fat_name::lemma_last_dot(name, n);
    let d = fat_name::last_dot(name, n);
    if dot < n {
        if d < dot {
            assert(name[dot] != 0x2E);
        } else if d > dot {
            assert(name[d] != 0x2E);
        }
        assert(d == dot);
    } else {
        if d >= 0 {
            assert(name[d] == 0x2E);
        }
        assert(d == -1);
    }
}

/// The place of character `i` of a name among its bytes in UTF-8: it takes one byte below 0x80,
/// two below 0x800, else three.
pub open spec fn takes(u: u16) -> int {
    if u < 0x80 {
        1
    } else if u < 0x800 {
        2
    } else {
        3
    }
}

/// The bytes at `p` are the character `u` in UTF-8.
pub open spec fn encodes(t: Seq<u8>, p: int, u: u16) -> bool {
    if u < 0x80 {
        t[p] == u
    } else if u < 0x800 {
        &&& 0xC0 <= t[p] < 0xE0
        &&& 0x80 <= t[p + 1] < 0xC0
        &&& (t[p] - 0xC0) * 64 + (t[p + 1] - 0x80) == u
    } else {
        &&& 0xE0 <= t[p] < 0xF0
        &&& 0x80 <= t[p + 1] < 0xC0
        &&& 0x80 <= t[p + 2] < 0xC0
        &&& (t[p] - 0xE0) * 4096 + (t[p + 1] - 0x80) * 64 + (t[p + 2] - 0x80) == u
    }
}

/// A character that is shown as it is: no control character and no half of a pair.
pub open spec fn shown(u: u16) -> bool {
    0x20 <= u && u != 0x7F && !(0x80 <= u < 0xA0) && !(0xD800 <= u < 0xE000)
}

/// Where the characters start.
pub open spec fn starts(u: Seq<u16>, at: Seq<int>) -> bool {
    &&& at.len() == u.len() + 1
    &&& at[0] == 0
    &&& forall|i: int| 0 <= i < u.len() ==> #[trigger] at[i + 1] == at[i] + takes(u[i])
}

/// The characters from `i` on.
proof fn lemma_utf8(u: Seq<u16>, at: Seq<int>, i: int, out: Seq<u8>)
    requires
        0 <= i <= u.len(),
        forall|x: int| 0 <= x < u.len() ==> shown(#[trigger] u[x]),
        starts(u, at),
        at[u.len() as int] <= 64,
        out.len() == at[i],
        forall|x: int| 0 <= x < i ==> 0 <= #[trigger] at[x] && at[x] + takes(u[x]) <= out.len()
            && encodes(out, at[x], u[x]),
    ensures
        ({
            let t = fat_name::utf8_cut(u, i, out);
            &&& t.len() == at[u.len() as int]
            &&& forall|x: int| 0 <= x < u.len() ==> encodes(t, #[trigger] at[x], u[x])
        }),
    decreases u.len() - i,
{
    if i < u.len() {
        let c = u[i];
        assert(shown(c));
        assert(at[i + 1] == at[i] + takes(u[i]));
        lemma_grows(u, at, i + 1);
        let e = fat_name::utf8_of(c);
        let out2 = out + e;
        assert(e.len() == takes(c));
        assert(encodes(out2, at[i], c)) by {
            assert(out2[at[i]] == e[0]);
            if takes(c) >= 2 {
                assert(out2[at[i] + 1] == e[1]);
            }
            if takes(c) == 3 {
                assert(out2[at[i] + 2] == e[2]);
            }
        }
        assert forall|x: int| 0 <= x < i + 1 implies 0 <= #[trigger] at[x] && at[x] + takes(u[x])
            <= out2.len() && encodes(out2, at[x], u[x]) by {
            if x < i {
                assert(encodes(out, at[x], u[x]));
            }
        }
        lemma_utf8(u, at, i + 1, out2);
    }
}

/// The starts grow.
proof fn lemma_grows(u: Seq<u16>, at: Seq<int>, i: int)
    requires
        0 <= i <= u.len(),
        starts(u, at),
    ensures
        at[i] <= at[u.len() as int],
    decreases u.len() - i,
{
    if i < u.len() {
        lemma_grows(u, at, i + 1);
        assert(at[i + 1] == at[i] + takes(u[i]));
    }
}

/// Law: a name is shown in UTF-8, which decodes to its characters, where it has no control
/// characters and no halves of pairs and fits 64 bytes.
pub proof fn law_shown_in_utf8(u: Seq<u16>, at: Seq<int>)
    requires
        forall|x: int| 0 <= x < u.len() ==> shown(#[trigger] u[x]),
        starts(u, at),
        at[u.len() as int] <= 64,
    ensures
        ({
            let t = fat_name::utf8_cut(u, 0, Seq::empty());
            &&& t.len() == at[u.len() as int]
            &&& forall|x: int| 0 <= x < u.len() ==> encodes(t, #[trigger] at[x], u[x])
        }),
{
    lemma_utf8(u, at, 0, Seq::empty());
}

} // verus!
