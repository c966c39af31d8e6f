//! What holds of directory sets on exFAT volumes: a set reads back as it was built, and a file
//! is found by its name after its set was written anew.
use vstd::prelude::*;

use crate::bytes;
use crate::calendar;
use crate::exfat::{ExfatView, EXFAT_TYPE_FILE, EXFAT_TYPE_NAME, EXFAT_TYPE_STREAM};
use crate::exfat_dir;
use crate::exfat_dir::EntryView;
use crate::exfat_file;
use crate::exfat_laws;
use crate::exfat_laws::{data_of, entry, linked, valid, vol_ok};
use crate::exfat_write;
use crate::tmpfs;
use crate::vfs::DIR_LONG_MAX;

verus! {

/// UTF-8 of the units from `k` on.
pub open spec fn encoded(units: Seq<u16>, k: int) -> Seq<u8>
    decreases units.len() - k,
{
    if k >= units.len() {
        Seq::empty()
    } else {
        exfat_dir::utf8_of(units[k]) + encoded(units, k + 1)
    }
}

/// A byte that goes on a character.
pub open spec fn goes_on(b: u8) -> bool {
    b / 64 == 2
}

/// Well-formed UTF-8 of characters of the first plane, from byte `i` on.
pub open spec fn is_utf8(n: Seq<u8>, i: int) -> bool
    decreases n.len() - i,
{
    if i >= n.len() {
        i == n.len()
    } else if n[i] < 0x80 {
        is_utf8(n, i + 1)
    } else if n[i] / 32 == 6 {
        i + 1 < n.len() && goes_on(n[i + 1]) && n[i] % 32 >= 2 && is_utf8(n, i + 2)
    } else if n[i] / 16 == 14 {
        i + 2 < n.len() && goes_on(n[i + 1]) && goes_on(n[i + 2]) && n[i] % 16 * 64 + n[i + 1] % 64
            >= 32 && is_utf8(n, i + 3)
    } else {
        false
    }
}

/// The unit of the character at byte `i`, and its length in UTF-8.
pub open spec fn char_at(n: Seq<u8>, i: int) -> (u16, int) {
    if n[i] < 0x80 {
        (n[i] as u16, 1)
    } else if n[i] / 32 == 6 {
        ((n[i] % 32 * 64 + n[i + 1] % 64) as u16, 2)
    } else {
        ((n[i] % 16 * 4096 + n[i + 1] % 64 * 64 + n[i + 2] % 64) as u16, 3)
    }
}

/// A well-formed character is encoded as it was.
proof fn lemma_char(n: Seq<u8>, i: int)
    requires
        0 <= i < n.len(),
        is_utf8(n, i),
    ensures
        i + char_at(n, i).1 <= n.len(),
        is_utf8(n, i + char_at(n, i).1),
        exfat_dir::utf8_of(char_at(n, i).0) == n.subrange(i, i + char_at(n, i).1),
{
    let (c, step) = char_at(n, i);
    if n[i] >= 0x80 && n[i] / 32 == 6 {
        assert(c == n[i] % 32 * 64 + n[i + 1] % 64);
        assert(0x80 <= c < 0x800);
    } else if n[i] >= 0x80 {
        assert(c == n[i] % 16 * 4096 + n[i + 1] % 64 * 64 + n[i + 2] % 64);
        assert(0x800 <= c);
    }
    assert(exfat_dir::utf8_of(c) =~= n.subrange(i, i + step));
}

/// The units of a well-formed name are encoded as the name.
proof fn lemma_units(n: Seq<u8>, i: int, out: Seq<u16>)
    requires
        0 <= i <= n.len(),
        is_utf8(n, i),
        out.len() <= 255,
        exfat_dir::units_from(n, i, out) is Some,
    ensures
        ({
            let u = exfat_dir::units_from(n, i, out)->Some_0;
            &&& out.len() <= u.len() <= 255
            &&& u.len() > 0
            &&& forall|j: int| 0 <= j < out.len() ==> #[trigger] u[j] == out[j]
            &&& encoded(u, out.len() as int) == n.subrange(i, n.len() as int)
        }),
    decreases n.len() - i,
{
    let u = exfat_dir::units_from(n, i, out)->Some_0;
    let k = out.len() as int;
    if i >= n.len() {
        assert(n.subrange(i, n.len() as int) =~= Seq::empty());
    } else {
        let (c, step) = char_at(n, i);
        lemma_char(n, i);
        let next = out.push(c);
        assert(exfat_dir::units_from(n, i, out) == exfat_dir::units_from(n, i + step, next));
        lemma_units(n, i + step, next);
        assert(u[k] == next[k]);
        assert(n.subrange(i, i + step) + n.subrange(i + step, n.len() as int) =~= n.subrange(
            i,
            n.len() as int,
        ));
        assert forall|j: int| 0 <= j < out.len() implies #[trigger] u[j] == out[j] by {
            assert(next[j] == out[j]);
        }
    }
}

/// What the head of a set says.
pub open spec fn head_says(h: Seq<u8>, e: EntryView, units: int) -> bool {
    &&& h[0] == EXFAT_TYPE_FILE
    &&& h[1] == 1 + (units + 14) / 15
    &&& (bytes::le16(h, 4) / 16 % 2 == 1) == e.is_dir
    &&& bytes::le32(h, 12) == calendar::stamp_of(e.mtime).0
    &&& h[21] == calendar::stamp_of(e.mtime).1
    &&& h[32] == EXFAT_TYPE_STREAM
    &&& (h[33] / 2 % 2 == 1) == e.contiguous
    &&& h[35] == units
    &&& bytes::le64(h, 40) == e.valid
    &&& bytes::le32(h, 52) == e.first
    &&& bytes::le64(h, 56) == e.size
}

/// The head of a set reads back.
proof fn lemma_head(b: Seq<u8>, e: EntryView, units: int, hash: u16)
    requires
        b.len() >= 96,
        0 < units <= 255,
    ensures
        exfat_dir::set_head(b, e, units, hash).len() == b.len(),
        head_says(exfat_dir::set_head(b, e, units, hash), e, units),
{
    let (ts, hu) = calendar::stamp_of(e.mtime);
    let attr: u16 = if e.is_dir {
        exfat_dir::EXFAT_ATTR_DIR
    } else {
        exfat_dir::EXFAT_ATTR_ARCHIVE
    };
    let b0 = b.update(0, EXFAT_TYPE_FILE).update(1, (1 + (units + 14) / 15) as u8);
    let b1 = bytes::put16(b0, 4, attr);
    bytes::law_put16_reads_back(b0, 4, attr);
    let b2 = bytes::put32(b1, 8, ts);
    let b3 = bytes::put32(b2, 12, ts);
    bytes::law_put32_reads_back(b2, 12, ts);
    let b4 = bytes::put32(b3, 16, ts);
    let b5 = b4.update(20, hu).update(21, hu);
    let flag: u8 = if e.contiguous {
        3
    } else {
        1
    };
    let b6 = b5.update(32, EXFAT_TYPE_STREAM).update(33, flag).update(35, units as u8);
    let b7 = bytes::put16(b6, 36, hash);
    let b8 = bytes::put64(b7, 40, e.valid);
    bytes::law_put64_reads_back(b7, 40, e.valid);
    let b9 = bytes::put32(b8, 52, e.first);
    bytes::law_put32_reads_back(b8, 52, e.first);
    let h = bytes::put64(b9, 56, e.size);
    bytes::law_put64_reads_back(b9, 56, e.size);
    assert(h == exfat_dir::set_head(b, e, units, hash));
    assert(h[0] == b0[0] && h[1] == b0[1]);
    assert(h[4] == b1[4] && h[5] == b1[5]);
    assert(h[12] == b3[12] && h[13] == b3[13] && h[14] == b3[14] && h[15] == b3[15]);
    assert(h[21] == b5[21]);
    assert(h[32] == b6[32] && h[33] == b6[33] && h[35] == b6[35]);
    assert(h[40] == b8[40] && h[41] == b8[41] && h[42] == b8[42] && h[43] == b8[43]);
    assert(h[44] == b8[44] && h[45] == b8[45] && h[46] == b8[46] && h[47] == b8[47]);
    assert(h[52] == b9[52] && h[53] == b9[53] && h[54] == b9[54] && h[55] == b9[55]);
}

/// The name entries of a set read back.
proof fn lemma_put_units(b: Seq<u8>, units: Seq<u16>, k: int)
    requires
        0 <= k <= units.len(),
        b.len() == (2 + (units.len() + 14) / 15) * 32,
    ensures
        exfat_dir::put_units(b, units, k).len() == b.len(),
        forall|p: int| 0 <= p < 64 ==> #[trigger] exfat_dir::put_units(b, units, k)[p] == b[p],
        forall|j: int|
            0 <= j < units.len() ==> #[trigger] exfat_dir::unit_at(
                exfat_dir::put_units(b, units, k),
                64,
                j,
            ) == if j < k {
                exfat_dir::unit_at(b, 64, j)
            } else {
                units[j]
            },
    decreases units.len() - k,
{
    if k < units.len() {
        let o = (2 + k / 15) * 32;
        let c = b.update(o, EXFAT_TYPE_NAME);
        let at = o + 2 + k % 15 * 2;
        let d = bytes::put16(c, at, units[k]);
        assert(at + 2 <= b.len());
        bytes::law_put16_reads_back(c, at, units[k]);
        lemma_put_units(d, units, k + 1);
        let r = exfat_dir::put_units(d, units, k + 1);
        assert forall|j: int| 0 <= j < units.len() implies #[trigger] exfat_dir::unit_at(r, 64, j)
            == if j < k {
            exfat_dir::unit_at(b, 64, j)
        } else {
            units[j]
        } by {
            if j <= k {
                assert(exfat_dir::unit_at(r, 64, j) == exfat_dir::unit_at(d, 64, j));
                if j < k {
                    let p = 64 + j / 15 * 32 + 2 + j % 15 * 2;
                    assert(p + 2 <= at);
                    assert(p + 1 < b.len());
                    assert(p != o && p + 1 != o);
                    assert(d[p] == b[p] && d[p + 1] == b[p + 1]);
                }
            }
        }
    }
}

/// The type of entry `q` of a set.
pub open spec fn type_at(b: Seq<u8>, q: int) -> u8 {
    b[q * 32]
}

/// The types of the name entries of a set.
proof fn lemma_put_types(b: Seq<u8>, units: Seq<u16>, k: int)
    requires
        0 <= k <= units.len(),
        b.len() == (2 + (units.len() + 14) / 15) * 32,
    ensures
        forall|q: int|
            2 <= q < 2 + (units.len() + 14) / 15 ==> #[trigger] type_at(
                exfat_dir::put_units(b, units, k),
                q,
            ) == if (q - 2) * 15 + 14 < k || k >= units.len() {
                type_at(b, q)
            } else {
                EXFAT_TYPE_NAME
            },
    decreases units.len() - k,
{
    if k < units.len() {
        let o = (2 + k / 15) * 32;
        let c = b.update(o, EXFAT_TYPE_NAME);
        let at = o + 2 + k % 15 * 2;
        let d = bytes::put16(c, at, units[k]);
        assert(at + 2 <= b.len());
        lemma_put_types(d, units, k + 1);
        let r = exfat_dir::put_units(d, units, k + 1);
        assert forall|q: int| 2 <= q < 2 + (units.len() + 14) / 15 implies #[trigger] type_at(r, q)
            == if (q - 2) * 15 + 14 < k {
            type_at(b, q)
        } else {
            EXFAT_TYPE_NAME
        } by {
            assert(type_at(d, q) == if q == 2 + k / 15 {
                EXFAT_TYPE_NAME
            } else {
                type_at(b, q)
            }) by {
                assert(q * 32 < at || at + 2 <= q * 32);
                assert(d[q * 32] == c[q * 32]);
            }
        }
    }
}

/// The checksum does not depend on its own bytes.
proof fn lemma_sum(a: Seq<u8>, b: Seq<u8>, n: int)
    requires
        forall|p: int| 0 <= p < n && p != 2 && p != 3 ==> a[p] == b[p],
    ensures
        exfat_dir::set_sum(a, n) == exfat_dir::set_sum(b, n),
    decreases n,
{
    if n > 0 {
        lemma_sum(a, b, n - 1);
    }
}

/// The name in a set.
proof fn lemma_name(c: Seq<u8>, o: int, k: int, units: Seq<u16>)
    requires
        0 <= k,
        forall|j: int|
            0 <= j < units.len() ==> #[trigger] exfat_dir::unit_at(c, o, j) == units[j],
    ensures
        exfat_dir::name_from(c, o, k, units.len() as int) == encoded(units, k),
    decreases units.len() - k,
{
    if k < units.len() {
        lemma_name(c, o, k + 1, units);
        assert(exfat_dir::unit_at(c, o, k) == units[k]);
    }
}

/// What a set reads back as.
pub open spec fn as_read(e: EntryView, name: Seq<u8>) -> EntryView {
    EntryView {
        mtime: calendar::time_of(calendar::stamp_of(e.mtime).0, calendar::stamp_of(e.mtime).1),
        name: exfat_dir::cut(name),
        ..e
    }
}

/// The types of the entries of a set.
pub proof fn lemma_set_types(s: ExfatView, name: Seq<u8>, e: EntryView)
    requires
        is_utf8(name, 0),
        s.build_set(name, e) is Some,
    ensures
        ({
            let set = s.build_set(name, e)->Some_0;
            forall|q: int|
                1 <= q < set.len() / 32 ==> #[trigger] type_at(set, q) == EXFAT_TYPE_STREAM
                    || type_at(set, q) == EXFAT_TYPE_NAME
        }),
{
    reveal(ExfatView::build_set);
    let units = exfat_dir::units_of(name)->Some_0;
    lemma_units(name, 0, Seq::empty());
    let n = units.len() as int;
    let total = 2 + (n + 14) / 15;
    let z = bytes::zeros(total * 32);
    let h = exfat_dir::set_head(z, e, n, s.name_hash(units));
    lemma_head(z, e, n, s.name_hash(units));
    lemma_put_units(h, units, 0);
    lemma_put_types(h, units, 0);
    let u = exfat_dir::put_units(h, units, 0);
    let set = bytes::put16(u, 2, exfat_dir::set_sum(u, total * 32));
    assert(set == s.build_set(name, e)->Some_0);
    assert forall|q: int| 1 <= q < total implies #[trigger] type_at(set, q) == EXFAT_TYPE_STREAM
        || type_at(set, q) == EXFAT_TYPE_NAME by {
        assert(set[q * 32] == u[q * 32]);
        if q == 1 {
            assert(u[32] == h[32]);
        } else {
            assert(type_at(u, q) == EXFAT_TYPE_NAME);
        }
    }
}

/// Law: a set that was built for a file and put into a directory cluster reads back with the
/// name, the place, the sizes, the kind and the time of the file. The name has to be
/// well-formed UTF-8; a listing cuts it.
#[verifier::spinoff_prover]
#[verifier::rlimit(60)]
pub proof fn law_set_reads_back(
    s: ExfatView,
    name: Seq<u8>,
    e: EntryView,
    b: Seq<u8>,
    i: int,
    per: int,
)
    requires
        is_utf8(name, 0),
        s.build_set(name, e) is Some,
        0 <= i,
        b.len() == per * 32,
        i * 32 + s.build_set(name, e)->Some_0.len() <= b.len(),
    ensures
        ({
            let set = s.build_set(name, e)->Some_0;
            let c = bytes::splice(b, i * 32, set);
            &&& set.len() >= 96
            &&& set[0] == EXFAT_TYPE_FILE
            &&& (1 + set[1]) * 32 == set.len()
            &&& exfat_dir::parse(c, i, per) == Some(as_read(e, name))
        }),
{
    reveal(ExfatView::build_set);
    let units = exfat_dir::units_of(name)->Some_0;
    lemma_units(name, 0, Seq::empty());
    assert(name.subrange(0, name.len() as int) =~= name);
    let n = units.len() as int;
    let total = 2 + (n + 14) / 15;
    let z = bytes::zeros(total * 32);
    let h = exfat_dir::set_head(z, e, n, s.name_hash(units));
    lemma_head(z, e, n, s.name_hash(units));
    lemma_put_units(h, units, 0);
    let u = exfat_dir::put_units(h, units, 0);
    let sum = exfat_dir::set_sum(u, total * 32);
    let set = bytes::put16(u, 2, sum);
    assert(set == s.build_set(name, e)->Some_0);
    bytes::law_put16_reads_back(u, 2, sum);
    lemma_sum(u, set, total * 32);
    let f = i * 32;
    let c = bytes::splice(b, f, set);
    assert forall|p: int| 0 <= p < set.len() implies #[trigger] c[f + p] == set[p] by {}
    assert forall|p: int| 4 <= p < 64 implies #[trigger] set[p] == h[p] by {
        assert(u[p] == h[p]);
    }
    assert(set[0] == h[0] && set[1] == h[1]);
    assert(c.subrange(f, f + total * 32) =~= set);
    lemma_fields(c, f, set, h, e, n);
    assert(bytes::le16(c, f + 2) == sum) by {
        assert(c[f + 2] == set[2] && c[f + 3] == set[3]);
    }
    assert forall|j: int| 0 <= j < n implies #[trigger] exfat_dir::unit_at(c, f + 64, j)
        == units[j] by {
        let p = 64 + j / 15 * 32 + 2 + j % 15 * 2;
        assert(p + 1 < set.len());
        assert(c[f + p] == set[p] && c[f + (p + 1)] == set[p + 1]);
        assert(exfat_dir::unit_at(u, 64, j) == units[j]);
        assert(set[p] == u[p] && set[p + 1] == u[p + 1]);
    }
    lemma_name(c, f + 64, 0, units);
}

/// Sums that are apart by one step: after the same byte they still are, and different bytes
/// bring them apart.
proof fn lemma_apart(h: u16, g: u16, v: u8, w: u8)
    requires
        h == g && v != w || h != g && v == w,
    ensures
        exfat_dir::sum16(h, v as int) != exfat_dir::sum16(g, w as int),
{
    let x = h % 2 * 0x8000 + h / 2;
    let y = g % 2 * 0x8000 + g / 2;
    assert(0 <= x < 0x1_0000 && 0 <= y < 0x1_0000);
    assert(x == y <==> h == g);
    assert(x + v != y + w);
    assert((x + v) % 0x1_0000 != (y + w) % 0x1_0000);
}

/// Sums of bytes that differ in one place.
proof fn lemma_sums_differ(s: Seq<u8>, t: Seq<u8>, n: int, k: int)
    requires
        0 <= k < n,
        k != 2 && k != 3,
        s[k] != t[k],
        forall|p: int| 0 <= p < n && p != k ==> s[p] == #[trigger] t[p],
    ensures
        exfat_dir::set_sum(s, n) != exfat_dir::set_sum(t, n),
    decreases n,
{
    if n - 1 == k {
        lemma_sum(s, t, k);
    } else {
        lemma_sums_differ(s, t, n - 1, k);
        assert(s[n - 1] == t[n - 1]);
    }
    if n - 1 != 2 && n - 1 != 3 {
        lemma_apart(
            exfat_dir::set_sum(s, n - 1),
            exfat_dir::set_sum(t, n - 1),
            s[n - 1],
            t[n - 1],
        );
    }
}

/// Law: a set that reads does not any more once one byte of it has changed, be it in one bit
/// only and wherever in the set, the checksum and the types of the entries among them.
pub proof fn law_changed_set_is_refused(b: Seq<u8>, i: int, per: int, sec: int, k: int, v: u8)
    requires
        0 <= i,
        b.len() == per * 32,
        exfat_dir::parse_set(b, i, per, sec) is Some,
        0 <= k < (1 + sec) * 32,
        v != b[i * 32 + k],
    ensures
        exfat_dir::parse_set(b.update(i * 32 + k, v), i, per, sec) is None,
{
    let f = i * 32;
    let c = b.update(f + k, v);
    let n = (1 + sec) * 32;
    let s = b.subrange(f, f + n);
    let t = c.subrange(f, f + n);
    assert(f + n <= b.len());
    assert forall|p: int| 0 <= p < n && p != k implies s[p] == #[trigger] t[p] by {}
    if k == 2 || k == 3 {
        lemma_sum(s, t, n);
        assert(c[f + 2] != b[f + 2] || c[f + 3] != b[f + 3]);
        assert(bytes::le16(c, f + 2) != bytes::le16(b, f + 2));
    } else {
        lemma_sums_differ(s, t, n, k);
        assert(c[f + 2] == b[f + 2] && c[f + 3] == b[f + 3]);
        assert(bytes::le16(c, f + 2) == bytes::le16(b, f + 2));
    }
}

/// The fields of a set in a cluster.
proof fn lemma_fields(c: Seq<u8>, f: int, set: Seq<u8>, h: Seq<u8>, e: EntryView, units: int)
    requires
        0 <= f,
        set.len() >= 96,
        f + set.len() <= c.len(),
        forall|p: int| 0 <= p < set.len() ==> #[trigger] c[f + p] == set[p],
        set[0] == h[0],
        set[1] == h[1],
        forall|p: int| 4 <= p < 64 ==> #[trigger] set[p] == h[p],
        head_says(h, e, units),
    ensures
        c[f + 1] == 1 + (units + 14) / 15,
        (bytes::le16(c, f + 4) / 16 % 2 == 1) == e.is_dir,
        bytes::le32(c, f + 12) == calendar::stamp_of(e.mtime).0,
        c[f + 21] == calendar::stamp_of(e.mtime).1,
        c[f + 32] == EXFAT_TYPE_STREAM,
        (c[f + 33] / 2 % 2 == 1) == e.contiguous,
        c[f + 35] == units,
        bytes::le64(c, f + 40) == e.valid,
        bytes::le32(c, f + 52) == e.first,
        bytes::le64(c, f + 56) == e.size,
{
    assert forall|p: int| 4 <= p < 64 implies #[trigger] c[f + p] == h[p] by {
        assert(set[p] == h[p]);
    }
    assert(c[f + 1] == h[1]);
    assert(c[f + 4] == h[4] && c[f + 5] == h[5]);
    assert(c[f + 12] == h[12] && c[f + 13] == h[13] && c[f + 14] == h[14] && c[f + 15] == h[15]);
    assert(c[f + 21] == h[21]);
    assert(c[f + 32] == h[32] && c[f + 33] == h[33] && c[f + 35] == h[35]);
    assert(c[f + 40] == h[40] && c[f + 41] == h[41] && c[f + 42] == h[42] && c[f + 43] == h[43]);
    assert(c[f + 44] == h[44] && c[f + 45] == h[45] && c[f + 46] == h[46] && c[f + 47] == h[47]);
    assert(c[f + 52] == h[52] && c[f + 53] == h[53] && c[f + 54] == h[54] && c[f + 55] == h[55]);
    assert(c[f + 56] == h[56] && c[f + 57] == h[57] && c[f + 58] == h[58] && c[f + 59] == h[59]);
    assert(c[f + 60] == h[60] && c[f + 61] == h[61] && c[f + 62] == h[62] && c[f + 63] == h[63]);
}

/// Units that two clusters share.
proof fn lemma_name_same(b: Seq<u8>, c: Seq<u8>, o: int, k: int, units: int, end: int)
    requires
        0 <= o,
        0 <= k,
        o + (units + 14) / 15 * 32 <= end,
        forall|p: int| o <= p < end ==> b[p] == c[p],
    ensures
        exfat_dir::name_from(c, o, k, units) == exfat_dir::name_from(b, o, k, units),
    decreases units - k,
{
    if k < units {
        lemma_name_same(b, c, o, k + 1, units, end);
        let p = o + k / 15 * 32 + 2 + k % 15 * 2;
        assert(o <= p && p + 1 < end);
        assert(b[p] == c[p] && b[p + 1] == c[p + 1]);
    }
}

/// A set is in its entries.
pub proof fn lemma_parse_same(b: Seq<u8>, c: Seq<u8>, j: int, per: int)
    requires
        0 <= j,
        b.len() == per * 32,
        c.len() == per * 32,
        j < per,
        forall|p: int| j * 32 <= p < (j + 1 + b[j * 32 + 1]) * 32 ==> b[p] == c[p],
    ensures
        exfat_dir::parse(c, j, per) == exfat_dir::parse(b, j, per),
{
    let f = j * 32;
    let sec = b[f + 1] as int;
    assert(c[f + 1] == b[f + 1]);
    if sec >= 2 && j + 1 + sec <= per {
        let end = (j + 1 + sec) * 32;
        assert(b.subrange(f, f + (1 + sec) * 32) =~= c.subrange(f, f + (1 + sec) * 32));
        assert(b[f + 32] == c[f + 32]);
        assert(b[f + 33] == c[f + 33]);
        assert(b[f + 35] == c[f + 35]);
        assert(b[f + 21] == c[f + 21]);
        assert(bytes::le16(c, f + 2) == bytes::le16(b, f + 2));
        assert(bytes::le16(c, f + 4) == bytes::le16(b, f + 4));
        assert(bytes::le32(c, f + 12) == bytes::le32(b, f + 12));
        assert(bytes::le32(c, f + 52) == bytes::le32(b, f + 52));
        assert(bytes::le64(c, f + 56) == bytes::le64(b, f + 56));
        assert(bytes::le64(c, f + 40) == bytes::le64(b, f + 40));
        let units = b[f + 35] as int;
        if 2 + (units + 14) / 15 <= 1 + sec {
            lemma_name_same(b, c, f + 64, 0, units, end);
        }
    }
}

/// A set is found at or after the entry where the search starts.
pub proof fn lemma_find_range(b: Seq<u8>, j: int, per: int, want: Seq<u8>)
    requires
        0 <= j,
    ensures
        exfat_dir::find_in(b, j, per, want) matches Some((i, e)) ==> j <= i < per && b[i * 32]
            == EXFAT_TYPE_FILE && exfat_dir::parse(b, i, per) == Some(e)
            && bytes::same_ignoring_case(e.name, want),
    decreases per - j,
{
    if exfat_dir::after(b, j) < per {
        lemma_find_range(b, exfat_dir::after(b, j), per, want);
    }
}

/// A set written anew over one with as many entries is found where that was.
proof fn lemma_find_again(
    b: Seq<u8>,
    j: int,
    per: int,
    want: Seq<u8>,
    i: int,
    set: Seq<u8>,
    x: EntryView,
)
    requires
        0 <= j,
        b.len() == per * 32,
        exfat_dir::find_in(b, j, per, want) matches Some((k, e)) && k == i,
        set.len() == (1 + b[i * 32 + 1]) * 32,
        i * 32 + set.len() <= b.len(),
        set[0] == EXFAT_TYPE_FILE,
        exfat_dir::parse(bytes::splice(b, i * 32, set), i, per) == Some(x),
        bytes::same_ignoring_case(x.name, want),
    ensures
        exfat_dir::find_in(bytes::splice(b, i * 32, set), j, per, want) == Some((i, x)),
    decreases per - j,
{
    let c = bytes::splice(b, i * 32, set);
    lemma_find_range(b, j, per, want);
    if j == i {
        assert(c[i * 32] == set[0]);
    } else {
        let k = exfat_dir::after(b, j);
        lemma_find_range(b, k, per, want);
        assert(c[j * 32] == b[j * 32]);
        assert(c[j * 32 + 1] == b[j * 32 + 1]);
        if b[j * 32] == EXFAT_TYPE_FILE {
            lemma_parse_same(b, c, j, per);
        }
        lemma_find_again(b, k, per, want, i, set, x);
    }
}

/// Where a set is located.
pub proof fn lemma_located(s: ExfatView, bm: Seq<u32>, dch: Seq<u32>, g: int, want: Seq<u8>)
    requires
        vol_ok(s, bm),
        linked(s, dch),
        0 <= g < dch.len(),
    ensures
        s.locate_from(dch[g], g, want) matches Some((cl, i, sec, e)) ==> dch.contains(cl)
            && exfat_dir::find_in(data_of(s, cl), 0, s.geo.per(), want) == Some((i, e)) && sec
            == data_of(s, cl)[i * 32 + 1],
    decreases dch.len() - g,
{
    exfat_laws::lemma_vol(s, bm);
    assert(valid(s.geo, dch[g]));
    exfat_laws::lemma_rd_cl(s, dch[g]);
    assert(dch.contains(dch[g]));
    if g + 1 < dch.len() {
        assert(entry(s, dch[g]) == dch[g + 1]);
        lemma_located(s, bm, dch, g + 1, want);
    } else {
        assert(dch[g] == dch.last());
    }
}

/// A set written anew is located where it was.
proof fn lemma_relocated(
    s: ExfatView,
    t: ExfatView,
    bm: Seq<u32>,
    dch: Seq<u32>,
    g: int,
    want: Seq<u8>,
    cl: u32,
    i: int,
    x: EntryView,
)
    requires
        vol_ok(s, bm),
        vol_ok(t, bm),
        exfat_laws::same_volume(s, t),
        linked(s, dch),
        linked(t, dch),
        0 <= g < dch.len(),
        s.locate_from(dch[g], g, want) matches Some((c, k, sec, e)) && c == cl && k == i,
        forall|d: u32|
            valid(s.geo, d) && d != cl ==> #[trigger] data_of(t, d) == data_of(s, d),
        exfat_dir::find_in(data_of(t, cl), 0, s.geo.per(), want) == Some((i, x)),
    ensures
        t.locate_from(dch[g], g, want) matches Some((c, k, sec, e)) && c == cl && k == i && e == x,
    decreases dch.len() - g,
{
    exfat_laws::lemma_vol(s, bm);
    exfat_laws::lemma_vol(t, bm);
    lemma_located(s, bm, dch, g, want);
    assert(valid(s.geo, dch[g]));
    exfat_laws::lemma_rd_cl(s, dch[g]);
    exfat_laws::lemma_rd_cl(t, dch[g]);
    exfat_laws::lemma_fit(s, t, dch[g]);
    if dch[g] != cl {
        assert(data_of(t, dch[g]) == data_of(s, dch[g]));
        if g + 1 < dch.len() {
            assert(entry(s, dch[g]) == dch[g + 1]);
            assert(entry(t, dch[g]) == dch[g + 1]);
            assert(valid(s.geo, dch[g + 1]));
            lemma_relocated(s, t, bm, dch, g + 1, want, cl, i, x);
        } else {
            assert(dch[g] == dch.last());
        }
    }
}

/// Law: a set that was written anew is what a lookup of its name finds.
pub proof fn law_rewritten_is_found(
    s: ExfatView,
    bm: Seq<u32>,
    dch: Seq<u32>,
    name: Seq<u8>,
    e: EntryView,
)
    requires
        vol_ok(s, bm),
        linked(s, dch),
        exfat_write::owned(s, bm, dch),
        dch.len() > 0,
        is_utf8(name, 0),
        s.rewrite_set(dch[0], name, e).1,
    ensures
        s.rewrite_set(dch[0], name, e).0.lookup(dch[0], name) == Some(as_read(e, name)),
{
    exfat_laws::lemma_vol(s, bm);
    reveal(ExfatView::rewrite_set);
    reveal(ExfatView::put_set);
    let (cl, i, sec, old) = s.locate(dch[0], name)->Some_0;
    lemma_located(s, bm, dch, 0, name);
    let m = choose|m: int| 0 <= m < dch.len() && dch[m] == cl;
    assert(valid(s.geo, dch[m]));
    exfat_laws::lemma_rd_cl(s, cl);
    let b = data_of(s, cl);
    let per = s.geo.per();
    assert(b.len() == per * 32);
    lemma_find_range(b, 0, per, name);
    let set = s.build_set(name, e)->Some_0;
    let c = bytes::splice(b, i * 32, set);
    law_set_reads_back(s, name, e, b, i, per);
    let x = as_read(e, name);
    assert(bytes::same_ignoring_case(x.name, name)) by {
        assert(old.name.len() <= DIR_LONG_MAX);
        assert(name.len() == old.name.len());
    }
    lemma_find_again(b, 0, per, name, i, set, x);
    exfat_write::lemma_put_one(s, bm, dch, m, c);
    let t = s.rewrite_set(dch[0], name, e).0;
    assert(t == s.wr_cl(cl, c).0);
    exfat_write::lemma_still(s, t, bm, dch, dch);
    assert forall|d: u32| valid(s.geo, d) && d != cl implies #[trigger] data_of(t, d) == data_of(
        s,
        d,
    ) by {
        if dch.contains(d) {
            let j = choose|j: int| 0 <= j < dch.len() && dch[j] == d;
            assert(data_of(t, dch[j]) == data_of(s, dch[j]));
        }
    }
    lemma_relocated(s, t, bm, dch, 0, name, cl, i, x);
}

/// Law: after a write, a lookup of the file's name finds its new first cluster and sizes, and
/// reading what was found gives the old bytes with the data written over them. All of them can
/// be read where the file's clusters could be transferred before.
pub proof fn law_written_is_found(
    s: ExfatView,
    bm: Seq<u32>,
    dch: Seq<u32>,
    e: EntryView,
    ch: Seq<u32>,
    name: Seq<u8>,
    offset: u32,
    data: Seq<u8>,
) -> (ch2: Seq<u32>)
    requires
        vol_ok(s, bm),
        exfat_write::chain_of(s, bm, e, ch),
        linked(s, dch),
        exfat_write::owned(s, bm, dch),
        dch.len() > 0,
        exfat_write::apart(ch, dch),
        data.len() > 0,
        exfat_file::div_up(offset + data.len(), s.geo.cb()) <= 0xFFFF_FFFF,
        is_utf8(name, 0),
        s.write_file(e, dch[0], name, offset, data).1 is Some,
    ensures
        ({
            let t = s.write_file(e, dch[0], name, offset, data).0;
            &&& t.lookup(dch[0], name) matches Some(f) && exfat_write::chain_of(t, bm, f, ch2)
                && exfat_write::content(t, f, ch2) == tmpfs::overwritten(
                exfat_write::content(s, e, ch),
                offset as int,
                data,
            )
            &&& exfat_laws::fits(s, ch) ==> exfat_laws::fits(t, ch2)
        }),
{
    let (ch2, s2) = exfat_write::lemma_write(s, bm, dch, e, ch, name, offset, data);
    let t = s.write_file(e, dch[0], name, offset, data).0;
    let w = exfat_write::written(s, e, ch2[0], offset, data);
    law_rewritten_is_found(s2, bm, dch, name, w);
    let f = as_read(w, name);
    assert(exfat_write::content(t, f, ch2) =~= exfat_write::content(t, w, ch2));
    ch2
}

} // verus!
