//! Names on FAT volumes: 8.3 short names and the long names pieced together from
//! the entries in front of them.
use vstd::prelude::*;

use crate::bytes;
use crate::vfs::DIR_LONG_MAX;

verus! {

/// Most pieces of one long name.
pub const MAX_LFN_ENTRIES: usize = 20;

/// Characters in one piece.
pub const LFN_CHARS_PER_ENTRY: usize = 13;

/// Room for the characters of a long name.
pub const LFN_MAX_UNITS: usize = 261;

/// Offset, in a long-name entry, of its `k`-th character.
pub open spec fn unit_off(k: int) -> int {
    if k < 5 {
        1 + 2 * k
    } else if k < 11 {
        14 + 2 * (k - 5)
    } else {
        28 + 2 * (k - 11)
    }
}

/// The checksum of the first `n` bytes of the short name at `o`: rotate right by
/// one bit, then add the byte.
pub open spec fn short_checksum(d: Seq<u8>, o: int, n: int) -> u8
    decreases n,
{
    if n <= 0 {
        0
    } else {
        let s = short_checksum(d, o, n - 1);
        ((s / 2 + 128 * (s % 2) + d[o + n - 1]) % 256) as u8
    }
}

/// Position of the first zero character from `i` on, at most `n`.
pub open spec fn zero_pos(u: Seq<u16>, i: int, n: int) -> int
    decreases n - i,
{
    if i >= n || u[i] == 0 {
        i
    } else {
        zero_pos(u, i + 1, n)
    }
}

/// A long name under construction.
#[verifier::ext_equal]
pub struct LfnView {
    pub units: Seq<u16>,
    pub filled: int,
    pub active: bool,
    pub cksum: u8,
}

impl LfnView {
    /// Nothing collected yet.
    pub open spec fn empty() -> LfnView {
        LfnView {
            units: Seq::new(LFN_MAX_UNITS as nat, |i: int| 0u16),
            filled: 0,
            active: false,
            cksum: 0,
        }
    }

    /// What was collected is discarded.
    pub open spec fn reset(self) -> LfnView {
        LfnView { filled: 0, active: false, cksum: 0, ..self }
    }

    /// One more long-name entry, at `o` of `d`, taken in. The entry marked as the last
    /// piece comes first and starts a new name.
    pub open spec fn push(self, d: Seq<u8>, o: int) -> LfnView {
        let order = d[o];
        let seq = (order & 0x3F) as int;
        let l = if order & 0x40 != 0 {
            LfnView { filled: 0, active: true, ..self }
        } else {
            self
        };
        let base = (seq - 1) * LFN_CHARS_PER_ENTRY;
        if !l.active || seq == 0 || seq > MAX_LFN_ENTRIES {
            l
        } else {
            LfnView {
                units: Seq::new(
                    l.units.len(),
                    |j: int|
                        if base <= j < base + LFN_CHARS_PER_ENTRY {
                            bytes::le16(d, o + unit_off(j - base))
                        } else {
                            l.units[j]
                        },
                ),
                filled: if base + LFN_CHARS_PER_ENTRY > l.filled {
                    base + LFN_CHARS_PER_ENTRY
                } else {
                    l.filled
                },
                active: true,
                cksum: d[o + 13],
            }
        }
    }

    /// The name, up to its first zero character.
    pub open spec fn name(self) -> Seq<u16> {
        if self.active {
            self.units.subrange(0, zero_pos(self.units, 0, self.filled))
        } else {
            Seq::empty()
        }
    }

    /// Whether the pieces belong to the short entry at `o`.
    pub open spec fn belongs(self, d: Seq<u8>, o: int) -> bool {
        short_checksum(d, o, 11) == self.cksum
    }
}

/// A long name under construction.
pub struct LfnBuf {
    pub units: Vec<u16>,
    /// Characters taken in, up to the highest piece.
    pub filled: usize,
    /// Whether a name has been started.
    pub active: bool,
    /// Checksum of the short name that the pieces belong to.
    pub cksum: u8,
}

impl LfnBuf {
    pub open spec fn view(&self) -> LfnView {
        LfnView {
            units: self.units@,
            filled: self.filled as int,
            active: self.active,
            cksum: self.cksum,
        }
    }

    pub open spec fn inv(&self) -> bool {
        self.units@.len() == LFN_MAX_UNITS && self.filled <= LFN_MAX_UNITS
    }

    /// Nothing collected yet.
    pub fn new() -> (r: LfnBuf)
        ensures
            r.inv(),
            r@ == LfnView::empty(),
    {
        let units: Vec<u16> = vec![0u16; 261];
        let r = LfnBuf { units, filled: 0, active: false, cksum: 0 };
        assert(r@.units =~= LfnView::empty().units);
        r
    }

    /// Discards what was collected.
    pub fn reset(&mut self)
        requires
            old(self).inv(),
        ensures
            final(self).inv(),
            final(self)@ == old(self)@.reset(),
    {
        self.filled = 0;
        self.active = false;
        self.cksum = 0;
    }

    /// Takes in the long-name entry at `o` of `d`.
    pub fn push(&mut self, d: &Vec<u8>, o: usize)
        requires
            old(self).inv(),
            o + 32 <= d.len(),
        ensures
            final(self).inv(),
            final(self)@ == old(self)@.push(d@, o as int),
    {
        let order: u8 = d[o];
        let seq: usize = (order & 0x3F) as usize;
        if order & 0x40 != 0 {
            self.filled = 0;
            self.active = true;
        }
        if !self.active || seq == 0 || seq > MAX_LFN_ENTRIES {
            return;
        }
        self.cksum = d[o + 13];
        let base: usize = (seq - 1) * LFN_CHARS_PER_ENTRY;
        let ghost units0 = self.units@;
        let mut k: usize = 0;
        while k < LFN_CHARS_PER_ENTRY
            invariant
                k <= LFN_CHARS_PER_ENTRY,
                base + LFN_CHARS_PER_ENTRY <= LFN_MAX_UNITS,
                o + 32 <= d.len(),
                units0.len() == LFN_MAX_UNITS,
                self.filled == old(self).filled || self.filled == 0,
                self.active,
                self.cksum == d@[o + 13],
                self.filled == (if old(self)@.active && order & 0x40 == 0 {
                    old(self).filled as int
                } else {
                    0
                }),
                self.units@ =~= Seq::new(
                    LFN_MAX_UNITS as nat,
                    |j: int|
                        if base <= j < base + k {
                            bytes::le16(d@, o + unit_off(j - base))
                        } else {
                            units0[j]
                        },
                ),
            decreases LFN_CHARS_PER_ENTRY - k,
        {
            let at: usize = if k < 5 {
                1 + 2 * k
            } else if k < 11 {
                14 + 2 * (k - 5)
            } else {
                28 + 2 * (k - 11)
            };
            let u: u16 = bytes::read_u16(d, o + at);
            self.units.set(base + k, u);
            k = k + 1;
        }
        let end: usize = base + LFN_CHARS_PER_ENTRY;
        if end > self.filled {
            self.filled = end;
        }
        assert(self@.units =~= old(self)@.push(d@, o as int).units);
    }

    /// The name, up to its first zero character.
    pub fn name(&self) -> (r: Vec<u16>)
        requires
            self.inv(),
        ensures
            r@ == self@.name(),
    {
        let mut out: Vec<u16> = Vec::new();
        if !self.active {
            return out;
        }
        let mut i: usize = 0;
        while i < self.filled && self.units[i] != 0
            invariant
                i <= self.filled,
                self.inv(),
                out@ =~= self.units@.subrange(0, i as int),
                zero_pos(self.units@, i as int, self.filled as int) == zero_pos(
                    self.units@,
                    0,
                    self.filled as int,
                ),
            decreases self.filled - i,
        {
            out.push(self.units[i]);
            i = i + 1;
        }
        out
    }

    /// Whether the pieces belong to the short entry at `o`.
    pub fn checksum_ok(&self, d: &Vec<u8>, o: usize) -> (r: bool)
        requires
            o + 32 <= d.len(),
        ensures
            r == self@.belongs(d@, o as int),
    {
        let mut sum: u8 = 0;
        let mut i: usize = 0;
        while i < 11
            invariant
                i <= 11,
                o + 32 <= d.len(),
                sum == short_checksum(d@, o as int, i as int),
            decreases 11 - i,
        {
            sum = ((sum as u16 / 2 + 128 * (sum as u16 % 2) + d[o + i] as u16) % 256) as u8;
            i = i + 1;
        }
        sum == self.cksum
    }
}

/// Whether a character is a control character.
pub open spec fn is_control(u: u16) -> bool {
    u < 0x20 || 0x7F <= u < 0xA0
}

/// One character in UTF-8; half of a surrogate pair becomes a question mark, and a control
/// character is left out.
pub open spec fn utf8_of(u: u16) -> Seq<u8> {
    let c = if 0xD800 <= u < 0xE000 {
        0x3Fu16
    } else {
        u
    };
    if is_control(c) {
        Seq::empty()
    } else if c < 0x80 {
        seq![c as u8]
    } else if c < 0x800 {
        seq![(0xC0 + c / 64) as u8, (0x80 + c % 64) as u8]
    } else {
        seq![(0xE0 + c / 4096) as u8, (0x80 + c / 64 % 64) as u8, (0x80 + c % 64) as u8]
    }
}

/// `out` followed by the characters from `i` on in UTF-8, as many whole characters
/// as fit `DIR_LONG_MAX` bytes.
pub open spec fn utf8_cut(units: Seq<u16>, i: int, out: Seq<u8>) -> Seq<u8>
    decreases units.len() - i,
{
    if i >= units.len() || out.len() + utf8_of(units[i]).len() > DIR_LONG_MAX {
        out
    } else {
        utf8_cut(units, i + 1, out + utf8_of(units[i]))
    }
}

/// A name in UTF-8, as many whole characters as fit `DIR_LONG_MAX` bytes.
pub fn utf16_to_utf8(units: &Vec<u16>) -> (r: Vec<u8>)
    ensures
        r@ == utf8_cut(units@, 0, Seq::empty()),
        r@.len() <= DIR_LONG_MAX,
{
    let mut out: Vec<u8> = Vec::new();
    let mut i: usize = 0;
    while i < units.len()
        invariant
            i <= units.len(),
            out.len() <= DIR_LONG_MAX,
            utf8_cut(units@, i as int, out@) == utf8_cut(units@, 0, Seq::empty()),
        decreases units.len() - i,
    {
        let u: u16 = units[i];
        let c: u16 = if 0xD800 <= u && u < 0xE000 {
            0x3F
        } else {
            u
        };
        let n: usize = if c < 0x20 || (0x7F <= c && c < 0xA0) {
            0
        } else if c < 0x80 {
            1
        } else if c < 0x800 {
            2
        } else {
            3
        };
        if out.len() + n > DIR_LONG_MAX {
            return out;
        }
        let ghost before = out@;
        if n == 1 {
            out.push(c as u8);
        } else if n == 2 {
            out.push((0xC0 + c / 64) as u8);
            out.push((0x80 + c % 64) as u8);
        } else if n == 3 {
            out.push((0xE0 + c / 4096) as u8);
            out.push((0x80 + c / 64 % 64) as u8);
            out.push((0x80 + c % 64) as u8);
        }
        assert(out@ =~= before + utf8_of(u));
        i = i + 1;
    }
    out
}

/// Whether a long name is the ASCII name `q`, up to the case of letters.
pub open spec fn long_is(units: Seq<u16>, q: Seq<u8>) -> bool {
    units.len() == q.len() && forall|i: int|
        0 <= i < units.len() ==> (#[trigger] units[i]) <= 0x7F && bytes::upper(units[i] as u8)
            == bytes::upper(q[i])
}

/// Whether a long name is the ASCII name `q`, up to the case of letters.
pub fn lfn_name_eq(units: &Vec<u16>, q: &[u8]) -> (r: bool)
    ensures
        r == long_is(units@, q@),
{
    if units.len() != q.len() {
        return false;
    }
    let mut i: usize = 0;
    while i < units.len()
        invariant
            i <= units.len(),
            units@.len() == q@.len(),
            forall|j: int|
                0 <= j < i ==> (#[trigger] units@[j]) <= 0x7F && bytes::upper(units@[j] as u8)
                    == bytes::upper(q@[j]),
        decreases units.len() - i,
    {
        if units[i] > 0x7F {
            return false;
        }
        if bytes::ascii_upper(units[i] as u8) != bytes::ascii_upper(q[i]) {
            return false;
        }
        i = i + 1;
    }
    true
}

/// Position of the last dot among the first `n` bytes, -1 where there is none.
pub open spec fn last_dot(name: Seq<u8>, n: int) -> int
    decreases n,
{
    if n <= 0 {
        -1
    } else if name[n - 1] == 0x2E {
        n - 1
    } else {
        last_dot(name, n - 1)
    }
}

/// The last dot lies inside the name.
pub proof fn lemma_last_dot(name: Seq<u8>, n: int)
    requires
        0 <= n <= name.len(),
    ensures
        -1 <= last_dot(name, n) < n || (n == 0 && last_dot(name, n) == -1),
        last_dot(name, n) >= 0 ==> name[last_dot(name, n)] == 0x2E,
        forall|i: int| last_dot(name, n) < i < n ==> name[i] != 0x2E,
    decreases n,
{
    if n > 0 && name[n - 1] != 0x2E {
        lemma_last_dot(name, n - 1);
    }
}

/// The part of a name before its last dot.
pub open spec fn name_base(name: Seq<u8>) -> Seq<u8> {
    let d = last_dot(name, name.len() as int);
    if d < 0 {
        name
    } else {
        name.subrange(0, d)
    }
}

/// The part of a name after its last dot.
pub open spec fn name_ext(name: Seq<u8>) -> Seq<u8> {
    let d = last_dot(name, name.len() as int);
    if d < 0 {
        Seq::empty()
    } else {
        name.subrange(d + 1, name.len() as int)
    }
}

/// Eleven bytes: `base` in the first eight and `ext` in the last three, both cut to
/// fit, in upper case, padded with spaces.
pub open spec fn packed_name(base: Seq<u8>, ext: Seq<u8>) -> Seq<u8> {
    Seq::new(
        11,
        |i: int|
            if i < 8 {
                if i < base.len() {
                    bytes::upper(base[i])
                } else {
                    0x20u8
                }
            } else if i - 8 < ext.len() {
                bytes::upper(ext[i - 8])
            } else {
                0x20u8
            },
    )
}

/// The short name that stands for a path segment: at most eight bytes before the
/// last dot and three after it.
pub open spec fn short_name(name: Seq<u8>) -> Option<Seq<u8>> {
    if name_base(name).len() > 8 || name_ext(name).len() > 3 {
        None
    } else {
        Some(packed_name(name_base(name), name_ext(name)))
    }
}

/// The packed form of `name` cut at `d`, or of the whole where `d` is its length.
pub fn pack_name(name: &[u8], d: usize) -> (r: Vec<u8>)
    requires
        d <= name.len(),
    ensures
        r@ == packed_name(
            name@.subrange(0, d as int),
            if d < name@.len() {
                name@.subrange(d + 1, name@.len() as int)
            } else {
                Seq::empty()
            },
        ),
{
    let ghost base = name@.subrange(0, d as int);
    let ghost ext = if d < name@.len() {
        name@.subrange(d + 1, name@.len() as int)
    } else {
        Seq::empty()
    };
    let mut out: Vec<u8> = Vec::new();
    let mut i: usize = 0;
    while i < 11
        invariant
            i <= 11,
            d <= name.len(),
            base == name@.subrange(0, d as int),
            ext == (if d < name@.len() {
                name@.subrange(d + 1, name@.len() as int)
            } else {
                Seq::empty()
            }),
            out@ =~= packed_name(base, ext).subrange(0, i as int),
        decreases 11 - i,
    {
        let c: u8 = if i < 8 {
            if i < d {
                bytes::ascii_upper(name[i])
            } else {
                0x20
            }
        } else if d < name.len() && i - 8 < name.len() - d - 1 {
            bytes::ascii_upper(name[d + 1 + (i - 8)])
        } else {
            0x20
        };
        out.push(c);
        i = i + 1;
    }
    assert(packed_name(base, ext).subrange(0, 11) =~= packed_name(base, ext));
    out
}

/// Position of the last dot, or the length of the name where it has none.
pub fn dot_or_len(name: &[u8]) -> (r: usize)
    ensures
        r <= name@.len(),
        last_dot(name@, name@.len() as int) == (if r < name@.len() {
            r as int
        } else {
            -1
        }),
{
    let mut i: usize = name.len();
    while i > 0
        invariant
            i <= name.len(),
            last_dot(name@, i as int) == last_dot(name@, name@.len() as int),
        decreases i,
    {
        if name[i - 1] == 0x2E {
            return i - 1;
        }
        i = i - 1;
    }
    name.len()
}

/// The short name that stands for a path segment.
pub fn short_name_from_query(name: &[u8]) -> (r: Option<Vec<u8>>)
    ensures
        bytes::opt(r) == short_name(name@),
        r matches Some(v) ==> v@.len() == 11,
{
    let d: usize = dot_or_len(name);
    let ext_len: usize = if d < name.len() {
        name.len() - d - 1
    } else {
        0
    };
    assert(d == name@.len() ==> name@.subrange(0, d as int) =~= name@);
    if d > 8 || ext_len > 3 {
        return None;
    }
    Some(pack_name(name, d))
}

} // verus!
