//! What holds of the keyboard and of the disk registers.
use vstd::prelude::*;

use crate::client;
use crate::ide;
use crate::kbd;
use crate::kbd::{KeyAction, Keyboard};
use crate::mount;
use crate::print;
use crate::shell_laws;

verus! {

/// The keys from `first` on carry the characters of `low`, and with shift those of `high`.
pub open spec fn row(first: int, low: Seq<u8>, high: Seq<u8>) -> bool {
    low.len() == high.len() && forall|i: int|
        0 <= i < low.len() ==> kbd::key_char_spec((first + i) as u8, false) == Some(
            #[trigger] low[i],
        ) && kbd::key_char_spec((first + i) as u8, true) == Some(high[i])
}

/// Law: the four rows of keys carry the characters that are printed on them, below and above; the
/// long key is the space, and the tabulator key is itself; no other key has a character.
pub proof fn law_rows(sc: u8)
    ensures
        row(0x02, print::txt("1234567890-="), print::txt("!@#$%^&*()_+")),
        row(0x10, print::txt("qwertyuiop[]"), print::txt("QWERTYUIOP{}")),
        row(0x1E, print::txt("asdfghjkl;'`"), print::txt("ASDFGHJKL:\"~")),
        row(0x2B, print::txt("\\zxcvbnm,./"), print::txt("|ZXCVBNM<>?")),
        kbd::key_char_spec(0x39, false) == Some(0x20u8),
        kbd::key_char_spec(0x39, true) == Some(0x20u8),
        kbd::key_char_spec(0x0F, false) == Some(0x09u8),
        kbd::key_char_spec(0x0F, true) == Some(0x09u8),
        !(2 <= sc <= 13) && !(15 <= sc <= 27) && !(30 <= sc <= 41) && !(43 <= sc <= 53) && sc != 57
            ==> kbd::key_char_spec(sc, false) is None && kbd::key_char_spec(sc, true) is None,
{
    reveal_strlit("1234567890-=");
    shell_laws::lemma_txt("1234567890-=", seq![0x31u8, 0x32, 0x33, 0x34, 0x35, 0x36, 0x37, 0x38, 0x39, 0x30, 0x2D, 0x3D]);
    reveal_strlit("!@#$%^&*()_+");
    shell_laws::lemma_txt("!@#$%^&*()_+", seq![0x21u8, 0x40, 0x23, 0x24, 0x25, 0x5E, 0x26, 0x2A, 0x28, 0x29, 0x5F, 0x2B]);
    reveal_strlit("qwertyuiop[]");
    shell_laws::lemma_txt("qwertyuiop[]", seq![0x71u8, 0x77, 0x65, 0x72, 0x74, 0x79, 0x75, 0x69, 0x6F, 0x70, 0x5B, 0x5D]);
    reveal_strlit("QWERTYUIOP{}");
    shell_laws::lemma_txt("QWERTYUIOP{}", seq![0x51u8, 0x57, 0x45, 0x52, 0x54, 0x59, 0x55, 0x49, 0x4F, 0x50, 0x7B, 0x7D]);
    reveal_strlit("asdfghjkl;'`");
    shell_laws::lemma_txt("asdfghjkl;'`", seq![0x61u8, 0x73, 0x64, 0x66, 0x67, 0x68, 0x6A, 0x6B, 0x6C, 0x3B, 0x27, 0x60]);
    reveal_strlit("ASDFGHJKL:\"~");
    shell_laws::lemma_txt("ASDFGHJKL:\"~", seq![0x41u8, 0x53, 0x44, 0x46, 0x47, 0x48, 0x4A, 0x4B, 0x4C, 0x3A, 0x22, 0x7E]);
    reveal_strlit("\\zxcvbnm,./");
    shell_laws::lemma_txt("\\zxcvbnm,./", seq![0x5Cu8, 0x7A, 0x78, 0x63, 0x76, 0x62, 0x6E, 0x6D, 0x2C, 0x2E, 0x2F]);
    reveal_strlit("|ZXCVBNM<>?");
    shell_laws::lemma_txt("|ZXCVBNM<>?", seq![0x7Cu8, 0x5A, 0x58, 0x43, 0x56, 0x42, 0x4E, 0x4D, 0x3C, 0x3E, 0x3F]);
    lemma_row(0x02, seq![0x31u8, 0x32, 0x33, 0x34, 0x35, 0x36, 0x37, 0x38, 0x39, 0x30, 0x2D, 0x3D], seq![0x21u8, 0x40, 0x23, 0x24, 0x25, 0x5E, 0x26, 0x2A, 0x28, 0x29, 0x5F, 0x2B]);
    lemma_row(0x10, seq![0x71u8, 0x77, 0x65, 0x72, 0x74, 0x79, 0x75, 0x69, 0x6F, 0x70, 0x5B, 0x5D], seq![0x51u8, 0x57, 0x45, 0x52, 0x54, 0x59, 0x55, 0x49, 0x4F, 0x50, 0x7B, 0x7D]);
    lemma_row(0x1E, seq![0x61u8, 0x73, 0x64, 0x66, 0x67, 0x68, 0x6A, 0x6B, 0x6C, 0x3B, 0x27, 0x60], seq![0x41u8, 0x53, 0x44, 0x46, 0x47, 0x48, 0x4A, 0x4B, 0x4C, 0x3A, 0x22, 0x7E]);
    lemma_row(0x2B, seq![0x5Cu8, 0x7A, 0x78, 0x63, 0x76, 0x62, 0x6E, 0x6D, 0x2C, 0x2E, 0x2F], seq![0x7Cu8, 0x5A, 0x58, 0x43, 0x56, 0x42, 0x4E, 0x4D, 0x3C, 0x3E, 0x3F]);
}

/// A row of up to twelve keys.
proof fn lemma_row(first: int, low: Seq<u8>, high: Seq<u8>)
    requires
        0 <= first <= 0x40,
        low.len() == high.len(),
        low.len() <= 12,
        forall|i: int|
            0 <= i < low.len() ==> low[i] != 0 && high[i] != 0 && kbd::key_pair_spec(
                (first + i) as u8,
            ) == (#[trigger] low[i], high[i]),
    ensures
        row(first, low, high),
{
}

/// Law: while a shift key is held, from when it is pressed until one is released, keys have their
/// upper characters; before and after they have their lower ones.
pub proof fn law_shift(k: Keyboard, sc: u8, c: u8)
    requires
        !k.ext,
        sc == 0x2A || sc == 0x36,
        kbd::key_char_spec(c, false) is Some,
    ensures
        ({
            let (held, a) = k.step_spec(sc);
            let (up, b) = held.step_spec((sc + 0x80) as u8);
            let typed = held.step_spec(c);
            &&& a is Nothing && b is Nothing
            &&& typed.1 == KeyAction::Put(kbd::key_char_spec(c, true)->Some_0)
            &&& typed.0 == held
            &&& up.step_spec(c).1 == KeyAction::Put(kbd::key_char_spec(c, false)->Some_0)
        }),
{
}

/// Law: the keys that carry no character do what they say: the arrows scroll and move the cursor,
/// one key deletes, and both enter keys end the line.
pub proof fn law_other_keys(k: Keyboard)
    requires
        !k.ext,
    ensures
        ({
            let e = k.step_spec(0xE0).0;
            &&& e.step_spec(0x48).1 is ScrollUp
            &&& e.step_spec(0x50).1 is ScrollDown
            &&& e.step_spec(0x4B).1 is CursorLeft
            &&& e.step_spec(0x4D).1 is CursorRight
            &&& e.step_spec(0x1C).1 == KeyAction::Put(0x0A)
            &&& k.step_spec(0x1C).1 == KeyAction::Put(0x0A)
            &&& k.step_spec(0x0E).1 is Backspace
        }),
{
}

/// Law: the registers that start a transfer hold the number of sectors, the 28 bits of the address,
/// eight at a time, the lowest first, and the command; 256 sectors are 0.
pub proof fn law_registers(lba: u32, count: u16, write: bool)
    requires
        lba < 0x1000_0000,
        1 <= count <= 256,
    ensures
        ({
            let r = ide::setup_spec(lba, count, write);
            &&& r.len() == 6
            &&& r[0].0 == 0x1F2 && r[1].0 == 0x1F3 && r[2].0 == 0x1F4
            &&& r[3].0 == 0x1F5 && r[4].0 == 0x1F6 && r[5].0 == 0x1F7
            &&& r[0].1 == if count == 256 {
                0
            } else {
                count as int
            }
            &&& r[1].1 + 0x100 * r[2].1 + 0x1_0000 * r[3].1 + 0x100_0000 * (r[4].1 - 0xE0) == lba
            &&& 0xE0 <= r[4].1 < 0xF0
            &&& r[5].1 == if write {
                0x30
            } else {
                0x20int
            }
        }),
{
}

/// Law: a path below a mount point is for its service what stands behind the mount point; the mount
/// point itself is the service's root, and the service at the root gets paths as they are.
pub proof fn law_below_mount_point(prefix: Seq<u8>, rest: Seq<u8>)
    requires
        prefix.len() > 1,
        rest.len() > 0,
    ensures
        client::inner(prefix + rest, prefix.len() as int) == rest,
        client::inner(prefix, prefix.len() as int) == seq![0x2Fu8],
        client::inner(rest, 1) == rest,
        rest[0] == 0x2F && rest.len() > 1 ==> client::outer(prefix, rest) == prefix + rest,
        client::outer(prefix, seq![0x2Fu8]) == prefix,
        rest[0] != 0x2F ==> client::outer(prefix, rest) == rest,
{
    assert((prefix + rest).subrange(prefix.len() as int, (prefix + rest).len() as int) =~= rest);
    assert(mount::root() =~= seq![0x2Fu8]);
}

} // verus!
