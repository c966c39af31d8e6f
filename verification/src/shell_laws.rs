//! What holds of the shell: what the lines that it is given ask of the file services, in which
//! directory, and what it does with the answers.
use vstd::prelude::*;

use crate::path;
use crate::print;
use crate::shell;
use crate::shell::{CallView, ShellView, Verb};
use crate::text;

verus! {

/// A working directory other than the root.
pub open spec fn a_dir(cwd: Seq<u8>) -> bool {
    1 < cwd.len() <= 128 && cwd[0] == 0x2F && cwd.last() != 0x2F
}

/// The path below a directory that a relative path names.
pub open spec fn below(cwd: Seq<u8>, x: Seq<u8>) -> Seq<u8> {
    cwd + seq![0x2Fu8] + x
}

/// The root.
pub open spec fn root() -> Seq<u8> {
    seq![0x2Fu8]
}

/// The same shell in the root directory.
pub open spec fn in_root(s: ShellView) -> ShellView {
    ShellView { cwd: root(), ..s }
}

/// Law: a relative path is taken from the working directory: it names what the working directory,
/// a slash and the path name from the root. An absolute path names the same from everywhere.
pub proof fn law_relative_path(cwd: Seq<u8>, x: Seq<u8>)
    requires
        a_dir(cwd),
    ensures
        x.len() == 0 || x[0] != 0x2F ==> shell::joined(cwd, x) == shell::joined(
            root(),
            below(cwd, x),
        ),
        x.len() > 0 && x[0] == 0x2F ==> shell::joined(cwd, x) == shell::joined(root(), x),
        x.len() == 0 || x[0] != 0x2F ==> shell::joined(root(), x) == shell::joined(
            root(),
            root() + x,
        ),
{
    assert(below(cwd, x)[0] == 0x2F);
    assert((root() + x)[0] == 0x2F);
    assert(root().last() == 0x2F);
}

/// What is typed after a word: it starts and ends with a character that can be seen.
pub open spec fn typed(x: Seq<u8>) -> bool {
    x.len() > 0 && 0x21 <= x[0] <= 0x7E && 0x21 <= x.last() <= 0x7E
}

/// One word: no space in it.
pub open spec fn one_word(x: Seq<u8>) -> bool {
    typed(x) && !x.contains(0x20)
}

/// Two parts of a line.
pub open spec fn line(w: Seq<u8>, x: Seq<u8>) -> Seq<u8> {
    w + seq![0x20u8] + x
}

/// Nothing is cut off of what is typed.
proof fn lemma_typed(x: Seq<u8>)
    requires
        typed(x),
    ensures
        text::trimmed(x) == x,
{
    assert(text::text_start(x, 0) == 0);
    assert(text::text_end(x, 0, x.len() as int) == x.len());
    assert(x.subrange(0, x.len() as int) =~= x);
}

/// Where the first space is.
proof fn lemma_space(s: Seq<u8>, i: int, k: int)
    requires
        0 <= i <= k <= s.len(),
        forall|j: int| i <= j < k ==> #[trigger] s[j] != 0x20,
        k < s.len() ==> s[k] == 0x20,
    ensures
        text::space_at(s, i) == k,
    decreases k - i,
{
    if i < k {
        assert(s[i] != 0x20);
        lemma_space(s, i + 1, k);
    }
}

/// A line comes apart at the first space.
pub proof fn lemma_line(w: Seq<u8>, x: Seq<u8>)
    requires
        !w.contains(0x20),
        typed(x),
    ensures
        text::split_word(line(w, x)) == Some((w, x)),
        typed(w) ==> typed(line(w, x)),
{
    let l = line(w, x);
    let k = w.len() as int;
    assert forall|j: int| 0 <= j < k implies #[trigger] l[j] != 0x20 by {
        assert(l[j] == w[j]);
        assert(w.contains(w[j]));
    }
    assert(l[k] == 0x20);
    lemma_space(l, 0, k);
    assert(l.subrange(0, k) =~= w);
    assert(l.subrange(k + 1, l.len() as int) =~= x);
    lemma_typed(x);
    if typed(w) {
        assert(l[0] == w[0]);
        assert(l.last() == x.last());
    }
}

/// A word comes apart nowhere.
proof fn lemma_word(w: Seq<u8>)
    requires
        one_word(w),
    ensures
        text::split_word(w) is None,
{
    assert forall|j: int| 0 <= j < w.len() implies #[trigger] w[j] != 0x20 by {
        assert(w.contains(w[j]));
    }
    lemma_space(w, 0, w.len() as int);
}

/// The bytes of a text of plain characters.
pub proof fn lemma_txt(s: &str, b: Seq<u8>)
    requires
        s@.len() == b.len(),
        forall|i: int| 0 <= i < b.len() ==> #[trigger] b[i] < 128 && s@[i] as int == b[i],
    ensures
        print::txt(s) == b,
{
    assert(vstd::utf8::is_ascii_chars(s@)) by {
        assert forall|i: int| 0 <= i < s@.len() implies '\0' <= #[trigger] s@[i] <= '\u{7f}' by {
            assert(b[i] < 128);
        }
    }
    vstd::utf8::is_ascii_chars_encode_utf8(s@);
    assert(print::txt(s) =~= b);
}

/// The bytes of the words that name commands.
proof fn lemma_words()
    ensures
        print::txt("help") == seq![0x68u8, 0x65, 0x6C, 0x70],
        print::txt("echo") == seq![0x65u8, 0x63, 0x68, 0x6F],
        print::txt("pwd") == seq![0x70u8, 0x77, 0x64],
        print::txt("ls") == seq![0x6Cu8, 0x73],
        print::txt("cat") == seq![0x63u8, 0x61, 0x74],
        print::txt("cd") == seq![0x63u8, 0x64],
        print::txt("mkdir") == seq![0x6Du8, 0x6B, 0x64, 0x69, 0x72],
        print::txt("touch") == seq![0x74u8, 0x6F, 0x75, 0x63, 0x68],
        print::txt("rm") == seq![0x72u8, 0x6D],
        print::txt("mv") == seq![0x6Du8, 0x76],
        print::txt("ln") == seq![0x6Cu8, 0x6E],
        print::txt("chmod") == seq![0x63u8, 0x68, 0x6D, 0x6F, 0x64],
        print::txt("truncate") == seq![0x74u8, 0x72, 0x75, 0x6E, 0x63, 0x61, 0x74, 0x65],
        print::txt("stat") == seq![0x73u8, 0x74, 0x61, 0x74],
        print::txt("lstat") == seq![0x6Cu8, 0x73, 0x74, 0x61, 0x74],
        print::txt("readlink") == seq![0x72u8, 0x65, 0x61, 0x64, 0x6C, 0x69, 0x6E, 0x6B],
        print::txt("mkfs.mfs") == seq![0x6Du8, 0x6B, 0x66, 0x73, 0x2E, 0x6D, 0x66, 0x73],
        print::txt("clear") == seq![0x63u8, 0x6C, 0x65, 0x61, 0x72],
{
    reveal_strlit("help");
    lemma_txt("help", seq![0x68u8, 0x65, 0x6C, 0x70]);
    reveal_strlit("echo");
    lemma_txt("echo", seq![0x65u8, 0x63, 0x68, 0x6F]);
    reveal_strlit("pwd");
    lemma_txt("pwd", seq![0x70u8, 0x77, 0x64]);
    reveal_strlit("ls");
    lemma_txt("ls", seq![0x6Cu8, 0x73]);
    reveal_strlit("cat");
    lemma_txt("cat", seq![0x63u8, 0x61, 0x74]);
    reveal_strlit("cd");
    lemma_txt("cd", seq![0x63u8, 0x64]);
    reveal_strlit("mkdir");
    lemma_txt("mkdir", seq![0x6Du8, 0x6B, 0x64, 0x69, 0x72]);
    reveal_strlit("touch");
    lemma_txt("touch", seq![0x74u8, 0x6F, 0x75, 0x63, 0x68]);
    reveal_strlit("rm");
    lemma_txt("rm", seq![0x72u8, 0x6D]);
    reveal_strlit("mv");
    lemma_txt("mv", seq![0x6Du8, 0x76]);
    reveal_strlit("ln");
    lemma_txt("ln", seq![0x6Cu8, 0x6E]);
    reveal_strlit("chmod");
    lemma_txt("chmod", seq![0x63u8, 0x68, 0x6D, 0x6F, 0x64]);
    reveal_strlit("truncate");
    lemma_txt("truncate", seq![0x74u8, 0x72, 0x75, 0x6E, 0x63, 0x61, 0x74, 0x65]);
    reveal_strlit("stat");
    lemma_txt("stat", seq![0x73u8, 0x74, 0x61, 0x74]);
    reveal_strlit("lstat");
    lemma_txt("lstat", seq![0x6Cu8, 0x73, 0x74, 0x61, 0x74]);
    reveal_strlit("readlink");
    lemma_txt("readlink", seq![0x72u8, 0x65, 0x61, 0x64, 0x6C, 0x69, 0x6E, 0x6B]);
    reveal_strlit("mkfs.mfs");
    lemma_txt("mkfs.mfs", seq![0x6Du8, 0x6B, 0x66, 0x73, 0x2E, 0x6D, 0x66, 0x73]);
    reveal_strlit("clear");
    lemma_txt("clear", seq![0x63u8, 0x6C, 0x65, 0x61, 0x72]);
}

/// Law: each command has its own word, and every other word names none.
pub proof fn law_words(w: Seq<u8>)
    ensures
        w != print::txt("help") && w != print::txt("echo") && w != print::txt("pwd") && w != print::txt("ls") && w != print::txt("cat") && w != print::txt("cd") && w != print::txt("mkdir") && w != print::txt("touch") && w != print::txt("rm") && w != print::txt("mv") && w != print::txt("ln") && w != print::txt("chmod") && w != print::txt("truncate") && w != print::txt("stat") && w != print::txt("lstat") && w != print::txt("readlink") && w != print::txt("mkfs.mfs") && w != print::txt("clear") ==> shell::verb_spec(w) == Verb::Other,
        shell::verb_spec(print::txt("help")) == Verb::Help,
        shell::verb_spec(print::txt("echo")) == Verb::Echo,
        shell::verb_spec(print::txt("pwd")) == Verb::Pwd,
        shell::verb_spec(print::txt("ls")) == Verb::Ls,
        shell::verb_spec(print::txt("cat")) == Verb::Cat,
        shell::verb_spec(print::txt("cd")) == Verb::Cd,
        shell::verb_spec(print::txt("mkdir")) == Verb::Mkdir,
        shell::verb_spec(print::txt("touch")) == Verb::Touch,
        shell::verb_spec(print::txt("rm")) == Verb::Rm,
        shell::verb_spec(print::txt("mv")) == Verb::Mv,
        shell::verb_spec(print::txt("ln")) == Verb::Ln,
        shell::verb_spec(print::txt("chmod")) == Verb::Chmod,
        shell::verb_spec(print::txt("truncate")) == Verb::Truncate,
        shell::verb_spec(print::txt("stat")) == Verb::Stat,
        shell::verb_spec(print::txt("lstat")) == Verb::Lstat,
        shell::verb_spec(print::txt("readlink")) == Verb::Readlink,
        shell::verb_spec(print::txt("mkfs.mfs")) == Verb::Mkfs,
        shell::verb_spec(print::txt("clear")) == Verb::Clear,
        one_word(print::txt("help")),
        one_word(print::txt("echo")),
        one_word(print::txt("pwd")),
        one_word(print::txt("ls")),
        one_word(print::txt("cat")),
        one_word(print::txt("cd")),
        one_word(print::txt("mkdir")),
        one_word(print::txt("touch")),
        one_word(print::txt("rm")),
        one_word(print::txt("mv")),
        one_word(print::txt("ln")),
        one_word(print::txt("chmod")),
        one_word(print::txt("truncate")),
        one_word(print::txt("stat")),
        one_word(print::txt("lstat")),
        one_word(print::txt("readlink")),
        one_word(print::txt("mkfs.mfs")),
        one_word(print::txt("clear")),
{
    reveal(shell::verb_spec);
    lemma_words();
    assert(print::txt("help").len() == 4 && print::txt("help")[0] == 0x68);
    assert(print::txt("help")[1] == 0x65);
    assert(print::txt("help")[2] == 0x6C);
    assert(print::txt("echo").len() == 4 && print::txt("echo")[0] == 0x65);
    assert(print::txt("echo")[1] == 0x63);
    assert(print::txt("echo")[2] == 0x68);
    assert(print::txt("pwd").len() == 3 && print::txt("pwd")[0] == 0x70);
    assert(print::txt("pwd")[1] == 0x77);
    assert(print::txt("pwd")[2] == 0x64);
    assert(print::txt("ls").len() == 2 && print::txt("ls")[0] == 0x6C);
    assert(print::txt("ls")[1] == 0x73);
    assert(print::txt("cat").len() == 3 && print::txt("cat")[0] == 0x63);
    assert(print::txt("cat")[1] == 0x61);
    assert(print::txt("cat")[2] == 0x74);
    assert(print::txt("cd").len() == 2 && print::txt("cd")[0] == 0x63);
    assert(print::txt("cd")[1] == 0x64);
    assert(print::txt("mkdir").len() == 5 && print::txt("mkdir")[0] == 0x6D);
    assert(print::txt("mkdir")[1] == 0x6B);
    assert(print::txt("mkdir")[2] == 0x64);
    assert(print::txt("touch").len() == 5 && print::txt("touch")[0] == 0x74);
    assert(print::txt("touch")[1] == 0x6F);
    assert(print::txt("touch")[2] == 0x75);
    assert(print::txt("rm").len() == 2 && print::txt("rm")[0] == 0x72);
    assert(print::txt("rm")[1] == 0x6D);
    assert(print::txt("mv").len() == 2 && print::txt("mv")[0] == 0x6D);
    assert(print::txt("mv")[1] == 0x76);
    assert(print::txt("ln").len() == 2 && print::txt("ln")[0] == 0x6C);
    assert(print::txt("ln")[1] == 0x6E);
    assert(print::txt("chmod").len() == 5 && print::txt("chmod")[0] == 0x63);
    assert(print::txt("chmod")[1] == 0x68);
    assert(print::txt("chmod")[2] == 0x6D);
    assert(print::txt("truncate").len() == 8 && print::txt("truncate")[0] == 0x74);
    assert(print::txt("truncate")[1] == 0x72);
    assert(print::txt("truncate")[2] == 0x75);
    assert(print::txt("stat").len() == 4 && print::txt("stat")[0] == 0x73);
    assert(print::txt("stat")[1] == 0x74);
    assert(print::txt("stat")[2] == 0x61);
    assert(print::txt("lstat").len() == 5 && print::txt("lstat")[0] == 0x6C);
    assert(print::txt("lstat")[1] == 0x73);
    assert(print::txt("lstat")[2] == 0x74);
    assert(print::txt("readlink").len() == 8 && print::txt("readlink")[0] == 0x72);
    assert(print::txt("readlink")[1] == 0x65);
    assert(print::txt("readlink")[2] == 0x61);
    assert(print::txt("mkfs.mfs").len() == 8 && print::txt("mkfs.mfs")[0] == 0x6D);
    assert(print::txt("mkfs.mfs")[1] == 0x6B);
    assert(print::txt("mkfs.mfs")[2] == 0x66);
    assert(print::txt("clear").len() == 5 && print::txt("clear")[0] == 0x63);
    assert(print::txt("clear")[1] == 0x6C);
    assert(print::txt("clear")[2] == 0x65);
}

/// A line of a command word and what was typed after it is that command.
pub proof fn lemma_begin(s: ShellView, w: Seq<u8>, x: Seq<u8>)
    requires
        one_word(w),
        typed(x),
    ensures
        s.begin(line(w, x)) == s.command(shell::verb_spec(w), w, x),
        s.begin(w) == s.command(shell::verb_spec(w), w, Seq::empty()),
{
    reveal(ShellView::begin);
    lemma_line(w, x);
    lemma_typed(line(w, x));
    lemma_word(w);
    lemma_typed(w);
}

/// The path that an operand names, if it is not too long.
pub open spec fn named(s: ShellView, x: Seq<u8>) -> Option<Seq<u8>> {
    shell::joined(s.cwd, x)
}

/// Law: a command on one path asks its question of what the operand names from the working
/// directory, and asks nothing where that is too long.
pub proof fn law_one_operand(s: ShellView, x: Seq<u8>)
    requires
        typed(x),
    ensures
        ({
            let cat = s.begin(line(print::txt("cat"), x)).1;
            let cd = s.begin(line(print::txt("cd"), x)).1;
            let mkdir = s.begin(line(print::txt("mkdir"), x)).1;
            let touch = s.begin(line(print::txt("touch"), x)).1;
            let rm = s.begin(line(print::txt("rm"), x)).1;
            let stat = s.begin(line(print::txt("stat"), x)).1;
            let lstat = s.begin(line(print::txt("lstat"), x)).1;
            let readlink = s.begin(line(print::txt("readlink"), x)).1;
            match named(s, x) {
                Some(p) => {
                    &&& cat == Some(CallView::Open { path: p })
                    &&& cd == Some(CallView::Open { path: p })
                    &&& mkdir == Some(CallView::Mkdir { path: p })
                    &&& touch == Some(CallView::Creat { path: p })
                    &&& rm == Some(CallView::Unlink { path: p })
                    &&& stat == Some(CallView::Stat { path: p })
                    &&& lstat == Some(CallView::Lstat { path: p })
                    &&& readlink == Some(CallView::Readlink { path: p })
                },
                None => {
                    &&& cat is None && cd is None && mkdir is None && touch is None
                    &&& rm is None && stat is None && lstat is None && readlink is None
                },
            }
        }),
        x[0] != 0x2D ==> s.begin(line(print::txt("ls"), x)).1 == match named(s, x) {
            Some(p) => Some(CallView::Open { path: p }),
            None => None,
        },
        s.begin(line(print::txt("ls"), line(seq![0x2Du8, 0x6C], x))).1 == match named(s, x) {
            Some(p) => Some(CallView::Open { path: p }),
            None => None,
        },
{
    law_words(x);
    reveal(ShellView::command);
    reveal(ShellView::simple);
    reveal(ShellView::cd);
    reveal(ShellView::ls);
    lemma_begin(s, print::txt("cat"), x);
    lemma_begin(s, print::txt("cd"), x);
    lemma_begin(s, print::txt("mkdir"), x);
    lemma_begin(s, print::txt("touch"), x);
    lemma_begin(s, print::txt("rm"), x);
    lemma_begin(s, print::txt("stat"), x);
    lemma_begin(s, print::txt("lstat"), x);
    lemma_begin(s, print::txt("readlink"), x);
    lemma_begin(s, print::txt("ls"), x);
    lemma_switch(0x6C, x);
    lemma_begin(s, print::txt("ls"), line(seq![0x2Du8, 0x6C], x));
}

/// What comes after a switch.
pub proof fn lemma_switch(b: u8, x: Seq<u8>)
    requires
        typed(x),
        0x21 <= b <= 0x7E,
    ensures
        text::after_switch(line(seq![0x2Du8, b], x), 0x2D, b) == Some(x),
        typed(line(seq![0x2Du8, b], x)),
{
    let l = line(seq![0x2Du8, b], x);
    let r = l.subrange(2, l.len() as int);
    assert(r =~= seq![0x20u8] + x);
    assert(l[0] == 0x2D && l[1] == b && l.last() == x.last());
    assert(text::text_start(r, 1) == 1) by {
        assert(r[1] == x[0]);
    }
    assert(text::text_start(r, 0) == 1) by {
        assert(r[0] == 0x20);
    }
    assert(r.last() == x.last());
    assert(text::text_end(r, 1, r.len() as int) == r.len());
    assert(r.subrange(1, r.len() as int) =~= x);
}

/// Law: `mv x y` asks to rename what `x` names from the working directory to what `y` names from
/// there; `ln x y` asks for one more name in the same way. Of `ln -s x y` the target is taken as
/// it was typed. Where a path is too long nothing is asked.
pub proof fn law_two_operands(s: ShellView, x: Seq<u8>, y: Seq<u8>)
    requires
        one_word(x),
        typed(y),
    ensures
        ({
            let mv = s.begin(line(print::txt("mv"), line(x, y))).1;
            let ln = s.begin(line(print::txt("ln"), line(x, y))).1;
            let sym = s.begin(line(print::txt("ln"), line(seq![0x2Du8, 0x73], line(x, y)))).1;
            &&& match (named(s, x), named(s, y)) {
                (Some(a), Some(b)) => {
                    &&& mv == Some(CallView::Rename { from: a, to: b })
                    &&& x[0] != 0x2D ==> ln == Some(CallView::Link { target: a, path: b })
                },
                _ => mv is None && (x[0] != 0x2D ==> ln is None),
            }
            &&& sym == match named(s, y) {
                Some(b) => Some(CallView::Symlink { target: x, path: b }),
                None => None,
            }
        }),
{
    law_words(x);
    reveal(ShellView::command);
    reveal(ShellView::mv);
    reveal(ShellView::ln);
    lemma_line(x, y);
    let l = line(x, y);
    lemma_begin(s, print::txt("mv"), l);
    lemma_begin(s, print::txt("ln"), l);
    lemma_switch(0x73, l);
    lemma_begin(s, print::txt("ln"), line(seq![0x2Du8, 0x73], l));
    assert(l[0] == x[0]);
}

/// Law: `chmod m x` asks to give what `x` names from the working directory the mode that the octal
/// digits of `m` say, and `truncate x n` opens what `x` names from there. Numbers that are none are
/// refused.
pub proof fn law_number_and_path(s: ShellView, x: Seq<u8>, m: Seq<u8>)
    requires
        one_word(x),
        one_word(m),
    ensures
        ({
            let chmod = s.begin(line(print::txt("chmod"), line(m, x))).1;
            let cut = s.begin(line(print::txt("truncate"), line(x, m))).1;
            &&& match (text::number(m, 8), named(s, x)) {
                (Some(v), Some(p)) => if v <= 0xFFFF_FFFF {
                    chmod == Some(CallView::Chmod { path: p, mode: v as u32 })
                } else {
                    chmod is None
                },
                _ => chmod is None,
            }
            &&& match (text::number(m, 10), named(s, x)) {
                (Some(_), Some(p)) => cut == Some(CallView::Open { path: p }),
                _ => cut is None,
            }
        }),
{
    law_words(x);
    reveal(ShellView::command);
    reveal(ShellView::chmod);
    reveal(ShellView::truncate);
    lemma_line(x, m);
    lemma_line(m, x);
    lemma_begin(s, print::txt("chmod"), line(m, x));
    lemma_begin(s, print::txt("truncate"), line(x, m));
}

/// Law: what a line asks for in a directory with relative operands is what it asks for in the root
/// with the operands put below that directory.
pub proof fn law_relative_operands(s: ShellView, x: Seq<u8>, y: Seq<u8>)
    requires
        a_dir(s.cwd),
        one_word(x),
        one_word(y),
        x[0] != 0x2F,
        y[0] != 0x2F,
        x[0] != 0x2D,
        y[0] != 0x2D,
        !s.cwd.contains(0x20),
    ensures
        ({
            let r = in_root(s);
            let bx = below(s.cwd, x);
            let by = below(s.cwd, y);
            &&& s.begin(line(print::txt("ls"), x)).1 == r.begin(line(print::txt("ls"), bx)).1
            &&& s.begin(line(print::txt("cat"), x)).1 == r.begin(line(print::txt("cat"), bx)).1
            &&& s.begin(line(print::txt("cd"), x)).1 == r.begin(line(print::txt("cd"), bx)).1
            &&& s.begin(line(print::txt("mkdir"), x)).1 == r.begin(line(print::txt("mkdir"), bx)).1
            &&& s.begin(line(print::txt("touch"), x)).1 == r.begin(line(print::txt("touch"), bx)).1
            &&& s.begin(line(print::txt("rm"), x)).1 == r.begin(line(print::txt("rm"), bx)).1
            &&& s.begin(line(print::txt("stat"), x)).1 == r.begin(line(print::txt("stat"), bx)).1
            &&& s.begin(line(print::txt("lstat"), x)).1 == r.begin(line(print::txt("lstat"), bx)).1
            &&& s.begin(line(print::txt("readlink"), x)).1 == r.begin(
                line(print::txt("readlink"), bx),
            ).1
            &&& s.begin(line(print::txt("mv"), line(x, y))).1 == r.begin(
                line(print::txt("mv"), line(bx, by)),
            ).1
            &&& s.begin(line(print::txt("ln"), line(x, y))).1 == r.begin(
                line(print::txt("ln"), line(bx, by)),
            ).1
            &&& s.begin(line(print::txt("chmod"), line(y, x))).1 == r.begin(
                line(print::txt("chmod"), line(y, bx)),
            ).1
            &&& s.begin(line(print::txt("truncate"), line(x, y))).1 == r.begin(
                line(print::txt("truncate"), line(bx, y)),
            ).1
        }),
{
    let r = in_root(s);
    let bx = below(s.cwd, x);
    let by = below(s.cwd, y);
    lemma_below(s.cwd, x);
    lemma_below(s.cwd, y);
    law_relative_path(s.cwd, x);
    law_relative_path(s.cwd, y);
    law_one_operand(s, x);
    law_one_operand(r, bx);
    law_two_operands(s, x, y);
    law_two_operands(r, bx, by);
    law_number_and_path(s, x, y);
    law_number_and_path(r, bx, y);
}

/// Below a directory whose name is one word, one word is one word.
proof fn lemma_below(cwd: Seq<u8>, x: Seq<u8>)
    requires
        a_dir(cwd),
        one_word(x),
        !cwd.contains(0x20),
    ensures
        one_word(below(cwd, x)),
        below(cwd, x)[0] == 0x2F,
{
    let b = below(cwd, x);
    assert(b.last() == x.last());
    if b.contains(0x20) {
        let i = choose|i: int| 0 <= i < b.len() && b[i] == 0x20;
        if i < cwd.len() {
            assert(cwd[i] == 0x20);
        } else if i > cwd.len() {
            assert(x[i - cwd.len() - 1] == 0x20);
        }
    }
}

} // verus!
