//! What the shell does with the answers: which call follows which, what is said in the end, and
//! where the shell then is.
use vstd::prelude::*;

use crate::print;
use crate::print::PrintView;
use crate::shell;
use crate::shell::{CallView, ShellView};
use crate::shell_laws;
use crate::shell_laws::{line, named, one_word, typed};
use crate::text;
use crate::vfs::{ReplyView, Stat};

verus! {

/// A command that is over: nothing is asked, `out` is what the console then is, and the shell is
/// in `cwd`.
pub open spec fn over(r: (ShellView, Option<CallView>), cwd: Seq<u8>, out: PrintView) -> bool {
    r.1 is None && r.0.cwd == cwd && r.0.out == out
}

/// A command that goes on with a call, the console and the directory as they were.
pub open spec fn goes_on(r: (ShellView, Option<CallView>), s: ShellView, c: CallView) -> bool {
    r.1 == Some(c) && r.0.cwd == s.cwd && r.0.out == s.out
}

/// A command that says something and gives its descriptor back.
pub open spec fn closes(
    r: (ShellView, Option<CallView>),
    s: ShellView,
    out: PrintView,
    fd: u64,
) -> bool {
    r.1 == Some(CallView::Close { fd }) && r.0.cwd == s.cwd && r.0.out == out
}

/// The commands and what they start with.
proof fn lemma_start(s: ShellView, x: Seq<u8>)
    requires
        typed(x),
    ensures
        shell_laws::named(s, x) is Some ==> {
            let p = named(s, x)->Some_0;
            let ls = s.begin(line(print::txt("ls"), x));
            let long = s.begin(line(print::txt("ls"), line(seq![0x2Du8, 0x6C], x)));
            let cat = s.begin(line(print::txt("cat"), x));
            let cd = s.begin(line(print::txt("cd"), x));
            let mkdir = s.begin(line(print::txt("mkdir"), x));
            let touch = s.begin(line(print::txt("touch"), x));
            let rm = s.begin(line(print::txt("rm"), x));
            let stat = s.begin(line(print::txt("stat"), x));
            let lstat = s.begin(line(print::txt("lstat"), x));
            let readlink = s.begin(line(print::txt("readlink"), x));
            &&& x[0] != 0x2D ==> begun(ls, s, p, shell::Wait::LsOpen) && !ls.0.task.flag
            &&& begun(long, s, p, shell::Wait::LsOpen) && long.0.task.flag
            &&& begun(cat, s, p, shell::Wait::CatOpen)
            &&& begun(cd, s, p, shell::Wait::CdOpen)
            &&& begun(mkdir, s, p, shell::Wait::Mkdir)
            &&& begun(touch, s, p, shell::Wait::TouchMade)
            &&& begun(rm, s, p, shell::Wait::RmFile)
            &&& begun(stat, s, p, shell::Wait::Stat)
            &&& begun(lstat, s, p, shell::Wait::Lstat)
            &&& begun(readlink, s, p, shell::Wait::Readlink)
        },
{
    shell_laws::law_words(x);
    reveal(ShellView::command);
    reveal(ShellView::simple);
    reveal(ShellView::cd);
    reveal(ShellView::ls);
    shell_laws::lemma_begin(s, print::txt("cat"), x);
    shell_laws::lemma_begin(s, print::txt("cd"), x);
    shell_laws::lemma_begin(s, print::txt("mkdir"), x);
    shell_laws::lemma_begin(s, print::txt("touch"), x);
    shell_laws::lemma_begin(s, print::txt("rm"), x);
    shell_laws::lemma_begin(s, print::txt("stat"), x);
    shell_laws::lemma_begin(s, print::txt("lstat"), x);
    shell_laws::lemma_begin(s, print::txt("readlink"), x);
    shell_laws::lemma_begin(s, print::txt("ls"), x);
    shell_laws::lemma_switch(0x6C, x);
    shell_laws::lemma_begin(s, print::txt("ls"), line(seq![0x2Du8, 0x6C], x));
}

/// A command on a path that has begun.
spec fn begun(
    r: (ShellView, Option<CallView>),
    s: ShellView,
    p: Seq<u8>,
    wait: shell::Wait,
) -> bool {
    &&& r.0.cwd == s.cwd
    &&& r.0.out == s.out
    &&& r.0.task.wait == wait
    &&& r.0.task.path == p
}

/// Law: `ls` lists the directory that it opened, shows what it was given, in the long form where
/// that was asked for, and closes the directory. What cannot be opened or listed is named.
pub proof fn law_ls(s: ShellView, x: Seq<u8>, long: bool, fd: u64, a: ReplyView)
    requires
        typed(x),
        !long ==> x[0] != 0x2D,
        named(s, x) is Some,
    ensures
        ({
            let p = named(s, x)->Some_0;
            let s1 = if long {
                s.begin(line(print::txt("ls"), line(seq![0x2Du8, 0x6C], x))).0
            } else {
                s.begin(line(print::txt("ls"), x)).0
            };
            let r2 = s1.step(ReplyView::Value(fd));
            let r3 = r2.0.step(a);
            &&& over(s1.step(ReplyView::Fail), s.cwd, s.out.say("ls: cannot open ").line_of(p))
            &&& goes_on(r2, s, CallView::Readdir { fd })
            &&& closes(
                r3,
                s,
                match a {
                    ReplyView::Entries(l) => text::shown_list(s.out, l, 0, long),
                    _ => s.out.say("ls: not a directory: ").line_of(p),
                },
                fd,
            )
            &&& over(r3.0.step(ReplyView::Value(1)), s.cwd, r3.0.out)
        }),
{
    lemma_start(s, x);
    reveal(ShellView::step);
    reveal(ShellView::step_ls);
}

/// Law: `cat` reads up to 4096 bytes from the start of the file that it opened, shows them with
/// a dot for each byte that cannot be shown, and closes the file.
pub proof fn law_cat(s: ShellView, x: Seq<u8>, fd: u64, a: ReplyView)
    requires
        typed(x),
        named(s, x) is Some,
    ensures
        ({
            let p = named(s, x)->Some_0;
            let s1 = s.begin(line(print::txt("cat"), x)).0;
            let r2 = s1.step(ReplyView::Value(fd));
            let r3 = r2.0.step(a);
            &&& over(s1.step(ReplyView::Fail), s.cwd, s.out.say("cat: cannot open ").line_of(p))
            &&& goes_on(r2, s, CallView::Read { fd, count: 4096 })
            &&& a matches ReplyView::Data(d) ==> exists|t: Seq<u8>|
                {
                    &&& t.len() == d.len()
                    &&& forall|i: int|
                        0 <= i < d.len() ==> #[trigger] t[i] == if 0x20 <= d[i] <= 0x7E || d[i]
                            == 0x0A {
                            d[i]
                        } else {
                            0x2E
                        }
                    &&& closes(r3, s, (#[trigger] s.out.text(t)).line(""), fd)
                }
            &&& !(a is Data) ==> closes(
                r3,
                s,
                s.out.line("cat: read failed (is it a directory?)"),
                fd,
            )
            &&& over(r3.0.step(ReplyView::Value(1)), s.cwd, r3.0.out)
        }),
{
    lemma_start(s, x);
    reveal(ShellView::step);
    reveal(ShellView::step_cat);
    if a is Data {
        let d = a->Data_0;
        let t = d.map_values(|b: u8| print::shown(b));
        assert(closes(
            s.begin(line(print::txt("cat"), x)).0.step(ReplyView::Value(fd)).0.step(a),
            s,
            s.out.text(t).line(""),
            fd,
        ));
    }
}

/// Law: `cd` goes to what it opened, if that can be listed, after it has closed it again; the
/// shell is then in the directory that the operand names, and else it stays where it is.
pub proof fn law_cd(s: ShellView, x: Seq<u8>, fd: u64, a: ReplyView, b: ReplyView)
    requires
        typed(x),
        named(s, x) is Some,
        named(s, x)->Some_0.len() <= 128,
    ensures
        ({
            let p = named(s, x)->Some_0;
            let s1 = s.begin(line(print::txt("cd"), x)).0;
            let r2 = s1.step(ReplyView::Value(fd));
            let r3 = r2.0.step(a);
            let r4 = r3.0.step(b);
            &&& over(
                s1.step(ReplyView::Fail),
                s.cwd,
                s.out.say("cd: no such directory: ").line_of(p),
            )
            &&& goes_on(r2, s, CallView::Readdir { fd })
            &&& goes_on(r3, s, CallView::Close { fd })
            &&& a is Entries ==> over(r4, p, s.out)
            &&& !(a is Entries) ==> over(
                r4,
                s.cwd,
                s.out.say("cd: not a directory: ").line_of(p),
            )
        }),
{
    lemma_start(s, x);
    reveal(ShellView::step);
    reveal(ShellView::step_cd);
}

/// Law: `touch` closes the file that it made; `rm` removes a file, or, where there is none to
/// remove, an empty directory of the same name; `mkdir` makes a directory. Each says what it did,
/// or that it did not.
pub proof fn law_make_and_remove(s: ShellView, x: Seq<u8>, fd: u64, a: ReplyView, b: ReplyView)
    requires
        typed(x),
        named(s, x) is Some,
    ensures
        ({
            let p = named(s, x)->Some_0;
            let yes = ReplyView::Value(1);
            let t1 = s.begin(line(print::txt("touch"), x)).0;
            let t2 = t1.step(ReplyView::Value(fd));
            let m = s.begin(line(print::txt("rm"), x)).0;
            let m2 = m.step(a);
            let k = s.begin(line(print::txt("mkdir"), x)).0.step(a);
            &&& over(
                t1.step(ReplyView::Fail),
                s.cwd,
                s.out.say("touch: failed (bad parent?): ").line_of(p),
            )
            &&& goes_on(t2, s, CallView::Close { fd })
            &&& over(t2.0.step(b), s.cwd, s.out.say("touch: created ").line_of(p))
            &&& a == yes ==> over(m2, s.cwd, s.out.say("rm: removed ").line_of(p))
            &&& a != yes ==> goes_on(m2, s, CallView::Rmdir { path: p })
            &&& a != yes && b == yes ==> over(
                m2.0.step(b),
                s.cwd,
                s.out.say("rm: removed directory ").line_of(p),
            )
            &&& a != yes && b != yes ==> over(
                m2.0.step(b),
                s.cwd,
                s.out.say("rm: failed (not found, or directory not empty): ").line_of(p),
            )
            &&& a == yes ==> over(k, s.cwd, s.out.say("mkdir: created ").line_of(p))
            &&& a != yes ==> over(
                k,
                s.cwd,
                s.out.say("mkdir: failed (exists or bad parent): ").line_of(p),
            )
        }),
{
    lemma_start(s, x);
    reveal(ShellView::step);
    reveal(ShellView::step_file);
    reveal(ShellView::step_made);
}

/// Law: `mv` and `ln` say which path became which, or which could not be moved or linked.
pub proof fn law_move_and_link(s: ShellView, x: Seq<u8>, y: Seq<u8>, a: ReplyView)
    requires
        one_word(x),
        typed(y),
        x[0] != 0x2D,
        named(s, x) is Some,
        named(s, y) is Some,
    ensures
        ({
            let p = named(s, x)->Some_0;
            let q = named(s, y)->Some_0;
            let yes = ReplyView::Value(1);
            let mv = s.begin(line(print::txt("mv"), line(x, y))).0.step(a);
            let ln = s.begin(line(print::txt("ln"), line(x, y))).0.step(a);
            let sym = s.begin(
                line(print::txt("ln"), line(seq![0x2Du8, 0x73], line(x, y))),
            ).0.step(a);
            &&& a == yes ==> {
                &&& over(mv, s.cwd, s.out.say("mv: ").text(p).say(" -> ").line_of(q))
                &&& over(ln, s.cwd, s.out.say("ln: ").text(q).say(" -> ").line_of(p))
                &&& over(sym, s.cwd, s.out.say("ln -s: ").text(q).say(" -> ").line_of(x))
            }
            &&& a != yes ==> {
                &&& over(
                    mv,
                    s.cwd,
                    s.out.say("mv: failed (cross-fs, bad target, or directory loop): ").line_of(p),
                )
                &&& over(
                    ln,
                    s.cwd,
                    s.out.say("ln: failed (needs an existing file, new name, same fs): ").line_of(
                        p,
                    ),
                )
                &&& over(
                    sym,
                    s.cwd,
                    s.out.say(
                        "ln -s: failed (name exists, target empty/too long, or no MFS): ",
                    ).line_of(q),
                )
            }
        }),
{
    shell_laws::law_words(x);
    reveal(ShellView::command);
    reveal(ShellView::mv);
    reveal(ShellView::ln);
    shell_laws::lemma_line(x, y);
    let l = line(x, y);
    shell_laws::lemma_begin(s, print::txt("mv"), l);
    shell_laws::lemma_begin(s, print::txt("ln"), l);
    shell_laws::lemma_switch(0x73, l);
    shell_laws::lemma_begin(s, print::txt("ln"), line(seq![0x2Du8, 0x73], l));
    assert(l[0] == x[0]);
    reveal(ShellView::step);
    reveal(ShellView::step_two);
}

/// Law: `truncate` asks for the size that was typed of the file that it opened, and closes it;
/// `chmod` says the mode that was set.
pub proof fn law_set_size_and_mode(
    s: ShellView,
    x: Seq<u8>,
    m: Seq<u8>,
    fd: u64,
    a: ReplyView,
    b: ReplyView,
)
    requires
        one_word(x),
        one_word(m),
        named(s, x) is Some,
    ensures
        ({
            let p = named(s, x)->Some_0;
            let yes = ReplyView::Value(1);
            let t1 = s.begin(line(print::txt("truncate"), line(x, m))).0;
            let t2 = t1.step(ReplyView::Value(fd));
            let t3 = t2.0.step(a);
            let c = s.begin(line(print::txt("chmod"), line(m, x))).0.step(a);
            &&& text::number(m, 10) matches Some(n) ==> {
                &&& over(
                    t1.step(ReplyView::Fail),
                    s.cwd,
                    s.out.say("truncate: cannot open ").line_of(p),
                )
                &&& goes_on(t2, s, CallView::Truncate { fd, size: n as u64 })
                &&& goes_on(t3, s, CallView::Close { fd })
                &&& over(
                    t3.0.step(b),
                    s.cwd,
                    if a == yes {
                        s.out.say("truncate: size=").text(print::dec(n as u64 as int)).say(
                            " ",
                        ).line_of(p)
                    } else {
                        s.out.say("truncate: failed (directory or bad file): ").line_of(p)
                    },
                )
            }
            &&& text::number(m, 8) matches Some(v) ==> v <= 0xFFFF_FFFF ==> over(
                c,
                s.cwd,
                if a == yes {
                    s.out.say("chmod: mode=").text(print::dec(v)).say(" ").line_of(p)
                } else {
                    s.out.say("chmod: failed: ").line_of(p)
                },
            )
        }),
{
    shell_laws::law_words(x);
    text::lemma_number_range(m, 0, 0, 8);
    reveal(ShellView::command);
    reveal(ShellView::chmod);
    reveal(ShellView::truncate);
    shell_laws::lemma_line(x, m);
    shell_laws::lemma_line(m, x);
    shell_laws::lemma_begin(s, print::txt("chmod"), line(m, x));
    shell_laws::lemma_begin(s, print::txt("truncate"), line(x, m));
    reveal(ShellView::step);
    reveal(ShellView::step_truncate);
    reveal(ShellView::step_made);
}

/// Law: `readlink` shows what the link holds; `stat` and `lstat` show what was found. What is not
/// there is named.
pub proof fn law_look(s: ShellView, x: Seq<u8>, d: Seq<u8>, f: Stat)
    requires
        typed(x),
        named(s, x) is Some,
    ensures
        ({
            let p = named(s, x)->Some_0;
            let r = s.begin(line(print::txt("readlink"), x)).0;
            let st = s.begin(line(print::txt("stat"), x)).0;
            let ls = s.begin(line(print::txt("lstat"), x)).0;
            &&& d.len() > 0 ==> over(
                r.step(ReplyView::Data(d)),
                s.cwd,
                s.out.text(d.map_values(|b: u8| print::shown(b))).line(""),
            )
            &&& over(
                r.step(ReplyView::Data(Seq::empty())),
                s.cwd,
                s.out.say("readlink: not a symbolic link: ").line_of(p),
            )
            &&& over(
                r.step(ReplyView::Fail),
                s.cwd,
                s.out.say("readlink: not a symbolic link: ").line_of(p),
            )
            &&& over(
                st.step(ReplyView::Fail),
                s.cwd,
                s.out.say("stat: cannot stat ").line_of(p),
            )
            &&& over(
                ls.step(ReplyView::Fail),
                s.cwd,
                s.out.say("lstat: cannot stat ").line_of(p),
            )
            &&& over(st.step(ReplyView::StatOf(f)), s.cwd, found(s.out, p, f))
            &&& over(ls.step(ReplyView::StatOf(f)), s.cwd, found(s.out, p, f))
        }),
{
    lemma_start(s, x);
    reveal(ShellView::step);
    reveal(ShellView::step_look);
}

/// What is shown of a file: its path, type and mode, its owner, how many names it has and how many
/// bytes, and when it was last written and changed.
pub open spec fn found(out: PrintView, p: Seq<u8>, f: Stat) -> PrintView {
    let a = out.say("  File: ").line_of(p).say("  Type: ");
    let b = text::type_line(a, f.mode, f.is_dir).say("  Mode: ").text(
        text::mode_text(f.mode, f.is_dir),
    );
    let c = b.say("  Owner: domain ").text(print::dec(f.owner as int)).say("  Links: ").text(
        print::dec(f.nlink as int),
    ).say("  Size:  ").text(print::dec(f.size as int));
    let d = text::shown_time(c.say("  Modify: "), f.mtime);
    text::shown_time(d.say("  Change: "), f.ctime)
}

/// Law: `echo` repeats what was typed after it, `pwd` says where the shell is, `cd` alone goes to
/// the root, `ls` alone lists the working directory, `clear` clears, an empty line does nothing,
/// and any other word is named as unknown.
pub proof fn law_plain_commands(s: ShellView, x: Seq<u8>, w: Seq<u8>)
    requires
        typed(x),
        one_word(w),
        shell::verb_spec(w) is Other,
    ensures
        over(s.begin(line(print::txt("echo"), x)), s.cwd, s.out.line_of(x)),
        over(s.begin(print::txt("echo")), s.cwd, s.out.line_of(Seq::empty())),
        over(s.begin(print::txt("pwd")), s.cwd, s.out.line_of(s.cwd)),
        over(s.begin(Seq::empty()), s.cwd, s.out),
        over(
            s.begin(line(w, x)),
            s.cwd,
            s.out.say("shell: unknown command: ").line_of(w),
        ),
        over(s.begin(w), s.cwd, s.out.say("shell: unknown command: ").line_of(w)),
        s.begin(print::txt("clear")).1 == Some(CallView::Clear),
        s.begin(print::txt("cd")).1 == match named(s, seq![0x2Fu8]) {
            Some(p) => Some(CallView::Open { path: p }),
            None => None,
        },
        s.begin(print::txt("ls")).1 == match named(s, seq![0x2Eu8]) {
            Some(p) => Some(CallView::Open { path: p }),
            None => None,
        },
{
    shell_laws::law_words(w);
    reveal(ShellView::command);
    reveal(ShellView::ls);
    reveal(ShellView::cd);
    shell_laws::lemma_begin(s, print::txt("echo"), x);
    shell_laws::lemma_begin(s, print::txt("pwd"), x);
    shell_laws::lemma_begin(s, print::txt("clear"), x);
    shell_laws::lemma_begin(s, print::txt("cd"), x);
    shell_laws::lemma_begin(s, print::txt("ls"), x);
    shell_laws::lemma_begin(s, w, x);
    assert(s.begin(Seq::empty()) == s.done(s.out)) by {
        reveal(ShellView::begin);
        assert(text::trimmed(Seq::empty()).len() == 0);
    }
}

} // verus!
