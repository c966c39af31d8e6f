//! The shell: what it does with a line, and with each answer of a file service.
//!
//! A command runs in steps. Each step may print, and may end with a call to a file service;
//! the answer to that call starts the next step.
use vstd::prelude::*;

use crate::bytes;
use crate::path;
use crate::print;
use crate::print::{PrintView, Printer};
use crate::text;
use crate::vfs::{Reply, ReplyView, Stat};

verus! {

/// Longest line.
pub const SHELL_LINE_MAX: usize = 128;

/// Longest working directory.
pub const CWD_MAX: usize = 128;

/// Longest path.
pub const PATH_MAX: usize = 256;

/// How much of a file `cat` shows.
pub const CAT_MAX: u32 = 4096;

/// The commands.
#[derive(Clone, Copy, PartialEq, Eq, Structural)]
pub enum Verb {
    Help,
    Echo,
    Pwd,
    Ls,
    Cat,
    Cd,
    Mkdir,
    Touch,
    Rm,
    Mv,
    Ln,
    Chmod,
    Truncate,
    Stat,
    Lstat,
    Readlink,
    Mkfs,
    Clear,
    Other,
}

/// A call to a file service, or to the console.
pub enum Call {
    Open { path: Vec<u8> },
    Readdir { fd: u64 },
    Close { fd: u64 },
    Read { fd: u64, count: u32 },
    Creat { path: Vec<u8> },
    Mkdir { path: Vec<u8> },
    Unlink { path: Vec<u8> },
    Rmdir { path: Vec<u8> },
    Chmod { path: Vec<u8>, mode: u32 },
    Rename { from: Vec<u8>, to: Vec<u8> },
    Link { target: Vec<u8>, path: Vec<u8> },
    Symlink { target: Vec<u8>, path: Vec<u8> },
    Truncate { fd: u64, size: u64 },
    Stat { path: Vec<u8> },
    Lstat { path: Vec<u8> },
    Readlink { path: Vec<u8> },
    MakeFs { vol: u64 },
    Clear,
}

/// The contents of a call.
pub enum CallView {
    Open { path: Seq<u8> },
    Readdir { fd: u64 },
    Close { fd: u64 },
    Read { fd: u64, count: u32 },
    Creat { path: Seq<u8> },
    Mkdir { path: Seq<u8> },
    Unlink { path: Seq<u8> },
    Rmdir { path: Seq<u8> },
    Chmod { path: Seq<u8>, mode: u32 },
    Rename { from: Seq<u8>, to: Seq<u8> },
    Link { target: Seq<u8>, path: Seq<u8> },
    Symlink { target: Seq<u8>, path: Seq<u8> },
    Truncate { fd: u64, size: u64 },
    Stat { path: Seq<u8> },
    Lstat { path: Seq<u8> },
    Readlink { path: Seq<u8> },
    MakeFs { vol: u64 },
    Clear,
}

impl Call {
    pub open spec fn view(&self) -> CallView {
        match self {
            Call::Open { path } => CallView::Open { path: path@ },
            Call::Readdir { fd } => CallView::Readdir { fd: *fd },
            Call::Close { fd } => CallView::Close { fd: *fd },
            Call::Read { fd, count } => CallView::Read { fd: *fd, count: *count },
            Call::Creat { path } => CallView::Creat { path: path@ },
            Call::Mkdir { path } => CallView::Mkdir { path: path@ },
            Call::Unlink { path } => CallView::Unlink { path: path@ },
            Call::Rmdir { path } => CallView::Rmdir { path: path@ },
            Call::Chmod { path, mode } => CallView::Chmod { path: path@, mode: *mode },
            Call::Rename { from, to } => CallView::Rename { from: from@, to: to@ },
            Call::Link { target, path } => CallView::Link { target: target@, path: path@ },
            Call::Symlink { target, path } => CallView::Symlink { target: target@, path: path@ },
            Call::Truncate { fd, size } => CallView::Truncate { fd: *fd, size: *size },
            Call::Stat { path } => CallView::Stat { path: path@ },
            Call::Lstat { path } => CallView::Lstat { path: path@ },
            Call::Readlink { path } => CallView::Readlink { path: path@ },
            Call::MakeFs { vol } => CallView::MakeFs { vol: *vol },
            Call::Clear => CallView::Clear,
        }
    }
}

/// The contents of an optional call.
pub open spec fn call_view(c: Option<Call>) -> Option<CallView> {
    match c {
        None => None,
        Some(x) => Some(x@),
    }
}

/// What the shell waits for.
#[derive(Clone, Copy, PartialEq, Eq, Structural)]
pub enum Wait {
    /// Nothing, or an answer that changes nothing.
    Nothing,
    LsOpen,
    LsList,
    CatOpen,
    CatRead,
    CdOpen,
    CdList,
    CdClose,
    Mkdir,
    TouchMade,
    TouchClose,
    RmFile,
    RmDir,
    Mv,
    Ln,
    LnSym,
    Chmod,
    TruncOpen,
    TruncCut,
    TruncClose,
    Stat,
    Lstat,
    Readlink,
    Mkfs,
}

/// The command that runs: what it waits for, and what it was given.
#[verifier::ext_equal]
pub struct TaskView {
    pub wait: Wait,
    pub path: Seq<u8>,
    pub other: Seq<u8>,
    pub num: u64,
    pub fd: u64,
    pub flag: bool,
}

impl TaskView {
    /// No command.
    pub open spec fn idle() -> TaskView {
        TaskView::on(Wait::Nothing, Seq::empty())
    }

    /// A command on a path.
    pub open spec fn on(wait: Wait, path: Seq<u8>) -> TaskView {
        TaskView { wait, path, other: Seq::empty(), num: 0, fd: 0, flag: false }
    }
}

/// The state of the shell: working directory, console, the command that runs.
#[verifier::ext_equal]
pub struct ShellView {
    pub cwd: Seq<u8>,
    pub out: PrintView,
    pub task: TaskView,
}

/// A path argument as it is joined to the working directory.
pub open spec fn raw_path(cwd: Seq<u8>, arg: Seq<u8>) -> Seq<u8> {
    let c = if cwd.len() > CWD_MAX {
        cwd.subrange(0, CWD_MAX as int)
    } else {
        cwd
    };
    if arg.len() > 0 && arg[0] == 0x2F {
        arg
    } else if c.len() > 0 && c.last() == 0x2F {
        c + arg
    } else {
        c + seq![0x2Fu8] + arg
    }
}

/// The absolute path, in normal form, that an argument names; `None` where it is too long.
pub open spec fn joined(cwd: Seq<u8>, arg: Seq<u8>) -> Option<Seq<u8>> {
    let raw = raw_path(cwd, arg);
    if raw.len() > PATH_MAX {
        None
    } else {
        path::plain(seq![0x2Fu8] + raw, PATH_MAX as int, PATH_MAX as int)
    }
}

/// Segments and the slashes between them, from `k` on.
pub open spec fn total(segs: Seq<Seq<u8>>, k: int) -> int
    decreases segs.len() - k,
{
    if k >= segs.len() {
        0
    } else {
        segs[k].len() + 1 + total(segs, k + 1)
    }
}

/// The sum over a list from its second element on.
proof fn lemma_total_tail(a: Seq<u8>, rest: Seq<Seq<u8>>, k: int)
    requires
        0 <= k <= rest.len(),
    ensures
        total(seq![a] + rest, k + 1) == total(rest, k),
    decreases rest.len() - k,
{
    let l = seq![a] + rest;
    if k < rest.len() {
        assert(l[k + 1] == rest[k]);
        lemma_total_tail(a, rest, k + 1);
    }
}

/// Segments take no more room than the path that they are cut from.
proof fn lemma_total(p: Seq<u8>, i: int)
    requires
        0 <= i <= p.len(),
    ensures
        0 <= total(path::segs_from(p, i), 0) <= p.len() - i + 1,
        i < p.len() && p[i] == 0x2F ==> total(path::segs_from(p, i), 0) <= p.len() - i,
        i == p.len() ==> total(path::segs_from(p, i), 0) == 0,
    decreases p.len() - i,
{
    if i < p.len() {
        if p[i] == 0x2F {
            lemma_total(p, i + 1);
        } else {
            path::lemma_seg_end(p, i);
            let j = path::seg_end(p, i);
            lemma_total(p, j);
            let rest = path::segs_from(p, j);
            lemma_total_tail(p.subrange(i, j), rest, 0);
            assert((seq![p.subrange(i, j)] + rest)[0] == p.subrange(i, j));
        }
    }
}

/// Where there is room for all segments, a normal form exists.
proof fn lemma_room(segs: Seq<Seq<u8>>, k: int, out: Seq<u8>)
    requires
        0 <= k <= segs.len(),
        1 <= out.len(),
        path::all_clean(segs),
        (if out.len() == 1 {
            0
        } else {
            out.len() as int
        }) + total(segs, k) <= PATH_MAX,
    ensures
        path::plain_from(segs, k, out, PATH_MAX as int, PATH_MAX as int) is Some,
    decreases segs.len() - k,
{
    if k < segs.len() {
        assert(segs[k].len() > 0);
        lemma_total_positive(segs, k + 1);
        path::lemma_after_slash(out, out.len() as int);
        if segs[k] == seq![0x2Eu8] {
            lemma_room(segs, k + 1, out);
        } else if segs[k] == seq![0x2Eu8, 0x2Eu8] {
            lemma_room(segs, k + 1, path::pop_segment(out));
        } else {
            lemma_room(segs, k + 1, path::push_segment(out, segs[k]));
        }
    }
}

/// Sums of lengths are not negative.
proof fn lemma_total_positive(segs: Seq<Seq<u8>>, k: int)
    ensures
        total(segs, k) >= 0,
    decreases segs.len() - k,
{
    if k < segs.len() {
        lemma_total_positive(segs, k + 1);
    }
}

/// A slash more at the front changes no segment.
proof fn lemma_front_slash(raw: Seq<u8>, i: int)
    requires
        0 <= i <= raw.len(),
    ensures
        path::segs_from(seq![0x2Fu8] + raw, i + 1) == path::segs_from(raw, i),
    decreases raw.len() - i,
{
    let p = seq![0x2Fu8] + raw;
    if i < raw.len() {
        assert(p[i + 1] == raw[i]);
        if raw[i] == 0x2F {
            lemma_front_slash(raw, i + 1);
        } else {
            path::lemma_seg_end(raw, i);
            let j = path::seg_end(raw, i);
            assert forall|k: int| i + 1 <= k < j + 1 implies p[k] != 0x2F by {
                assert(p[k] == raw[k - 1]);
            }
            path::lemma_run(p, i + 1, j + 1);
            assert(p.subrange(i + 1, j + 1) =~= raw.subrange(i, j));
            lemma_front_slash(raw, j);
        }
    }
}

/// Law: an argument has a path exactly where it fits, joined to the working directory, into
/// the longest path.
pub proof fn law_joined_exists(cwd: Seq<u8>, arg: Seq<u8>)
    requires
        cwd.len() > 0,
        cwd[0] == 0x2F,
    ensures
        joined(cwd, arg) is Some <==> raw_path(cwd, arg).len() <= PATH_MAX,
{
    let raw = raw_path(cwd, arg);
    if raw.len() <= PATH_MAX {
        let p = seq![0x2Fu8] + raw;
        assert(p[0] == 0x2F);
        assert(raw[0] == 0x2F);
        lemma_front_slash(raw, 0);
        assert(path::segs(p) == path::segs_from(p, 1));
        lemma_total(raw, 0);
        path::lemma_segs_clean(raw, 0);
        lemma_room(path::segs(p), 0, seq![0x2Fu8]);
    }
}

/// Law: what an argument names is an absolute path in normal form; named again, from
/// anywhere, it is the same path.
pub proof fn law_joined_is_normal(cwd: Seq<u8>, arg: Seq<u8>, other: Seq<u8>)
    requires
        joined(cwd, arg) is Some,
    ensures
        joined(other, joined(cwd, arg)->Some_0) == joined(cwd, arg),
{
    let raw = raw_path(cwd, arg);
    let p = seq![0x2Fu8] + raw;
    let q = joined(cwd, arg)->Some_0;
    path::law_normal_is_fixed(p, PATH_MAX as int, PATH_MAX as int);
    assert(q.len() > 0 && q[0] == 0x2F);
    assert(raw_path(other, q) == q);
    lemma_plain_short(path::segs(p), 0, seq![0x2Fu8]);
    lemma_front_slash(q, 0);
    let r = seq![0x2Fu8] + q;
    assert(r[0] == 0x2F);
    assert(path::segs(r) == path::segs_from(r, 1));
}

/// A normal form keeps to the limit.
proof fn lemma_plain_short(segs: Seq<Seq<u8>>, k: int, out: Seq<u8>)
    requires
        0 <= k <= segs.len(),
        1 <= out.len() <= PATH_MAX,
    ensures
        path::plain_from(segs, k, out, PATH_MAX as int, PATH_MAX as int) matches Some(q)
            ==> q.len() <= PATH_MAX,
    decreases segs.len() - k,
{
    if k < segs.len() {
        path::lemma_after_slash(out, out.len() as int);
        lemma_plain_short(segs, k + 1, out);
        lemma_plain_short(segs, k + 1, path::pop_segment(out));
        if path::push_segment(out, segs[k]).len() <= PATH_MAX {
            lemma_plain_short(segs, k + 1, path::push_segment(out, segs[k]));
        }
    }
}

/// The command that a word names.
#[verifier::opaque]
pub open spec fn verb_spec(w: Seq<u8>) -> Verb {
    if w == print::txt("help") {
        Verb::Help
    } else if w == print::txt("echo") {
        Verb::Echo
    } else if w == print::txt("pwd") {
        Verb::Pwd
    } else if w == print::txt("ls") {
        Verb::Ls
    } else if w == print::txt("cat") {
        Verb::Cat
    } else if w == print::txt("cd") {
        Verb::Cd
    } else if w == print::txt("mkdir") {
        Verb::Mkdir
    } else if w == print::txt("touch") {
        Verb::Touch
    } else if w == print::txt("rm") {
        Verb::Rm
    } else if w == print::txt("mv") {
        Verb::Mv
    } else if w == print::txt("ln") {
        Verb::Ln
    } else if w == print::txt("chmod") {
        Verb::Chmod
    } else if w == print::txt("truncate") {
        Verb::Truncate
    } else if w == print::txt("stat") {
        Verb::Stat
    } else if w == print::txt("lstat") {
        Verb::Lstat
    } else if w == print::txt("readlink") {
        Verb::Readlink
    } else if w == print::txt("mkfs.mfs") {
        Verb::Mkfs
    } else if w == print::txt("clear") {
        Verb::Clear
    } else {
        Verb::Other
    }
}

/// The list of commands.
#[verifier::opaque]
pub open spec fn help_text(p: PrintView) -> PrintView {
    p.line("commands:").line("  help           show this help").line(
        "  echo <text>    print text",
    ).line("  pwd            print working directory").line(
        "  ls [-l] [path] list directory (-l: long form)",
    ).line("  cat <file>     print file content").line(
        "  cd [path]      change directory (default: /)",
    ).line("  mkdir <path>   create directory").line("  touch <file>   create empty file").line(
        "  rm <path>      remove file / empty directory",
    ).line("  mv <src> <dst> rename / move (same filesystem)").line(
        "  ln <src> <dst> hard link an existing file (same filesystem)",
    ).line("  ln -s <target> <name>  symbolic link (target kept verbatim; MFS only)").line(
        "  chmod <mode> <path>  set permission bits (octal, display-only)",
    ).line("  truncate <file> <size>  resize a file (sparse on grow)").line(
        "  stat <path>    show metadata (mode / owner / links / times)",
    ).line("  lstat <path>   like stat but on the link itself (no follow)").line(
        "  readlink <link>  print a symbolic link's target (no follow)",
    ).line("  mkfs.mfs <vol>   create a MorionFS filesystem on a volume (ERASES it)").line(
        "  clear          clear screen",
    ).line(
        "  (mounts: / = fat32, /tmp = tmpfs, /mfs = MorionFS, /ext2 = ext2 ro, /usb = exFAT)",
    ).line("  (extra volumes auto-mounted as /usb<N>, N = volume id in the boot volume list)")
}

impl ShellView {
    /// The command is over, with `out` printed.
    pub open spec fn done(self, out: PrintView) -> (ShellView, Option<CallView>) {
        (ShellView { out, task: TaskView::idle(), ..self }, None)
    }

    /// The command goes on with a call.
    pub open spec fn ask(self, task: TaskView, call: CallView) -> (ShellView, Option<CallView>) {
        (ShellView { task, ..self }, Some(call))
    }

    /// A command on one path, which is refused where the path is missing or too long.
    pub open spec fn on_path(
        self,
        arg: Seq<u8>,
        missing: &str,
        long: &str,
        wait: Wait,
        call: CallView,
    ) -> (ShellView, Option<CallView>) {
        if arg.len() == 0 {
            self.done(self.out.line(missing))
        } else {
            match joined(self.cwd, arg) {
                None => self.done(self.out.line(long)),
                Some(p) => self.ask(TaskView::on(wait, p), call),
            }
        }
    }

    /// The path that an argument names; empty where it is too long.
    pub open spec fn at(self, arg: Seq<u8>) -> Seq<u8> {
        match joined(self.cwd, arg) {
            None => Seq::empty(),
            Some(p) => p,
        }
    }

    /// `ls [-l] [path]`.
    #[verifier::opaque]
    pub open spec fn ls(self, arg: Seq<u8>) -> (ShellView, Option<CallView>) {
        let (long, rest) = match text::after_switch(arg, 0x2D, 0x6C) {
            Some(r) => (true, r),
            None => (false, arg),
        };
        let target = if rest.len() == 0 {
            seq![0x2Eu8]
        } else {
            rest
        };
        match joined(self.cwd, target) {
            None => self.done(self.out.line("ls: path too long")),
            Some(p) => self.ask(
                TaskView { flag: long, ..TaskView::on(Wait::LsOpen, p) },
                CallView::Open { path: p },
            ),
        }
    }

    /// `cd [path]`.
    #[verifier::opaque]
    pub open spec fn cd(self, arg: Seq<u8>) -> (ShellView, Option<CallView>) {
        let target = if arg.len() == 0 {
            seq![0x2Fu8]
        } else {
            arg
        };
        match joined(self.cwd, target) {
            None => self.done(self.out.line("cd: path too long")),
            Some(p) => self.ask(TaskView::on(Wait::CdOpen, p), CallView::Open { path: p }),
        }
    }

    /// `chmod <mode> <path>`.
    #[verifier::opaque]
    pub open spec fn chmod(self, arg: Seq<u8>) -> (ShellView, Option<CallView>) {
        match text::split_word(arg) {
            None => self.done(self.out.line("chmod: usage: chmod <octal-mode> <path>")),
            Some((word, rest)) => if rest.len() == 0 {
                self.done(self.out.line("chmod: usage: chmod <octal-mode> <path>"))
            } else {
                match text::number(word, 8) {
                    Some(m) => if m > u32::MAX {
                        self.done(self.out.say("chmod: bad mode: ").line_of(word))
                    } else {
                        match joined(self.cwd, rest) {
                            None => self.done(self.out.line("chmod: path too long")),
                            Some(p) => self.ask(
                                TaskView { num: m as u64, ..TaskView::on(Wait::Chmod, p) },
                                CallView::Chmod { path: p, mode: m as u32 },
                            ),
                        }
                    },
                    None => self.done(self.out.say("chmod: bad mode: ").line_of(word)),
                }
            },
        }
    }

    /// `mv <src> <dst>`.
    #[verifier::opaque]
    pub open spec fn mv(self, arg: Seq<u8>) -> (ShellView, Option<CallView>) {
        match text::split_word(arg) {
            None => self.done(self.out.line("mv: usage: mv <src> <dst>")),
            Some((a, b)) => if b.len() == 0 {
                self.done(self.out.line("mv: usage: mv <src> <dst>"))
            } else {
                match (joined(self.cwd, a), joined(self.cwd, b)) {
                    (None, _) => self.done(self.out.line("mv: source path too long")),
                    (_, None) => self.done(self.out.line("mv: target path too long")),
                    (Some(src), Some(dst)) => self.ask(
                        TaskView { other: dst, ..TaskView::on(Wait::Mv, src) },
                        CallView::Rename { from: src, to: dst },
                    ),
                }
            },
        }
    }

    /// How `ln` is used.
    pub open spec fn ln_usage(self, sym: bool) -> (ShellView, Option<CallView>) {
        if sym {
            self.done(self.out.line("ln: usage: ln -s <target> <link-name>"))
        } else {
            self.done(self.out.line("ln: usage: ln <existing-file> <new-name>"))
        }
    }

    /// `ln [-s] <target> <name>`; the target of a symbolic link is taken as it is.
    #[verifier::opaque]
    pub open spec fn ln(self, arg: Seq<u8>) -> (ShellView, Option<CallView>) {
        let (sym, rest) = match text::after_switch(arg, 0x2D, 0x73) {
            Some(r) => (true, r),
            None => (false, arg),
        };
        match text::split_word(rest) {
            None => self.ln_usage(sym),
            Some((a, b)) => if b.len() == 0 {
                self.ln_usage(sym)
            } else {
                match joined(self.cwd, b) {
                    None => self.done(self.out.line("ln: target path too long")),
                    Some(dst) => if sym {
                        self.ask(
                            TaskView { other: dst, ..TaskView::on(Wait::LnSym, a) },
                            CallView::Symlink { target: a, path: dst },
                        )
                    } else {
                        match joined(self.cwd, a) {
                            None => self.done(self.out.line("ln: source path too long")),
                            Some(src) => self.ask(
                                TaskView { other: dst, ..TaskView::on(Wait::Ln, src) },
                                CallView::Link { target: src, path: dst },
                            ),
                        }
                    },
                }
            },
        }
    }

    /// `truncate <path> <size>`.
    #[verifier::opaque]
    pub open spec fn truncate(self, arg: Seq<u8>) -> (ShellView, Option<CallView>) {
        match text::split_word(arg) {
            None => self.done(self.out.line("truncate: usage: truncate <path> <size>")),
            Some((a, b)) => match text::number(b, 10) {
                None => self.done(self.out.say("truncate: bad size: ").line_of(b)),
                Some(n) => match joined(self.cwd, a) {
                    None => self.done(self.out.line("truncate: path too long")),
                    Some(p) => self.ask(
                        TaskView { num: n as u64, ..TaskView::on(Wait::TruncOpen, p) },
                        CallView::Open { path: p },
                    ),
                },
            },
        }
    }

    /// `mkfs.mfs <volume>`.
    #[verifier::opaque]
    pub open spec fn mkfs(self, arg: Seq<u8>) -> (ShellView, Option<CallView>) {
        match text::number(arg, 10) {
            None => self.done(
                self.out.line(
                    "mkfs.mfs: usage: mkfs.mfs <volume-id>   (see the 'vol:' lines in the boot log)",
                ),
            ),
            Some(v) => self.ask(
                TaskView { num: v as u64, ..TaskView::on(Wait::Mkfs, Seq::empty()) },
                CallView::MakeFs { vol: v as u64 },
            ),
        }
    }

    /// A command on one path.
    #[verifier::opaque]
    pub open spec fn simple(self, verb: Verb, arg: Seq<u8>) -> (ShellView, Option<CallView>) {
        let p = self.at(arg);
        match verb {
            Verb::Cat => self.on_path(
                arg,
                "cat: missing file operand",
                "cat: path too long",
                Wait::CatOpen,
                CallView::Open { path: p },
            ),
            Verb::Mkdir => self.on_path(
                arg,
                "mkdir: missing operand",
                "mkdir: path too long",
                Wait::Mkdir,
                CallView::Mkdir { path: p },
            ),
            Verb::Touch => self.on_path(
                arg,
                "touch: missing operand",
                "touch: path too long",
                Wait::TouchMade,
                CallView::Creat { path: p },
            ),
            Verb::Rm => self.on_path(
                arg,
                "rm: missing operand",
                "rm: path too long",
                Wait::RmFile,
                CallView::Unlink { path: p },
            ),
            Verb::Stat => self.on_path(
                arg,
                "stat: missing operand",
                "stat: path too long",
                Wait::Stat,
                CallView::Stat { path: p },
            ),
            Verb::Lstat => self.on_path(
                arg,
                "stat: missing operand",
                "stat: path too long",
                Wait::Lstat,
                CallView::Lstat { path: p },
            ),
            _ => self.on_path(
                arg,
                "readlink: missing operand",
                "readlink: path too long",
                Wait::Readlink,
                CallView::Readlink { path: p },
            ),
        }
    }

    /// A command.
    #[verifier::opaque]
    pub open spec fn command(self, verb: Verb, word: Seq<u8>, arg: Seq<u8>) -> (
        ShellView,
        Option<CallView>,
    ) {
        match verb {
            Verb::Help => self.done(help_text(self.out)),
            Verb::Echo => self.done(self.out.line_of(arg)),
            Verb::Pwd => self.done(self.out.line_of(self.cwd)),
            Verb::Ls => self.ls(arg),
            Verb::Cd => self.cd(arg),
            Verb::Mv => self.mv(arg),
            Verb::Ln => self.ln(arg),
            Verb::Chmod => self.chmod(arg),
            Verb::Truncate => self.truncate(arg),
            Verb::Mkfs => self.mkfs(arg),
            Verb::Clear => self.ask(TaskView::idle(), CallView::Clear),
            Verb::Other => self.done(self.out.say("shell: unknown command: ").line_of(word)),
            _ => self.simple(verb, arg),
        }
    }

    /// A line given to the shell: the first word is the command.
    #[verifier::opaque]
    pub open spec fn begin(self, line: Seq<u8>) -> (ShellView, Option<CallView>) {
        let s = text::trimmed(line);
        if s.len() == 0 {
            self.done(self.out)
        } else {
            match text::split_word(s) {
                Some((word, arg)) => self.command(verb_spec(word), word, arg),
                None => self.command(verb_spec(s), s, Seq::empty()),
            }
        }
    }

    /// The prompt, which is shown at once.
    pub open spec fn prompted(self) -> ShellView {
        ShellView {
            out: self.out.say("[morion@morion ").text(self.cwd).say("]$ ").flush(),
            ..self
        }
    }

    /// What was found of a file.
    pub open spec fn shown_stat(self, s: Stat) -> PrintView {
        let o1 = text::type_line(
            self.out.say("  File: ").line_of(self.task.path).say("  Type: "),
            s.mode,
            s.is_dir,
        ).say("  Mode: ").text(text::mode_text(s.mode, s.is_dir));
        let o2 = o1.say("  Owner: domain ").text(print::dec(s.owner as int)).say("  Links: ").text(
            print::dec(s.nlink as int),
        ).say("  Size:  ").text(print::dec(s.size as int));
        text::shown_time(
            text::shown_time(o2.say("  Modify: "), s.mtime).say("  Change: "),
            s.ctime,
        )
    }

    /// The last line of a command that says whether it was done: `yes` or `no`, and a path.
    pub open spec fn verdict(self, ok: bool, yes: &str, no: &str) -> (ShellView, Option<CallView>) {
        if ok {
            self.done(self.out.say(yes).line_of(self.task.path))
        } else {
            self.done(self.out.say(no).line_of(self.task.path))
        }
    }

    /// The next step of `ls`.
    #[verifier::opaque]
    pub open spec fn step_ls(self, r: ReplyView) -> (ShellView, Option<CallView>) {
        match (self.task.wait, r) {
            (Wait::LsOpen, ReplyView::Value(fd)) => self.ask(
                TaskView { wait: Wait::LsList, fd, ..self.task },
                CallView::Readdir { fd },
            ),
            (Wait::LsOpen, _) => self.done(
                self.out.say("ls: cannot open ").line_of(self.task.path),
            ),
            (_, ReplyView::Entries(l)) => ShellView {
                out: text::shown_list(self.out, l, 0, self.task.flag),
                ..self
            }.ask(TaskView::idle(), CallView::Close { fd: self.task.fd }),
            _ => ShellView {
                out: self.out.say("ls: not a directory: ").line_of(self.task.path),
                ..self
            }.ask(TaskView::idle(), CallView::Close { fd: self.task.fd }),
        }
    }

    /// The next step of `cat`.
    #[verifier::opaque]
    pub open spec fn step_cat(self, r: ReplyView) -> (ShellView, Option<CallView>) {
        match (self.task.wait, r) {
            (Wait::CatOpen, ReplyView::Value(fd)) => self.ask(
                TaskView { wait: Wait::CatRead, fd, ..self.task },
                CallView::Read { fd, count: CAT_MAX },
            ),
            (Wait::CatOpen, _) => self.done(
                self.out.say("cat: cannot open ").line_of(self.task.path),
            ),
            (_, ReplyView::Data(d)) => ShellView {
                out: self.out.text(d.map_values(|b: u8| print::shown(b))).line(""),
                ..self
            }.ask(TaskView::idle(), CallView::Close { fd: self.task.fd }),
            _ => ShellView {
                out: self.out.line("cat: read failed (is it a directory?)"),
                ..self
            }.ask(TaskView::idle(), CallView::Close { fd: self.task.fd }),
        }
    }

    /// The next step of `cd`.
    #[verifier::opaque]
    pub open spec fn step_cd(self, r: ReplyView) -> (ShellView, Option<CallView>) {
        match (self.task.wait, r) {
            (Wait::CdOpen, ReplyView::Value(fd)) => self.ask(
                TaskView { wait: Wait::CdList, fd, ..self.task },
                CallView::Readdir { fd },
            ),
            (Wait::CdOpen, _) => self.done(
                self.out.say("cd: no such directory: ").line_of(self.task.path),
            ),
            (Wait::CdList, r2) => self.ask(
                TaskView { wait: Wait::CdClose, flag: r2 is Entries, ..self.task },
                CallView::Close { fd: self.task.fd },
            ),
            _ => if self.task.flag {
                ShellView {
                    cwd: if self.task.path.len() > CWD_MAX {
                        self.task.path.subrange(0, CWD_MAX as int)
                    } else {
                        self.task.path
                    },
                    ..self
                }.done(self.out)
            } else {
                self.done(self.out.say("cd: not a directory: ").line_of(self.task.path))
            },
        }
    }

    /// The next step of `touch` and `rm`.
    #[verifier::opaque]
    pub open spec fn step_file(self, r: ReplyView) -> (ShellView, Option<CallView>) {
        match (self.task.wait, r) {
            (Wait::TouchMade, ReplyView::Value(fd)) => self.ask(
                TaskView { wait: Wait::TouchClose, ..self.task },
                CallView::Close { fd },
            ),
            (Wait::TouchMade, _) => self.done(
                self.out.say("touch: failed (bad parent?): ").line_of(self.task.path),
            ),
            (Wait::TouchClose, _) => self.done(
                self.out.say("touch: created ").line_of(self.task.path),
            ),
            (Wait::RmFile, r2) => if r2 == ReplyView::Value(1) {
                self.done(self.out.say("rm: removed ").line_of(self.task.path))
            } else {
                self.ask(
                    TaskView { wait: Wait::RmDir, ..self.task },
                    CallView::Rmdir { path: self.task.path },
                )
            },
            (_, r2) => self.verdict(
                r2 == ReplyView::Value(1),
                "rm: removed directory ",
                "rm: failed (not found, or directory not empty): ",
            ),
        }
    }

    /// The last step of a command that names two paths.
    #[verifier::opaque]
    pub open spec fn step_two(self, ok: bool) -> (ShellView, Option<CallView>) {
        let src = self.task.path;
        let dst = self.task.other;
        match self.task.wait {
            Wait::Mv => if ok {
                self.done(self.out.say("mv: ").text(src).say(" -> ").line_of(dst))
            } else {
                self.done(
                    self.out.say("mv: failed (cross-fs, bad target, or directory loop): ").line_of(
                        src,
                    ),
                )
            },
            Wait::LnSym => if ok {
                self.done(self.out.say("ln -s: ").text(dst).say(" -> ").line_of(src))
            } else {
                self.done(
                    self.out.say(
                        "ln -s: failed (name exists, target empty/too long, or no MFS): ",
                    ).line_of(dst),
                )
            },
            _ => if ok {
                self.done(self.out.say("ln: ").text(dst).say(" -> ").line_of(src))
            } else {
                self.done(
                    self.out.say(
                        "ln: failed (needs an existing file, new name, same fs): ",
                    ).line_of(src),
                )
            },
        }
    }

    /// The next step of `truncate`.
    #[verifier::opaque]
    pub open spec fn step_truncate(self, r: ReplyView) -> (ShellView, Option<CallView>) {
        match (self.task.wait, r) {
            (Wait::TruncOpen, ReplyView::Value(fd)) => self.ask(
                TaskView { wait: Wait::TruncCut, fd, ..self.task },
                CallView::Truncate { fd, size: self.task.num },
            ),
            (Wait::TruncOpen, _) => self.done(
                self.out.say("truncate: cannot open ").line_of(self.task.path),
            ),
            (Wait::TruncCut, r2) => self.ask(
                TaskView { wait: Wait::TruncClose, flag: r2 == ReplyView::Value(1), ..self.task },
                CallView::Close { fd: self.task.fd },
            ),
            _ => if self.task.flag {
                self.done(
                    self.out.say("truncate: size=").text(print::dec(self.task.num as int)).say(
                        " ",
                    ).line_of(self.task.path),
                )
            } else {
                self.done(
                    self.out.say("truncate: failed (directory or bad file): ").line_of(
                        self.task.path,
                    ),
                )
            },
        }
    }

    /// The last step of `chmod`, `mkdir` and `mkfs.mfs`.
    #[verifier::opaque]
    pub open spec fn step_made(self, r: ReplyView) -> (ShellView, Option<CallView>) {
        match self.task.wait {
            Wait::Chmod => if r == ReplyView::Value(1) {
                self.done(
                    self.out.say("chmod: mode=").text(print::dec(self.task.num as int)).say(
                        " ",
                    ).line_of(self.task.path),
                )
            } else {
                self.done(self.out.say("chmod: failed: ").line_of(self.task.path))
            },
            Wait::Mkdir => self.verdict(
                r == ReplyView::Value(1),
                "mkdir: created ",
                "mkdir: failed (exists or bad parent): ",
            ),
            _ => match r {
                ReplyView::Value(serial) => self.done(
                    self.out.say("mkfs.mfs: volume ").text(print::dec(self.task.num as int)).say(
                        " formatted, marked primary (serial ",
                    ).text(print::dec(serial as int)).line(
                        ") -> /mfs after next boot; other volumes mount at /usb<volume-id>",
                    ),
                ),
                _ => self.done(
                    self.out.say("mkfs.mfs: refused volume ").text(
                        print::dec(self.task.num as int),
                    ).line(" (not blank, not MFS, or no such volume)"),
                ),
            },
        }
    }

    /// The last step of `stat`, `lstat` and `readlink`.
    #[verifier::opaque]
    pub open spec fn step_look(self, r: ReplyView) -> (ShellView, Option<CallView>) {
        match (self.task.wait, r) {
            (Wait::Readlink, ReplyView::Data(d)) => if d.len() == 0 {
                self.done(self.out.say("readlink: not a symbolic link: ").line_of(self.task.path))
            } else {
                self.done(self.out.text(d.map_values(|b: u8| print::shown(b))).line(""))
            },
            (Wait::Readlink, _) => self.done(
                self.out.say("readlink: not a symbolic link: ").line_of(self.task.path),
            ),
            (_, ReplyView::StatOf(s)) => self.done(self.shown_stat(s)),
            (Wait::Lstat, _) => self.done(
                self.out.say("lstat: cannot stat ").line_of(self.task.path),
            ),
            _ => self.done(self.out.say("stat: cannot stat ").line_of(self.task.path)),
        }
    }

    /// The answer to the last call taken.
    #[verifier::opaque]
    pub open spec fn step(self, r: ReplyView) -> (ShellView, Option<CallView>) {
        match self.task.wait {
            Wait::Nothing => self.done(self.out),
            Wait::LsOpen | Wait::LsList => self.step_ls(r),
            Wait::CatOpen | Wait::CatRead => self.step_cat(r),
            Wait::CdOpen | Wait::CdList | Wait::CdClose => self.step_cd(r),
            Wait::TouchMade | Wait::TouchClose | Wait::RmFile | Wait::RmDir => self.step_file(r),
            Wait::Mv | Wait::Ln | Wait::LnSym => self.step_two(r == ReplyView::Value(1)),
            Wait::TruncOpen | Wait::TruncCut | Wait::TruncClose => self.step_truncate(r),
            Wait::Chmod | Wait::Mkdir | Wait::Mkfs => self.step_made(r),
            Wait::Stat | Wait::Lstat | Wait::Readlink => self.step_look(r),
        }
    }
}

/// The absolute path that an argument names.
pub fn join_path(cwd: &[u8], arg: &[u8]) -> (r: Option<Vec<u8>>)
    ensures
        bytes::opt(r) == joined(cwd@, arg@),
        r matches Some(p) ==> p.len() <= PATH_MAX,
{
    let mut raw: Vec<u8> = vec![0x2F];
    assert(raw@ =~= seq![0x2Fu8]);
    if !(arg.len() > 0 && arg[0] == 0x2F) {
        let n: usize = if cwd.len() > CWD_MAX {
            CWD_MAX
        } else {
            cwd.len()
        };
        let mut c: Vec<u8> = bytes::slice_copy(cwd, 0, n);
        assert(n == cwd.len() ==> c@ =~= cwd@);
        raw.append(&mut c);
        if n == 0 || cwd[n - 1] != 0x2F {
            raw.push(0x2F);
        }
    }
    if arg.len() > PATH_MAX || raw.len() - 1 + arg.len() > PATH_MAX {
        return None;
    }
    let mut a: Vec<u8> = bytes::slice_copy(arg, 0, arg.len());
    assert(a@ =~= arg@);
    raw.append(&mut a);
    assert(raw@ =~= seq![0x2Fu8] + raw_path(cwd@, arg@));
    path::normalize(&raw, PATH_MAX, PATH_MAX)
}

/// A copy of a byte string.
fn copy_of(s: &[u8]) -> (r: Vec<u8>)
    ensures
        r@ == s@,
{
    let r: Vec<u8> = bytes::slice_copy(s, 0, s.len());
    assert(r@ =~= s@);
    r
}

/// The command that a word names.
pub fn verb_of(w: &[u8]) -> (r: Verb)
    ensures
        r == verb_spec(w@),
{
    proof {
        reveal(verb_spec);
    }
    if bytes::bytes_eq(w, "help".as_bytes()) {
        Verb::Help
    } else if bytes::bytes_eq(w, "echo".as_bytes()) {
        Verb::Echo
    } else if bytes::bytes_eq(w, "pwd".as_bytes()) {
        Verb::Pwd
    } else if bytes::bytes_eq(w, "ls".as_bytes()) {
        Verb::Ls
    } else if bytes::bytes_eq(w, "cat".as_bytes()) {
        Verb::Cat
    } else if bytes::bytes_eq(w, "cd".as_bytes()) {
        Verb::Cd
    } else if bytes::bytes_eq(w, "mkdir".as_bytes()) {
        Verb::Mkdir
    } else if bytes::bytes_eq(w, "touch".as_bytes()) {
        Verb::Touch
    } else if bytes::bytes_eq(w, "rm".as_bytes()) {
        Verb::Rm
    } else if bytes::bytes_eq(w, "mv".as_bytes()) {
        Verb::Mv
    } else if bytes::bytes_eq(w, "ln".as_bytes()) {
        Verb::Ln
    } else if bytes::bytes_eq(w, "chmod".as_bytes()) {
        Verb::Chmod
    } else if bytes::bytes_eq(w, "truncate".as_bytes()) {
        Verb::Truncate
    } else if bytes::bytes_eq(w, "stat".as_bytes()) {
        Verb::Stat
    } else if bytes::bytes_eq(w, "lstat".as_bytes()) {
        Verb::Lstat
    } else if bytes::bytes_eq(w, "readlink".as_bytes()) {
        Verb::Readlink
    } else if bytes::bytes_eq(w, "mkfs.mfs".as_bytes()) {
        Verb::Mkfs
    } else if bytes::bytes_eq(w, "clear".as_bytes()) {
        Verb::Clear
    } else {
        Verb::Other
    }
}

/// Prints the list of commands.
fn print_help(p: &mut Printer)
    ensures
        final(p)@ == help_text(old(p)@),
{
    proof {
        reveal(help_text);
    }
    print::println(p, "commands:");
    print::println(p, "  help           show this help");
    print::println(p, "  echo <text>    print text");
    print::println(p, "  pwd            print working directory");
    print::println(p, "  ls [-l] [path] list directory (-l: long form)");
    print::println(p, "  cat <file>     print file content");
    print::println(p, "  cd [path]      change directory (default: /)");
    print::println(p, "  mkdir <path>   create directory");
    print::println(p, "  touch <file>   create empty file");
    print::println(p, "  rm <path>      remove file / empty directory");
    print::println(p, "  mv <src> <dst> rename / move (same filesystem)");
    print::println(p, "  ln <src> <dst> hard link an existing file (same filesystem)");
    print::println(p, "  ln -s <target> <name>  symbolic link (target kept verbatim; MFS only)");
    print::println(p, "  chmod <mode> <path>  set permission bits (octal, display-only)");
    print::println(p, "  truncate <file> <size>  resize a file (sparse on grow)");
    print::println(p, "  stat <path>    show metadata (mode / owner / links / times)");
    print::println(p, "  lstat <path>   like stat but on the link itself (no follow)");
    print::println(p, "  readlink <link>  print a symbolic link's target (no follow)");
    print::println(p, "  mkfs.mfs <vol>   create a MorionFS filesystem on a volume (ERASES it)");
    print::println(p, "  clear          clear screen");
    print::println(
        p,
        "  (mounts: / = fat32, /tmp = tmpfs, /mfs = MorionFS, /ext2 = ext2 ro, /usb = exFAT)",
    );
    print::println(
        p,
        "  (extra volumes auto-mounted as /usb<N>, N = volume id in the boot volume list)",
    );
}

/// The command that runs.
pub struct Task {
    pub wait: Wait,
    pub path: Vec<u8>,
    pub other: Vec<u8>,
    pub num: u64,
    pub fd: u64,
    pub flag: bool,
}

impl Task {
    pub open spec fn view(&self) -> TaskView {
        TaskView {
            wait: self.wait,
            path: self.path@,
            other: self.other@,
            num: self.num,
            fd: self.fd,
            flag: self.flag,
        }
    }

    /// A command on a path.
    fn on(wait: Wait, path: Vec<u8>) -> (r: Task)
        ensures
            r@ == TaskView::on(wait, path@),
    {
        let r = Task { wait, path, other: Vec::new(), num: 0, fd: 0, flag: false };
        assert(r@ =~= TaskView::on(wait, path@));
        r
    }

    /// No command.
    fn idle() -> (r: Task)
        ensures
            r@ == TaskView::idle(),
    {
        let none: Vec<u8> = Vec::new();
        assert(none@ =~= Seq::empty());
        Task::on(Wait::Nothing, none)
    }
}

/// The shell.
pub struct ShellState {
    pub cwd: Vec<u8>,
    pub out: Printer,
    pub task: Task,
}

impl ShellState {
    pub open spec fn view(&self) -> ShellView {
        ShellView { cwd: self.cwd@, out: self.out@, task: self.task@ }
    }

    /// The shell as it starts: in the root directory.
    pub fn new() -> (r: ShellState)
        ensures
            r@ == (ShellView {
                cwd: seq![0x2Fu8],
                out: PrintView { lines: Seq::empty(), pending: Seq::empty() },
                task: TaskView::idle(),
            }),
    {
        let cwd: Vec<u8> = vec![0x2F];
        assert(cwd@ =~= seq![0x2Fu8]);
        ShellState { cwd, out: Printer::new(), task: Task::idle() }
    }

    /// Ends the command.
    fn done(&mut self) -> (r: Option<Call>)
        ensures
            (final(self)@, call_view(r)) == old(self)@.done(old(self)@.out),
    {
        self.task = Task::idle();
        None
    }

    /// Prints a line and ends the command.
    fn done_line(&mut self, s: &str) -> (r: Option<Call>)
        ensures
            (final(self)@, call_view(r)) == old(self)@.done(old(self)@.out.line(s)),
    {
        print::println(&mut self.out, s);
        self.done()
    }

    /// Prints a string and a line of bytes, and ends the command.
    fn done_with(&mut self, s: &str, b: &[u8]) -> (r: Option<Call>)
        ensures
            (final(self)@, call_view(r)) == old(self)@.done(old(self)@.out.say(s).line_of(b@)),
    {
        print::print(&mut self.out, s);
        print::println_bytes(&mut self.out, b);
        self.done()
    }

    /// Prints a string and the command's path on a line, and ends the command.
    fn done_path(&mut self, s: &str) -> (r: Option<Call>)
        ensures
            (final(self)@, call_view(r)) == old(self)@.done(
                old(self)@.out.say(s).line_of(old(self)@.task.path),
            ),
    {
        print::print(&mut self.out, s);
        print::println_bytes(&mut self.out, &self.task.path);
        self.done()
    }

    /// `ls [-l] [path]`.
    pub fn shell_ls(&mut self, arg: &[u8]) -> (r: Option<Call>)
        ensures
            (final(self)@, call_view(r)) == old(self)@.ls(arg@),
    {
        proof {
            reveal(ShellView::ls);
        }
        let (long, rest): (bool, Vec<u8>) = match text::strip_switch(arg, 0x2D, 0x6C) {
            Some(r) => (true, r),
            None => (false, copy_of(arg)),
        };
        let target: Vec<u8> = if rest.len() == 0 {
            let dot: Vec<u8> = vec![0x2E];
            assert(dot@ =~= seq![0x2Eu8]);
            dot
        } else {
            rest
        };
        match join_path(&self.cwd, &target) {
            None => self.done_line("ls: path too long"),
            Some(p) => {
                let path: Vec<u8> = copy_of(&p);
                self.task = Task::on(Wait::LsOpen, p);
                self.task.flag = long;
                Some(Call::Open { path })
            },
        }
    }

    /// `cd [path]`.
    pub fn shell_cd(&mut self, arg: &[u8]) -> (r: Option<Call>)
        ensures
            (final(self)@, call_view(r)) == old(self)@.cd(arg@),
    {
        proof {
            reveal(ShellView::cd);
        }
        let target: Vec<u8> = if arg.len() == 0 {
            let root: Vec<u8> = vec![0x2F];
            assert(root@ =~= seq![0x2Fu8]);
            root
        } else {
            copy_of(arg)
        };
        match join_path(&self.cwd, &target) {
            None => self.done_line("cd: path too long"),
            Some(p) => {
                let path: Vec<u8> = copy_of(&p);
                self.task = Task::on(Wait::CdOpen, p);
                Some(Call::Open { path })
            },
        }
    }

    /// `chmod <mode> <path>`.
    pub fn shell_chmod(&mut self, arg: &[u8]) -> (r: Option<Call>)
        ensures
            (final(self)@, call_view(r)) == old(self)@.chmod(arg@),
    {
        proof {
            reveal(ShellView::chmod);
        }
        let (word, rest): (Vec<u8>, Vec<u8>) = match text::next_word(arg) {
            Some(x) => x,
            None => {
                return self.done_line("chmod: usage: chmod <octal-mode> <path>");
            },
        };
        if rest.len() == 0 {
            return self.done_line("chmod: usage: chmod <octal-mode> <path>");
        }
        let mode: u32 = match text::parse_octal(&word) {
            Some(m) => m,
            None => {
                return self.done_with("chmod: bad mode: ", &word);
            },
        };
        match join_path(&self.cwd, &rest) {
            None => self.done_line("chmod: path too long"),
            Some(p) => {
                let path: Vec<u8> = copy_of(&p);
                self.task = Task::on(Wait::Chmod, p);
                self.task.num = mode as u64;
                Some(Call::Chmod { path, mode })
            },
        }
    }

    /// `mv <src> <dst>`.
    pub fn shell_mv(&mut self, arg: &[u8]) -> (r: Option<Call>)
        ensures
            (final(self)@, call_view(r)) == old(self)@.mv(arg@),
    {
        proof {
            reveal(ShellView::mv);
        }
        let (a, b): (Vec<u8>, Vec<u8>) = match text::next_word(arg) {
            Some(x) => x,
            None => {
                return self.done_line("mv: usage: mv <src> <dst>");
            },
        };
        if b.len() == 0 {
            return self.done_line("mv: usage: mv <src> <dst>");
        }
        let src: Vec<u8> = match join_path(&self.cwd, &a) {
            Some(p) => p,
            None => {
                return self.done_line("mv: source path too long");
            },
        };
        let dst: Vec<u8> = match join_path(&self.cwd, &b) {
            Some(p) => p,
            None => {
                return self.done_line("mv: target path too long");
            },
        };
        let from: Vec<u8> = copy_of(&src);
        let to: Vec<u8> = copy_of(&dst);
        self.task = Task::on(Wait::Mv, src);
        self.task.other = dst;
        Some(Call::Rename { from, to })
    }

    /// Says how `ln` is used.
    fn ln_usage(&mut self, sym: bool) -> (r: Option<Call>)
        ensures
            (final(self)@, call_view(r)) == old(self)@.ln_usage(sym),
    {
        if sym {
            self.done_line("ln: usage: ln -s <target> <link-name>")
        } else {
            self.done_line("ln: usage: ln <existing-file> <new-name>")
        }
    }

    /// `ln [-s] <target> <name>`.
    pub fn shell_ln(&mut self, arg: &[u8]) -> (r: Option<Call>)
        ensures
            (final(self)@, call_view(r)) == old(self)@.ln(arg@),
    {
        proof {
            reveal(ShellView::ln);
        }
        let (sym, rest): (bool, Vec<u8>) = match text::strip_switch(arg, 0x2D, 0x73) {
            Some(r) => (true, r),
            None => (false, copy_of(arg)),
        };
        let (a, b): (Vec<u8>, Vec<u8>) = match text::next_word(&rest) {
            Some(x) => x,
            None => {
                return self.ln_usage(sym);
            },
        };
        if b.len() == 0 {
            return self.ln_usage(sym);
        }
        let dst: Vec<u8> = match join_path(&self.cwd, &b) {
            Some(p) => p,
            None => {
                return self.done_line("ln: target path too long");
            },
        };
        let path: Vec<u8> = copy_of(&dst);
        if sym {
            let target: Vec<u8> = copy_of(&a);
            self.task = Task::on(Wait::LnSym, a);
            self.task.other = dst;
            return Some(Call::Symlink { target, path });
        }
        match join_path(&self.cwd, &a) {
            None => self.done_line("ln: source path too long"),
            Some(src) => {
                let target: Vec<u8> = copy_of(&src);
                self.task = Task::on(Wait::Ln, src);
                self.task.other = dst;
                Some(Call::Link { target, path })
            },
        }
    }

    /// `truncate <path> <size>`.
    pub fn shell_truncate(&mut self, arg: &[u8]) -> (r: Option<Call>)
        ensures
            (final(self)@, call_view(r)) == old(self)@.truncate(arg@),
    {
        proof {
            reveal(ShellView::truncate);
        }
        let (a, b): (Vec<u8>, Vec<u8>) = match text::next_word(arg) {
            Some(x) => x,
            None => {
                return self.done_line("truncate: usage: truncate <path> <size>");
            },
        };
        let size: u64 = match text::parse_dec(&b) {
            Some(n) => n,
            None => {
                return self.done_with("truncate: bad size: ", &b);
            },
        };
        match join_path(&self.cwd, &a) {
            None => self.done_line("truncate: path too long"),
            Some(p) => {
                let path: Vec<u8> = copy_of(&p);
                self.task = Task::on(Wait::TruncOpen, p);
                self.task.num = size;
                Some(Call::Open { path })
            },
        }
    }

    /// `mkfs.mfs <volume>`.
    pub fn shell_mkfs(&mut self, arg: &[u8]) -> (r: Option<Call>)
        ensures
            (final(self)@, call_view(r)) == old(self)@.mkfs(arg@),
    {
        proof {
            reveal(ShellView::mkfs);
        }
        match text::parse_dec(arg) {
            None => self.done_line(
                "mkfs.mfs: usage: mkfs.mfs <volume-id>   (see the 'vol:' lines in the boot log)",
            ),
            Some(vol) => {
                let none: Vec<u8> = Vec::new();
                assert(none@ =~= Seq::empty());
                self.task = Task::on(Wait::Mkfs, none);
                self.task.num = vol;
                Some(Call::MakeFs { vol })
            },
        }
    }

    /// A command on one path.
    fn simple(&mut self, verb: Verb, arg: &[u8]) -> (r: Option<Call>)
        ensures
            (final(self)@, call_view(r)) == old(self)@.simple(verb, arg@),
    {
        proof {
            reveal(ShellView::simple);
        }
        let (missing, long, wait): (&str, &str, Wait) = match verb {
            Verb::Cat => ("cat: missing file operand", "cat: path too long", Wait::CatOpen),
            Verb::Mkdir => ("mkdir: missing operand", "mkdir: path too long", Wait::Mkdir),
            Verb::Touch => ("touch: missing operand", "touch: path too long", Wait::TouchMade),
            Verb::Rm => ("rm: missing operand", "rm: path too long", Wait::RmFile),
            Verb::Stat => ("stat: missing operand", "stat: path too long", Wait::Stat),
            Verb::Lstat => ("stat: missing operand", "stat: path too long", Wait::Lstat),
            _ => ("readlink: missing operand", "readlink: path too long", Wait::Readlink),
        };
        if arg.len() == 0 {
            return self.done_line(missing);
        }
        match join_path(&self.cwd, arg) {
            None => self.done_line(long),
            Some(p) => {
                let path: Vec<u8> = copy_of(&p);
                self.task = Task::on(wait, p);
                let call: Call = match verb {
                    Verb::Cat => Call::Open { path },
                    Verb::Mkdir => Call::Mkdir { path },
                    Verb::Touch => Call::Creat { path },
                    Verb::Rm => Call::Unlink { path },
                    Verb::Stat => Call::Stat { path },
                    Verb::Lstat => Call::Lstat { path },
                    _ => Call::Readlink { path },
                };
                Some(call)
            },
        }
    }

    /// Starts a command.
    fn command(&mut self, verb: Verb, word: &[u8], arg: &[u8]) -> (r: Option<Call>)
        ensures
            (final(self)@, call_view(r)) == old(self)@.command(verb, word@, arg@),
    {
        proof {
            reveal(ShellView::command);
        }
        match verb {
            Verb::Help => {
                print_help(&mut self.out);
                self.done()
            },
            Verb::Echo => {
                print::println_bytes(&mut self.out, arg);
                self.done()
            },
            Verb::Pwd => {
                print::println_bytes(&mut self.out, &self.cwd);
                self.done()
            },
            Verb::Ls => self.shell_ls(arg),
            Verb::Cd => self.shell_cd(arg),
            Verb::Mv => self.shell_mv(arg),
            Verb::Ln => self.shell_ln(arg),
            Verb::Chmod => self.shell_chmod(arg),
            Verb::Truncate => self.shell_truncate(arg),
            Verb::Mkfs => self.shell_mkfs(arg),
            Verb::Clear => {
                self.task = Task::idle();
                Some(Call::Clear)
            },
            Verb::Other => self.done_with("shell: unknown command: ", word),
            _ => self.simple(verb, arg),
        }
    }

    /// Starts the command of a line.
    pub fn shell_exec(&mut self, line: &[u8]) -> (r: Option<Call>)
        ensures
            (final(self)@, call_view(r)) == old(self)@.begin(line@),
    {
        proof {
            reveal(ShellView::begin);
        }
        let s: Vec<u8> = text::trim(line);
        if s.len() == 0 {
            return self.done();
        }
        match text::next_word(&s) {
            Some((word, arg)) => {
                let verb: Verb = verb_of(&word);
                self.command(verb, &word, &arg)
            },
            None => {
                let verb: Verb = verb_of(&s);
                let none: Vec<u8> = Vec::new();
                assert(none@ =~= Seq::empty());
                self.command(verb, &s, &none)
            },
        }
    }

    /// Prints the prompt.
    pub fn prompt(&mut self)
        ensures
            final(self)@ == old(self)@.prompted(),
    {
        print::print(&mut self.out, "[morion@morion ");
        self.out.print_push(&self.cwd);
        print::print(&mut self.out, "]$ ");
        self.out.print_flush();
    }

    /// The next step of `ls`.
    fn step_ls(&mut self, reply: &Reply) -> (r: Option<Call>)
        requires
            reply matches Reply::Entries(l) ==> text::named(l@),
        ensures
            (final(self)@, call_view(r)) == old(self)@.step_ls(reply@),
    {
        proof {
            reveal(ShellView::step_ls);
        }
        if self.task.wait == Wait::LsOpen {
            return match reply {
                Reply::Value(fd) => {
                    self.task.wait = Wait::LsList;
                    self.task.fd = *fd;
                    Some(Call::Readdir { fd: *fd })
                },
                _ => self.done_path("ls: cannot open "),
            };
        }
        match reply {
            Reply::Entries(l) => {
                text::print_list(&mut self.out, l, self.task.flag);
            },
            _ => {
                print::print(&mut self.out, "ls: not a directory: ");
                print::println_bytes(&mut self.out, &self.task.path);
            },
        }
        let fd: u64 = self.task.fd;
        self.task = Task::idle();
        Some(Call::Close { fd })
    }

    /// The next step of `cat`.
    fn step_cat(&mut self, reply: &Reply) -> (r: Option<Call>)
        ensures
            (final(self)@, call_view(r)) == old(self)@.step_cat(reply@),
    {
        proof {
            reveal(ShellView::step_cat);
        }
        if self.task.wait == Wait::CatOpen {
            return match reply {
                Reply::Value(fd) => {
                    self.task.wait = Wait::CatRead;
                    self.task.fd = *fd;
                    Some(Call::Read { fd: *fd, count: CAT_MAX })
                },
                _ => self.done_path("cat: cannot open "),
            };
        }
        match reply {
            Reply::Data(d) => {
                print::print_sanitized(&mut self.out, d);
                print::println(&mut self.out, "");
            },
            _ => {
                print::println(&mut self.out, "cat: read failed (is it a directory?)");
            },
        }
        let fd: u64 = self.task.fd;
        self.task = Task::idle();
        Some(Call::Close { fd })
    }

    /// The next step of `cd`.
    fn step_cd(&mut self, reply: &Reply) -> (r: Option<Call>)
        ensures
            (final(self)@, call_view(r)) == old(self)@.step_cd(reply@),
    {
        proof {
            reveal(ShellView::step_cd);
        }
        if self.task.wait == Wait::CdOpen {
            return match reply {
                Reply::Value(fd) => {
                    self.task.wait = Wait::CdList;
                    self.task.fd = *fd;
                    Some(Call::Readdir { fd: *fd })
                },
                _ => self.done_path("cd: no such directory: "),
            };
        }
        if self.task.wait == Wait::CdList {
            self.task.wait = Wait::CdClose;
            self.task.flag = match reply {
                Reply::Entries(_l) => true,
                _ => false,
            };
            return Some(Call::Close { fd: self.task.fd });
        }
        if self.task.flag {
            let n: usize = if self.task.path.len() > CWD_MAX {
                CWD_MAX
            } else {
                self.task.path.len()
            };
            let cwd: Vec<u8> = bytes::slice_copy(&self.task.path, 0, n);
            assert(n == self.task.path.len() ==> cwd@ =~= self.task.path@);
            self.cwd = cwd;
            self.done()
        } else {
            self.done_path("cd: not a directory: ")
        }
    }

    /// The next step of `touch` and `rm`.
    fn step_file(&mut self, reply: &Reply) -> (r: Option<Call>)
        ensures
            (final(self)@, call_view(r)) == old(self)@.step_file(reply@),
    {
        proof {
            reveal(ShellView::step_file);
        }
        let ok: bool = is_one(reply);
        match self.task.wait {
            Wait::TouchMade => match reply {
                Reply::Value(fd) => {
                    self.task.wait = Wait::TouchClose;
                    Some(Call::Close { fd: *fd })
                },
                _ => self.done_path("touch: failed (bad parent?): "),
            },
            Wait::TouchClose => self.done_path("touch: created "),
            Wait::RmFile => {
                if ok {
                    self.done_path("rm: removed ")
                } else {
                    let path: Vec<u8> = copy_of(&self.task.path);
                    self.task.wait = Wait::RmDir;
                    Some(Call::Rmdir { path })
                }
            },
            _ => {
                if ok {
                    self.done_path("rm: removed directory ")
                } else {
                    self.done_path("rm: failed (not found, or directory not empty): ")
                }
            },
        }
    }

    /// The last step of a command that names two paths.
    fn step_two(&mut self, ok: bool) -> (r: Option<Call>)
        ensures
            (final(self)@, call_view(r)) == old(self)@.step_two(ok),
    {
        proof {
            reveal(ShellView::step_two);
        }
        match self.task.wait {
            Wait::Mv => {
                if ok {
                    print::print(&mut self.out, "mv: ");
                    self.out.print_push(&self.task.path);
                    print::print(&mut self.out, " -> ");
                    print::println_bytes(&mut self.out, &self.task.other);
                    self.done()
                } else {
                    self.done_path("mv: failed (cross-fs, bad target, or directory loop): ")
                }
            },
            Wait::LnSym => {
                if ok {
                    print::print(&mut self.out, "ln -s: ");
                    self.out.print_push(&self.task.other);
                    print::print(&mut self.out, " -> ");
                    print::println_bytes(&mut self.out, &self.task.path);
                } else {
                    print::print(
                        &mut self.out,
                        "ln -s: failed (name exists, target empty/too long, or no MFS): ",
                    );
                    print::println_bytes(&mut self.out, &self.task.other);
                }
                self.done()
            },
            _ => {
                if ok {
                    print::print(&mut self.out, "ln: ");
                    self.out.print_push(&self.task.other);
                    print::print(&mut self.out, " -> ");
                    print::println_bytes(&mut self.out, &self.task.path);
                    self.done()
                } else {
                    self.done_path("ln: failed (needs an existing file, new name, same fs): ")
                }
            },
        }
    }

    /// The next step of `truncate`.
    fn step_truncate(&mut self, reply: &Reply) -> (r: Option<Call>)
        ensures
            (final(self)@, call_view(r)) == old(self)@.step_truncate(reply@),
    {
        proof {
            reveal(ShellView::step_truncate);
        }
        if self.task.wait == Wait::TruncOpen {
            return match reply {
                Reply::Value(fd) => {
                    self.task.wait = Wait::TruncCut;
                    self.task.fd = *fd;
                    Some(Call::Truncate { fd: *fd, size: self.task.num })
                },
                _ => self.done_path("truncate: cannot open "),
            };
        }
        if self.task.wait == Wait::TruncCut {
            self.task.wait = Wait::TruncClose;
            self.task.flag = is_one(reply);
            return Some(Call::Close { fd: self.task.fd });
        }
        if self.task.flag {
            print::print(&mut self.out, "truncate: size=");
            print::print_u64(&mut self.out, self.task.num);
            self.done_path(" ")
        } else {
            self.done_path("truncate: failed (directory or bad file): ")
        }
    }

    /// The last step of `chmod`, `mkdir` and `mkfs.mfs`.
    fn step_made(&mut self, reply: &Reply) -> (r: Option<Call>)
        ensures
            (final(self)@, call_view(r)) == old(self)@.step_made(reply@),
    {
        proof {
            reveal(ShellView::step_made);
        }
        let ok: bool = is_one(reply);
        match self.task.wait {
            Wait::Chmod => {
                if ok {
                    print::print(&mut self.out, "chmod: mode=");
                    print::print_u64(&mut self.out, self.task.num);
                    self.done_path(" ")
                } else {
                    self.done_path("chmod: failed: ")
                }
            },
            Wait::Mkdir => {
                if ok {
                    self.done_path("mkdir: created ")
                } else {
                    self.done_path("mkdir: failed (exists or bad parent): ")
                }
            },
            _ => match reply {
                Reply::Value(serial) => {
                    print::print(&mut self.out, "mkfs.mfs: volume ");
                    print::print_u64(&mut self.out, self.task.num);
                    print::print(&mut self.out, " formatted, marked primary (serial ");
                    print::print_u64(&mut self.out, *serial);
                    self.done_line(
                        ") -> /mfs after next boot; other volumes mount at /usb<volume-id>",
                    )
                },
                _ => {
                    print::print(&mut self.out, "mkfs.mfs: refused volume ");
                    print::print_u64(&mut self.out, self.task.num);
                    self.done_line(" (not blank, not MFS, or no such volume)")
                },
            },
        }
    }

    /// Prints what was found of a file.
    fn print_stat(&mut self, s: &Stat)
        ensures
            final(self)@ == (ShellView { out: old(self)@.shown_stat(*s), ..old(self)@ }),
    {
        print::print(&mut self.out, "  File: ");
        print::println_bytes(&mut self.out, &self.task.path);
        print::print(&mut self.out, "  Type: ");
        text::entry_type_name(&mut self.out, s.mode, s.is_dir);
        print::print(&mut self.out, "  Mode: ");
        text::print_mode(&mut self.out, s.mode, s.is_dir);
        print::print(&mut self.out, "  Owner: domain ");
        print::print_u64(&mut self.out, s.owner as u64);
        print::print(&mut self.out, "  Links: ");
        print::print_u64(&mut self.out, s.nlink as u64);
        print::print(&mut self.out, "  Size:  ");
        print::print_u64(&mut self.out, s.size);
        print::print(&mut self.out, "  Modify: ");
        text::print_time(&mut self.out, s.mtime);
        print::print(&mut self.out, "  Change: ");
        text::print_time(&mut self.out, s.ctime);
    }

    /// The last step of `stat`, `lstat` and `readlink`.
    fn step_look(&mut self, reply: &Reply) -> (r: Option<Call>)
        ensures
            (final(self)@, call_view(r)) == old(self)@.step_look(reply@),
    {
        proof {
            reveal(ShellView::step_look);
        }
        if self.task.wait == Wait::Readlink {
            match reply {
                Reply::Data(d) => {
                    if d.len() == 0 {
                        self.done_path("readlink: not a symbolic link: ")
                    } else {
                        print::print_sanitized(&mut self.out, d);
                        self.done_line("")
                    }
                },
                _ => self.done_path("readlink: not a symbolic link: "),
            }
        } else {
            match reply {
                Reply::StatOf(s) => {
                    self.print_stat(s);
                    self.done()
                },
                _ => {
                    if self.task.wait == Wait::Lstat {
                        self.done_path("lstat: cannot stat ")
                    } else {
                        self.done_path("stat: cannot stat ")
                    }
                },
            }
        }
    }

    /// Takes the answer to the last call.
    pub fn shell_step(&mut self, reply: &Reply) -> (r: Option<Call>)
        requires
            reply matches Reply::Entries(l) ==> text::named(l@),
        ensures
            (final(self)@, call_view(r)) == old(self)@.step(reply@),
    {
        proof {
            reveal(ShellView::step);
        }
        match self.task.wait {
            Wait::Nothing => self.done(),
            Wait::LsOpen | Wait::LsList => self.step_ls(reply),
            Wait::CatOpen | Wait::CatRead => self.step_cat(reply),
            Wait::CdOpen | Wait::CdList | Wait::CdClose => self.step_cd(reply),
            Wait::TouchMade | Wait::TouchClose | Wait::RmFile | Wait::RmDir => self.step_file(
                reply,
            ),
            Wait::Mv | Wait::Ln | Wait::LnSym => {
                let ok: bool = is_one(reply);
                self.step_two(ok)
            },
            Wait::TruncOpen | Wait::TruncCut | Wait::TruncClose => self.step_truncate(reply),
            Wait::Chmod | Wait::Mkdir | Wait::Mkfs => self.step_made(reply),
            Wait::Stat | Wait::Lstat | Wait::Readlink => self.step_look(reply),
        }
    }
}

/// Whether an answer is 1.
fn is_one(r: &Reply) -> (ok: bool)
    ensures
        ok == (r@ == ReplyView::Value(1)),
{
    match r {
        Reply::Value(v) => *v == 1,
        _ => false,
    }
}

} // verus!
