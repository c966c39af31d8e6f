//! The shell, on top of the in-memory file service.
use morion::shell::{join_path, verb_of, Call, ShellState, Verb};
use morion::tmpfs::Tmpfs;
use morion::vfs::{Reply, Request, Stat, MODE_FTYPE_LINK};

fn answer(t: &mut Tmpfs, c: &Call) -> Reply {
    let req = match c {
        Call::Open { path } => Request::Open { path: path.clone() },
        Call::Readdir { fd } => Request::Readdir { fd: *fd as u32 },
        Call::Close { fd } => Request::Close { fd: *fd as u32 },
        Call::Read { fd, count } => Request::Read { fd: *fd as u32, offset: 0, count: *count },
        Call::Creat { path } => Request::Creat { path: path.clone() },
        Call::Mkdir { path } => Request::Mkdir { path: path.clone() },
        Call::Unlink { path } => Request::Unlink { path: path.clone() },
        Call::Rmdir { path } => Request::Rmdir { path: path.clone() },
        Call::Stat { path } => Request::Stat { path: path.clone() },
        _ => Request::Unknown,
    };
    t.serve(&req)
}

fn text(s: &mut ShellState) -> String {
    let mut v: Vec<u8> = s.out.take_lines().concat();
    v.extend(&s.out.pending);
    String::from_utf8(v).unwrap()
}

/// The output of a line, with every call answered by the file service.
fn run(s: &mut ShellState, t: &mut Tmpfs, line: &str) -> String {
    let mut call = s.shell_exec(line.as_bytes());
    while let Some(c) = call {
        let r = answer(t, &c);
        call = s.shell_step(&r);
    }
    text(s)
}

fn put(t: &mut Tmpfs, path: &str, data: &[u8]) {
    let fd = match t.serve(&Request::Creat { path: path.as_bytes().to_vec() }) {
        Reply::Value(v) => v as u32,
        _ => panic!("not created"),
    };
    t.serve(&Request::Write { fd, offset: 0, data: data.to_vec() });
    t.serve(&Request::Close { fd });
}

#[test]
fn shell_session() {
    let mut s = ShellState::new();
    let mut t = Tmpfs::new();
    s.prompt();
    assert_eq!(text(&mut s), "[morion@morion /]$ ");
    assert_eq!(run(&mut s, &mut t, "pwd\n"), "/\n");
    assert_eq!(run(&mut s, &mut t, "echo hi  there"), "hi  there\n");
    assert_eq!(run(&mut s, &mut t, "   "), "");
    assert_eq!(run(&mut s, &mut t, "frobnicate x"), "shell: unknown command: frobnicate\n");
    run(&mut s, &mut t, "mkdir D1");
    run(&mut s, &mut t, "cd D1");
    assert_eq!(run(&mut s, &mut t, "pwd"), "/D1\n");
    run(&mut s, &mut t, "touch f.txt");
    put(&mut t, "/D1/G.TXT", b"hello\x01\n");
    assert_eq!(run(&mut s, &mut t, "ls"), "[FILE] F.TXT  size=0\n[FILE] G.TXT  size=7\n");
    assert_eq!(run(&mut s, &mut t, "ls /"), "[DIR]  D1\n");
    assert!(run(&mut s, &mut t, "cat g.txt").starts_with("hello."));
    run(&mut s, &mut t, "rm G.TXT");
    run(&mut s, &mut t, "rm F.TXT");
    run(&mut s, &mut t, "cd ..");
    assert_eq!(run(&mut s, &mut t, "pwd"), "/\n");
    run(&mut s, &mut t, "rm D1");
    assert_eq!(run(&mut s, &mut t, "ls"), "");
    // Descriptors are given back.
    for _ in 0..40 {
        run(&mut s, &mut t, "ls");
        run(&mut s, &mut t, "cd /");
    }
    assert_eq!(run(&mut s, &mut t, "pwd"), "/\n");
}

#[test]
fn shell_calls() {
    let mut s = ShellState::new();
    assert!(matches!(s.shell_exec(b"chmod 644 a"), Some(Call::Chmod { path, mode: 0o644 }) if path == b"/a"));
    assert!(matches!(s.shell_exec(b"mv a /b/../c"), Some(Call::Rename { from, to }) if from == b"/a" && to == b"/c"));
    assert!(matches!(s.shell_exec(b"ln a b"), Some(Call::Link { target, path }) if target == b"/a" && path == b"/b"));
    assert!(matches!(s.shell_exec(b"ln -s ../x b"), Some(Call::Symlink { target, path }) if target == b"../x" && path == b"/b"));
    assert!(matches!(s.shell_exec(b"mkfs.mfs 5"), Some(Call::MakeFs { vol: 5 })));
    assert!(matches!(s.shell_exec(b"readlink l"), Some(Call::Readlink { path }) if path == b"/l"));
    assert!(matches!(s.shell_exec(b"lstat l"), Some(Call::Lstat { path }) if path == b"/l"));
    assert!(matches!(s.shell_exec(b"clear"), Some(Call::Clear)));
    assert!(matches!(s.shell_exec(b"truncate f 10"), Some(Call::Open { path }) if path == b"/f"));
    assert!(matches!(s.shell_step(&Reply::Value(3)), Some(Call::Truncate { fd: 3, size: 10 })));
    assert!(matches!(s.shell_step(&Reply::Value(1)), Some(Call::Close { fd: 3 })));
    assert!(s.shell_step(&Reply::Value(1)).is_none());
    text(&mut s);
}

#[test]
fn shell_mistakes() {
    let mut s = ShellState::new();
    let mut t = Tmpfs::new();
    for (line, want) in [
        ("cat", "cat: missing file operand\n"),
        ("mkdir", "mkdir: missing operand\n"),
        ("rm", "rm: missing operand\n"),
        ("mv a", "mv: usage: mv <src> <dst>\n"),
        ("ln a", "ln: usage: ln <existing-file> <new-name>\n"),
        ("ln -s a", "ln: usage: ln -s <target> <link-name>\n"),
        ("chmod 9 a", "chmod: bad mode: 9\n"),
        ("chmod 644", "chmod: usage: chmod <octal-mode> <path>\n"),
        ("truncate a x", "truncate: bad size: x\n"),
        ("stat", "stat: missing operand\n"),
    ] {
        assert_eq!(run(&mut s, &mut t, line), want);
    }
    let long = format!("cat {}", "a".repeat(300));
    assert_eq!(run(&mut s, &mut t, &long), "cat: path too long\n");
    assert!(run(&mut s, &mut t, "help").starts_with("commands:\n"));
}

#[test]
fn shell_stat_of_a_link() {
    let mut s = ShellState::new();
    assert!(s.shell_exec(b"lstat l").is_some());
    let st = Stat {
        size: 9,
        is_dir: false,
        mode: MODE_FTYPE_LINK | 0o777,
        owner: 7,
        nlink: 1,
        mtime: 1_577_836_800,
        ctime: 1_577_836_800,
        atime: 1_577_836_800,
    };
    assert!(s.shell_step(&Reply::StatOf(st)).is_none());
    let out = text(&mut s);
    assert!(out.contains("symbolic link"));
    assert!(out.contains("2020-01-01 00:00"));
}

#[test]
fn shell_paths() {
    assert_eq!(join_path(b"/a", b"b"), Some(b"/a/b".to_vec()));
    assert_eq!(join_path(b"/", b"b/../c/."), Some(b"/c".to_vec()));
    assert_eq!(join_path(b"/a", b"/x"), Some(b"/x".to_vec()));
    assert_eq!(join_path(b"/a/b", b"../../.."), Some(b"/".to_vec()));
    assert_eq!(join_path(b"/", &[b'a'; 300]), None);
    assert!(verb_of(b"mkfs.mfs") == Verb::Mkfs && verb_of(b"LS") == Verb::Other);
}
