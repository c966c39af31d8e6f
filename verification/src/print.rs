//! Line-buffered printing: one system call per line.
use vstd::prelude::*;

verus! {

/// Bytes of the line buffer.
pub const PRINT_BUF_LEN: usize = 256;

/// The lines handed to the console so far, and what waits in the buffer.
#[verifier::ext_equal]
pub struct PrintView {
    pub lines: Seq<Seq<u8>>,
    pub pending: Seq<u8>,
}

impl PrintView {
    /// One more byte; a full buffer is handed over first.
    pub open spec fn byte(self, b: u8) -> PrintView {
        if self.pending.len() >= PRINT_BUF_LEN {
            PrintView { lines: self.lines.push(self.pending), pending: seq![b] }
        } else {
            PrintView { pending: self.pending.push(b), ..self }
        }
    }

    /// The bytes of `s` from `i` on.
    pub open spec fn text_from(self, s: Seq<u8>, i: int) -> PrintView
        decreases s.len() - i,
    {
        if i >= s.len() {
            self
        } else {
            self.byte(s[i]).text_from(s, i + 1)
        }
    }

    /// The bytes of `s`.
    pub open spec fn text(self, s: Seq<u8>) -> PrintView {
        self.text_from(s, 0)
    }

    /// What waits is handed over.
    pub open spec fn flush(self) -> PrintView {
        if self.pending.len() > 0 {
            PrintView { lines: self.lines.push(self.pending), pending: Seq::empty() }
        } else {
            self
        }
    }

    /// A string.
    pub open spec fn say(self, s: &str) -> PrintView {
        self.text(txt(s))
    }

    /// Bytes, and the end of the line.
    pub open spec fn line_of(self, s: Seq<u8>) -> PrintView {
        self.text(s).byte(0x0A).flush()
    }

    /// A string, and the end of the line.
    pub open spec fn line(self, s: &str) -> PrintView {
        self.line_of(txt(s))
    }

    /// All bytes printed so far, in order.
    pub open spec fn all(self) -> Seq<u8> {
        joined(self.lines) + self.pending
    }

    /// No line, and not what waits, is longer than the buffer.
    pub open spec fn wf(self) -> bool {
        self.pending.len() <= PRINT_BUF_LEN && forall|i: int|
            0 <= i < self.lines.len() ==> 0 < (#[trigger] self.lines[i]).len() <= PRINT_BUF_LEN
    }
}

/// Lines one after the other.
pub open spec fn joined(lines: Seq<Seq<u8>>) -> Seq<u8>
    decreases lines.len(),
{
    if lines.len() == 0 {
        Seq::empty()
    } else {
        joined(lines.drop_last()) + lines.last()
    }
}

/// Law: no byte printed is lost, repeated or moved, and lines stay within the
/// buffer.
pub proof fn law_nothing_lost(p: PrintView, s: Seq<u8>, i: int)
    requires
        p.wf(),
        0 <= i <= s.len(),
    ensures
        p.text_from(s, i).all() == p.all() + s.subrange(i, s.len() as int),
        p.text_from(s, i).wf(),
    decreases s.len() - i,
{
    if i < s.len() {
        let q = p.byte(s[i]);
        if p.pending.len() >= PRINT_BUF_LEN {
            assert(q.lines.drop_last() =~= p.lines);
        }
        assert(q.all() =~= p.all().push(s[i]));
        law_nothing_lost(q, s, i + 1);
        assert(p.text_from(s, i).all() =~= p.all() + s.subrange(i, s.len() as int));
    } else {
        assert(p.text_from(s, i).all() =~= p.all() + s.subrange(i, s.len() as int));
    }
}

/// Law: handing over what waits prints nothing new and leaves nothing waiting.
pub proof fn law_flush(p: PrintView)
    requires
        p.wf(),
    ensures
        p.flush().all() == p.all(),
        p.flush().pending.len() == 0,
        p.flush().wf(),
{
    if p.pending.len() > 0 {
        assert(p.flush().lines.drop_last() =~= p.lines);
        assert(p.flush().all() =~= p.all());
    }
}

/// Printing two texts in turn is printing them joined, from `i` on in the first.
pub proof fn lemma_text_joined(p: PrintView, a: Seq<u8>, b: Seq<u8>, i: int)
    requires
        0 <= i <= a.len(),
    ensures
        p.text_from(a, i).text(b) == p.text_from(a + b, i),
    decreases a.len() - i,
{
    let c = a + b;
    if i < a.len() {
        assert(c[i] == a[i]);
        lemma_text_joined(p.byte(a[i]), a, b, i + 1);
    } else {
        assert(b.subrange(0, b.len() as int) =~= c.subrange(i, c.len() as int));
        lemma_text_shift(p, b, 0, c, i);
    }
}

/// Printing the rest of a text does not depend on what stands before it.
proof fn lemma_text_shift(p: PrintView, b: Seq<u8>, j: int, c: Seq<u8>, i: int)
    requires
        0 <= j <= b.len(),
        0 <= i <= c.len(),
        b.subrange(j, b.len() as int) == c.subrange(i, c.len() as int),
    ensures
        p.text_from(b, j) == p.text_from(c, i),
    decreases b.len() - j,
{
    let bs = b.subrange(j, b.len() as int);
    let cs = c.subrange(i, c.len() as int);
    assert(bs.len() == cs.len());
    if j < b.len() {
        assert(bs[0] == b[j] && cs[0] == c[i]);
        assert(b.subrange(j + 1, b.len() as int) =~= bs.subrange(1, bs.len() as int));
        assert(c.subrange(i + 1, c.len() as int) =~= cs.subrange(1, cs.len() as int));
        lemma_text_shift(p.byte(b[j]), b, j + 1, c, i + 1);
    }
}

/// Law: printing two texts in turn is printing them joined.
pub proof fn law_text_joined(p: PrintView, a: Seq<u8>, b: Seq<u8>)
    ensures
        p.text(a).text(b) == p.text(a + b),
{
    lemma_text_joined(p, a, b, 0);
}

/// The decimal digits of a number.
pub open spec fn dec(v: int) -> Seq<u8>
    decreases v,
{
    if v < 10 {
        seq![(0x30 + v) as u8]
    } else {
        dec(v / 10).push((0x30 + v % 10) as u8)
    }
}

/// A hexadecimal digit, in lower case.
pub open spec fn hex_digit(d: int) -> u8 {
    if d < 10 {
        (0x30 + d) as u8
    } else {
        (0x61 + d - 10) as u8
    }
}

/// The hexadecimal digits of a number, in lower case.
pub open spec fn hex(v: int) -> Seq<u8>
    decreases v,
{
    if v < 16 {
        seq![hex_digit(v)]
    } else {
        hex(v / 16).push(hex_digit(v % 16))
    }
}

/// The number that decimal digits stand for, the first `n` of them.
pub open spec fn value_of_digits(s: Seq<u8>, n: int) -> int
    decreases n,
{
    if n <= 0 {
        0
    } else {
        value_of_digits(s, n - 1) * 10 + (s[n - 1] - 0x30)
    }
}

/// The value of a run of digits depends on those digits alone.
pub proof fn lemma_value_prefix(s: Seq<u8>, t: Seq<u8>, n: int)
    requires
        0 <= n <= s.len(),
        n <= t.len(),
        forall|i: int| 0 <= i < n ==> s[i] == t[i],
    ensures
        value_of_digits(s, n) == value_of_digits(t, n),
    decreases n,
{
    if n > 0 {
        lemma_value_prefix(s, t, n - 1);
    }
}

/// Law: the digits printed for a number stand for it, and are digits.
pub proof fn law_dec_value(v: int)
    requires
        0 <= v,
    ensures
        value_of_digits(dec(v), dec(v).len() as int) == v,
        dec(v).len() > 0,
        forall|i: int| 0 <= i < dec(v).len() ==> 0x30 <= #[trigger] dec(v)[i] <= 0x39,
    decreases v,
{
    if v >= 10 {
        law_dec_value(v / 10);
        let d = dec(v / 10);
        lemma_value_prefix(d, dec(v), d.len() as int);
        assert(dec(v)[d.len() as int] == (0x30 + v % 10) as u8);
    } else {
        reveal_with_fuel(value_of_digits, 2);
    }
}

/// The decimal digits of `v`.
pub fn dec_bytes(v: u64) -> (r: Vec<u8>)
    ensures
        r@ == dec(v as int),
    decreases v,
{
    if v < 10 {
        let r: Vec<u8> = vec![(0x30 + v) as u8];
        assert(r@ =~= dec(v as int));
        r
    } else {
        let mut r: Vec<u8> = dec_bytes(v / 10);
        r.push((0x30 + v % 10) as u8);
        r
    }
}

/// The hexadecimal digits of `v`, in lower case.
pub fn hex_bytes(v: u64) -> (r: Vec<u8>)
    ensures
        r@ == hex(v as int),
    decreases v,
{
    let d: u8 = (v % 16) as u8;
    let c: u8 = if d < 10 {
        0x30 + d
    } else {
        0x61 + d - 10
    };
    if v < 16 {
        let r: Vec<u8> = vec![c];
        assert(r@ =~= hex(v as int));
        r
    } else {
        let mut r: Vec<u8> = hex_bytes(v / 16);
        r.push(c);
        r
    }
}

/// The console of one domain: lines ready to be handed over, and the line buffer.
pub struct Printer {
    pub lines: Vec<Vec<u8>>,
    pub pending: Vec<u8>,
}

impl Printer {
    pub open spec fn view(&self) -> PrintView {
        PrintView {
            lines: Seq::new(self.lines@.len(), |i: int| self.lines@[i]@),
            pending: self.pending@,
        }
    }

    /// Nothing printed yet.
    pub fn new() -> (r: Printer)
        ensures
            r@ == (PrintView { lines: Seq::empty(), pending: Seq::empty() }),
    {
        let r = Printer { lines: Vec::new(), pending: Vec::new() };
        assert(r@.lines =~= Seq::empty());
        assert(r@.pending =~= Seq::empty());
        r
    }

    /// Hands over what waits in the buffer.
    pub fn print_flush(&mut self)
        ensures
            final(self)@ == old(self)@.flush(),
    {
        if self.pending.len() > 0 {
            let mut line: Vec<u8> = Vec::new();
            std::mem::swap(&mut line, &mut self.pending);
            self.lines.push(line);
            assert(self@.lines =~= old(self)@.flush().lines);
            assert(self@.pending =~= Seq::empty());
        }
    }

    /// Appends bytes to the buffer, handing it over whenever it is full.
    pub fn print_push(&mut self, s: &[u8])
        ensures
            final(self)@ == old(self)@.text(s@),
    {
        let mut i: usize = 0;
        while i < s.len()
            invariant
                i <= s.len(),
                self@.text_from(s@, i as int) == old(self)@.text(s@),
            decreases s.len() - i,
        {
            let ghost before = self@;
            if self.pending.len() >= PRINT_BUF_LEN {
                self.print_flush();
            }
            self.pending.push(s[i]);
            assert(self@ =~= before.byte(s@[i as int]));
            i = i + 1;
        }
    }

    /// Takes the lines that are ready to be handed over.
    pub fn take_lines(&mut self) -> (r: Vec<Vec<u8>>)
        ensures
            crate::bytes::deep(r@) == old(self)@.lines,
            final(self)@ == (PrintView { lines: Seq::empty(), pending: old(self)@.pending }),
    {
        let mut out: Vec<Vec<u8>> = Vec::new();
        std::mem::swap(&mut out, &mut self.lines);
        assert(self@.lines =~= Seq::empty());
        assert(crate::bytes::deep(out@) =~= old(self)@.lines);
        out
    }
}

/// The bytes of a string.
pub open spec fn txt(s: &str) -> Seq<u8> {
    vstd::utf8::encode_utf8(s@)
}

/// Prints a string.
pub fn print(p: &mut Printer, s: &str)
    ensures
        final(p)@ == old(p)@.say(s),
{
    p.print_push(s.as_bytes());
}

/// Prints a string and ends the line.
pub fn println(p: &mut Printer, s: &str)
    ensures
        final(p)@ == old(p)@.line(s),
{
    println_bytes(p, s.as_bytes());
}

/// Prints bytes and ends the line.
pub fn println_bytes(p: &mut Printer, s: &[u8])
    ensures
        final(p)@ == old(p)@.line_of(s@),
{
    p.print_push(s);
    let nl: Vec<u8> = vec![0x0Au8];
    let ghost mid = p@;
    p.print_push(&nl);
    proof {
        reveal_with_fuel(PrintView::text_from, 2);
        assert(p@ == mid.byte(0x0A));
    }
    p.print_flush();
}

/// Prints a number in decimal.
pub fn print_u64(p: &mut Printer, v: u64)
    ensures
        final(p)@ == old(p)@.text(dec(v as int)),
{
    let d: Vec<u8> = dec_bytes(v);
    p.print_push(&d);
}

/// Prints a number in hexadecimal.
pub fn print_hex(p: &mut Printer, v: u64)
    ensures
        final(p)@ == old(p)@.text(hex(v as int)),
{
    let d: Vec<u8> = hex_bytes(v);
    p.print_push(&d);
}

/// What is shown for a byte of a file: line ends and printable ASCII as they are,
/// everything else as a dot.
pub open spec fn shown(b: u8) -> u8 {
    if b == 0x0A || 0x20 <= b <= 0x7E {
        b
    } else {
        0x2E
    }
}

/// Prints the contents of a file.
pub fn print_sanitized(p: &mut Printer, s: &[u8])
    ensures
        final(p)@ == old(p)@.text(s@.map_values(|b: u8| shown(b))),
{
    let mut out: Vec<u8> = Vec::new();
    let mut i: usize = 0;
    while i < s.len()
        invariant
            i <= s.len(),
            out@.len() == i,
            forall|j: int| 0 <= j < i ==> out@[j] == shown(s@[j]),
        decreases s.len() - i,
    {
        let b: u8 = s[i];
        if b == 0x0A || (0x20 <= b && b <= 0x7E) {
            out.push(b);
        } else {
            out.push(0x2E);
        }
        i = i + 1;
    }
    assert(out@ =~= s@.map_values(|b: u8| shown(b)));
    p.print_push(&out);
}

} // verus!
