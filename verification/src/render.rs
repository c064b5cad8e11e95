//! Human-readable rendering of diagnostics, in the style of rustc:
//!
//! ```text
//! error[E0001]: unrecognized character `@`
//!  --> test.lm:1:5
//!   |
//! 1 | let @x = 1;
//!   |     ^ unexpected character
//!   |
//!   = help: remove this character
//! ```
//!
//! Positions are byte offsets into the source; lines and columns are
//! counted from 1, columns in characters.
use vstd::prelude::*;
use vstd::utf8::encode_utf8;
use crate::diagnostics::{Diagnostic, DiagnosticBag, Label, QuickFix, Severity, Span};
use crate::lexer::{byte_offset, char_width, chars_of, lemma_byte_offset_step};
use crate::text::{owned, append, push_char, push_repeat, usize_to_string, decimal, spaces};

verus! {

// ---------------------------------------------------------------------------
// Lines and columns
// ---------------------------------------------------------------------------

/// The line and column reached from character `i` (at `line`, `col`) when
/// counting up to the byte `offset`.
pub open spec fn line_col_from(cs: Seq<char>, i: int, offset: int, line: int, col: int) -> (int, int)
    decreases cs.len() - i,
{
    if i < 0 || i >= cs.len() || byte_offset(cs, i) >= offset {
        (line, col)
    } else if cs[i] == '\n' {
        line_col_from(cs, i + 1, offset, line + 1, 1)
    } else {
        line_col_from(cs, i + 1, offset, line, col + 1)
    }
}

/// The byte length of the text `cs`, as `str::len` gives it.
pub open spec fn byte_len(cs: Seq<char>) -> int {
    (encode_utf8(cs).len() as usize) as int
}

/// The (1-based) line and column of byte `offset` in `cs`; offsets past the
/// end count as the end.
pub open spec fn line_col(cs: Seq<char>, offset: int) -> (int, int) {
    let o = if offset < byte_len(cs) { offset } else { byte_len(cs) };
    line_col_from(cs, 0, o, 1, 1)
}

/// The index of the first newline at or after `i` (the length when none).
pub open spec fn next_newline(cs: Seq<char>, i: int) -> int
    decreases cs.len() - i,
{
    if i < 0 || i >= cs.len() || cs[i] == '\n' { i } else { next_newline(cs, i + 1) }
}

/// A line without its `\r` when it ended with `\r\n`.
pub open spec fn strip_cr(seg: Seq<char>, terminated: bool) -> Seq<char> {
    if terminated && seg.len() > 0 && seg.last() == '\r' { seg.drop_last() } else { seg }
}

/// The `k`-th line (from 0) of the text from index `i` on, as `str::lines`
/// splits it; empty past the last line.
pub open spec fn nth_line_from(cs: Seq<char>, i: int, k: nat) -> Seq<char>
    decreases cs.len() - i,
{
    if i < 0 || i >= cs.len() {
        seq![]
    } else {
        let e = next_newline(cs, i);
        if e < i {
            seq![]
        } else if k == 0 {
            strip_cr(cs.subrange(i, e), e < cs.len())
        } else if e >= cs.len() {
            seq![]
        } else {
            nth_line_from(cs, e + 1, (k - 1) as nat)
        }
    }
}

/// The text of line `n` (1-based) of `cs`.
pub open spec fn source_line(cs: Seq<char>, n: int) -> Seq<char> {
    nth_line_from(cs, 0, (n - 1) as nat)
}

/// A newline search stays within the text.
pub proof fn lemma_next_newline(cs: Seq<char>, i: int)
    requires
        0 <= i <= cs.len(),
    ensures
        i <= next_newline(cs, i) <= cs.len(),
        next_newline(cs, i) < cs.len() ==> cs[next_newline(cs, i)] == '\n',
        forall|k: int| i <= k < next_newline(cs, i) ==> cs[k] != '\n',
    decreases cs.len() - i,
{
    if i < cs.len() && cs[i] != '\n' {
        lemma_next_newline(cs, i + 1);
    }
}

/// The byte offset of a character index is at least the index.
pub proof fn lemma_byte_offset_ge(cs: Seq<char>, i: int)
    requires
        0 <= i <= cs.len(),
    ensures
        i <= byte_offset(cs, i) <= encode_utf8(cs).len(),
    decreases i,
{
    if i == 0 {
        assert(cs.subrange(0, 0) =~= Seq::<char>::empty());
        assert(encode_utf8(Seq::<char>::empty()) =~= Seq::<u8>::empty());
        if cs.len() > 0 {
            lemma_byte_offset_step(cs, 0);
        } else {
            assert(cs.subrange(0, 0) =~= cs);
        }
    } else {
        lemma_byte_offset_ge(cs, i - 1);
        lemma_byte_offset_step(cs, i - 1);
    }
}

/// The number of UTF-8 bytes of a character.
fn width_of(c: char) -> (r: usize)
    ensures
        r == char_width(c),
        r >= 1,
{
    let v = c as u32;
    if v <= 0x7f { 1 } else if v <= 0x7ff { 2 } else if v <= 0xffff { 3 } else { 4 }
}

/// Compute the (1-based line, 1-based column) of a byte offset in source
/// text.
pub fn offset_to_line_col(source: &str, offset: usize) -> (r: (usize, usize))
    requires
        encode_utf8(source@).len() < usize::MAX,
    ensures
        (r.0 as int, r.1 as int) == line_col(source@, offset as int),
        r.0 >= 1,
        r.1 >= 1,
{
    let cs = chars_of(source);
    let total = source.len();
    let offset = if offset < total { offset } else { total };
    let ghost o = offset as int;
    let mut line: usize = 1;
    let mut col: usize = 1;
    let mut b: usize = 0;
    let mut i: usize = 0;
    proof {
        assert(cs@.subrange(0, 0) =~= Seq::<char>::empty());
        assert(encode_utf8(Seq::<char>::empty()) =~= Seq::<u8>::empty());
    }
    while i < cs.len()
        invariant
            cs@ == source@,
            total as int == byte_len(cs@),
            encode_utf8(cs@).len() < usize::MAX,
            o == offset,
            i <= cs@.len(),
            b == byte_offset(cs@, i as int),
            1 <= line <= i + 1,
            1 <= col <= i + 1,
            line_col(cs@, o) == line_col_from(cs@, i as int, o, line as int, col as int),
            o == (if offset < byte_len(cs@) { offset as int } else { byte_len(cs@) }),
        ensures
            line_col(cs@, o) == (line as int, col as int),
            line >= 1,
            col >= 1,
        decreases cs@.len() - i,
    {
        if b >= offset {
            break;
        }
        proof {
            lemma_byte_offset_step(cs@, i as int);
            lemma_byte_offset_ge(cs@, i + 1);
        }
        let c = cs[i];
        if c == '\n' {
            line = line + 1;
            col = 1;
        } else {
            col = col + 1;
        }
        b = b + width_of(c);
        i = i + 1;
    }
    (line, col)
}

/// Get the source line containing a byte offset: its text, its number and
/// the column of the offset.
pub fn get_source_line(source: &str, offset: usize) -> (r: (String, usize, usize))
    requires
        encode_utf8(source@).len() < usize::MAX,
    ensures
        (r.1 as int, r.2 as int) == line_col(source@, offset as int),
        r.0@ == source_line(source@, r.1 as int),
        r.1 >= 1,
        r.2 >= 1,
{
    let (line_num, col) = offset_to_line_col(source, offset);
    let cs = chars_of(source);
    let ghost k0: nat = (line_num - 1) as nat;
    let mut k: usize = line_num - 1;
    let mut i: usize = 0;
    while i < cs.len() && k > 0
        invariant
            cs@ == source@,
            i <= cs@.len(),
            nth_line_from(cs@, 0, k0) == nth_line_from(cs@, i as int, k as nat),
        decreases cs@.len() - i,
    {
        proof { lemma_next_newline(cs@, i as int); }
        let mut e = i;
        while e < cs.len() && cs[e] != '\n'
            invariant
                i <= e <= cs@.len(),
                cs@ == source@,
                next_newline(cs@, i as int) == next_newline(cs@, e as int),
            decreases cs@.len() - e,
        {
            e = e + 1;
        }
        proof { assert(next_newline(cs@, e as int) == e); }
        if e == cs.len() {
            i = cs.len();
        } else {
            i = e + 1;
        }
        k = k - 1;
    }
    let mut text = String::new();
    if i < cs.len() {
        proof { lemma_next_newline(cs@, i as int); }
        let mut e = i;
        while e < cs.len() && cs[e] != '\n'
            invariant
                i <= e <= cs@.len(),
                cs@ == source@,
                text@ == cs@.subrange(i as int, e as int),
                next_newline(cs@, i as int) == next_newline(cs@, e as int),
            decreases cs@.len() - e,
        {
            push_char(&mut text, cs[e]);
            e = e + 1;
            proof { assert(text@ =~= cs@.subrange(i as int, e as int)); }
        }
        if e < cs.len() && text.as_str().unicode_len() > 0 {
            let n = text.as_str().unicode_len();
            if text.as_str().get_char(n - 1) == '\r' {
                let mut t2 = String::new();
                let mut j: usize = 0;
                while j < n - 1
                    invariant
                        j <= n - 1,
                        n == text@.len(),
                        t2@ == text@.subrange(0, j as int),
                    decreases n - 1 - j,
                {
                    push_char(&mut t2, text.as_str().get_char(j));
                    j = j + 1;
                    proof { assert(t2@ =~= text@.subrange(0, j as int)); }
                }
                proof { assert(t2@ =~= text@.drop_last()); }
                text = t2;
            }
        }
    }
    (text, line_num, col)
}


// ---------------------------------------------------------------------------
// Rendering
// ---------------------------------------------------------------------------

/// ANSI escape sequences.
pub open spec fn ansi_reset() -> Seq<char> { "\x1b[0m"@ }
pub open spec fn ansi_bold() -> Seq<char> { "\x1b[1m"@ }
pub open spec fn ansi_blue() -> Seq<char> { "\x1b[1;34m"@ }

/// The color of a severity: red errors, yellow warnings, cyan infos.
pub open spec fn severity_color_text(s: Severity) -> Seq<char> {
    match s {
        Severity::Error => "\x1b[1;31m"@,
        Severity::Warning => "\x1b[1;33m"@,
        Severity::Info => "\x1b[1;36m"@,
    }
}

/// The ANSI color of a severity.
fn severity_color(severity: Severity) -> (r: &'static str)
    ensures
        r@ == severity_color_text(severity),
{
    match severity {
        Severity::Error => "\x1b[1;31m",
        Severity::Warning => "\x1b[1;33m",
        Severity::Info => "\x1b[1;36m",
    }
}

/// The underline character for a severity.
pub open spec fn underline_of(s: Severity) -> char {
    match s {
        Severity::Info => '-',
        _ => '^',
    }
}

/// The underline character for a severity.
fn underline_char(severity: Severity) -> (r: char)
    ensures
        r == underline_of(severity),
{
    match severity {
        Severity::Error => '^',
        Severity::Warning => '^',
        Severity::Info => '-',
    }
}

/// `s` right-aligned in `w` columns.
pub open spec fn pad_left(s: Seq<char>, w: int) -> Seq<char> {
    if s.len() < w { spaces((w - s.len()) as nat) + s } else { s }
}

/// `n` copies of `c`.
pub open spec fn repeat(c: char, n: nat) -> Seq<char> {
    Seq::new(n, |i: int| c)
}

/// The length of an underline for `span` on the line `text` at column `col`:
/// the span's length (at least one), cut to what the line has left, and at
/// least one.
pub open spec fn underline_len(span: Span, text: Seq<char>, col: int) -> int {
    let span_len = if span.end > span.start { span.end - span.start } else { 1 };
    let avail = if byte_len(text) >= col - 1 { byte_len(text) - (col - 1) } else { 0 };
    let m = if span_len < avail { span_len } else { avail };
    if m < 1 { 1 } else { m }
}

/// The message of the first label on `span`, after a space; empty when
/// there is none.
pub open spec fn primary_msg(labels: Seq<Label>, span: Span) -> Seq<char>
    decreases labels.len(),
{
    if labels.len() == 0 {
        seq![]
    } else if labels[0].span == span {
        " "@ + labels[0].message@
    } else {
        primary_msg(labels.drop_first(), span)
    }
}

/// The largest line number among `line` and the lines of the labels.
pub open spec fn max_line(labels: Seq<Label>, cs: Seq<char>, line: int) -> int
    decreases labels.len(),
{
    if labels.len() == 0 {
        line
    } else {
        let ln = line_col(cs, labels[0].span.start as int).0;
        max_line(labels.drop_first(), cs, if ln > line { ln } else { line })
    }
}

/// The colors of a rendering: severity, bold, blue and reset (all empty
/// without color).
pub struct Palette {
    pub sev: Seq<char>,
    pub bold: Seq<char>,
    pub blue: Seq<char>,
    pub reset: Seq<char>,
}

/// The palette for a severity, with or without color.
pub open spec fn palette(s: Severity, color: bool) -> Palette {
    if color {
        Palette { sev: severity_color_text(s), bold: ansi_bold(), blue: ansi_blue(), reset: ansi_reset() }
    } else {
        Palette { sev: seq![], bold: seq![], blue: seq![], reset: seq![] }
    }
}

/// An empty gutter line.
pub open spec fn gutter_row(p: Palette, w: int) -> Seq<char> {
    p.blue + spaces(w as nat) + " |"@ + p.reset + "\n"@
}

/// A numbered source line.
pub open spec fn source_row(p: Palette, w: int, n: int, text: Seq<char>) -> Seq<char> {
    p.blue + pad_left(decimal(n as nat), w) + " |"@ + p.reset + " "@ + text + "\n"@
}

/// A secondary label: a gap, its source line, and its `-` underline with
/// its message.
pub open spec fn label_block(p: Palette, w: int, cs: Seq<char>, lab: Label) -> Seq<char> {
    let (ln, col) = line_col(cs, lab.span.start as int);
    let text = source_line(cs, ln);
    gutter_row(p, w) + source_row(p, w, ln, text)
        + p.blue + spaces(w as nat) + " |"@ + p.reset + " "@ + spaces((col - 1) as nat) + p.sev
        + repeat('-', underline_len(lab.span, text, col) as nat) + " "@ + lab.message@ + p.reset + "\n"@
}

/// The blocks of the labels not on the primary span, in order.
pub open spec fn labels_text(p: Palette, w: int, cs: Seq<char>, labels: Seq<Label>, span: Span) -> Seq<char>
    decreases labels.len(),
{
    if labels.len() == 0 {
        seq![]
    } else {
        (if labels[0].span == span { seq![] } else { label_block(p, w, cs, labels[0]) })
            + labels_text(p, w, cs, labels.drop_first(), span)
    }
}

/// The note lines.
pub open spec fn notes_text(p: Palette, w: int, notes: Seq<String>) -> Seq<char>
    decreases notes.len(),
{
    if notes.len() == 0 {
        seq![]
    } else {
        p.blue + spaces(w as nat) + " = "@ + p.reset + "note: "@ + notes[0]@ + "\n"@ + notes_text(p, w, notes.drop_first())
    }
}

/// The quick-fix lines.
pub open spec fn fixes_text(p: Palette, w: int, fixes: Seq<QuickFix>) -> Seq<char>
    decreases fixes.len(),
{
    if fixes.len() == 0 {
        seq![]
    } else {
        p.blue + spaces(w as nat) + " = "@ + p.reset + "quickfix: "@ + fixes[0].description@ + "\n"@
            + fixes_text(p, w, fixes.drop_first())
    }
}

/// The header line: severity, code and message.
pub open spec fn header_text(p: Palette, d: Diagnostic) -> Seq<char> {
    p.sev + d.severity.spec_word() + "["@ + d.code.0@ + "]"@ + p.reset + ": "@ + p.bold + d.message@ + p.reset + "\n"@
}

/// The location line: file, line and column.
pub open spec fn location_text(p: Palette, w: int, file: Seq<char>, ln: int, col: int) -> Seq<char> {
    p.blue + pad_left("-->"@, w + 1) + p.reset + " "@ + file + ":"@ + decimal(ln as nat) + ":"@ + decimal(col as nat) + "\n"@
}

/// The primary underline line.
pub open spec fn underline_text(p: Palette, w: int, col: int, c: char, n: int, suffix: Seq<char>) -> Seq<char> {
    p.blue + spaces(w as nat) + " |"@ + p.reset + " "@ + spaces((col - 1) as nat) + p.sev + repeat(c, n as nat) + suffix
        + p.reset + "\n"@
}

/// The help line, if any.
pub open spec fn help_text(p: Palette, w: int, help: Option<String>) -> Seq<char> {
    match help {
        Some(h) => p.blue + spaces(w as nat) + " = "@ + p.reset + p.sev + "help"@ + p.reset + ": "@ + h@ + "\n"@,
        None => seq![],
    }
}

/// The gutter width of a rendering: the digits of its largest line number.
pub open spec fn gutter_width(d: Diagnostic, cs: Seq<char>) -> int {
    decimal(max_line(d.labels@, cs, line_col(cs, d.span.start as int).0) as nat).len() as int
}

/// The rendering of diagnostic `d` against source `cs` named `file`.
pub open spec fn render_text(d: Diagnostic, cs: Seq<char>, file: Seq<char>, color: bool) -> Seq<char> {
    let p = palette(d.severity, color);
    let (ln, col) = line_col(cs, d.span.start as int);
    let text = source_line(cs, ln);
    let w = gutter_width(d, cs);
    header_text(p, d) + location_text(p, w, file, ln, col) + gutter_row(p, w) + source_row(p, w, ln, text)
        + underline_text(p, w, col, underline_of(d.severity), underline_len(d.span, text, col), primary_msg(d.labels@, d.span))
        + labels_text(p, w, cs, d.labels@, d.span) + gutter_row(p, w) + notes_text(p, w, d.notes@) + help_text(p, w, d.help)
        + fixes_text(p, w, d.quickfixes@)
}


/// The palette of four color strings.
pub open spec fn pal(sev: &str, bold: &str, blue: &str, reset: &str) -> Palette {
    Palette { sev: sev@, bold: bold@, blue: blue@, reset: reset@ }
}

/// Appends `t` right-aligned in `w` columns.
fn push_padded(out: &mut String, t: &str, w: usize)
    ensures
        final(out)@ == old(out)@ + pad_left(t@, w as int),
{
    let n = t.unicode_len();
    if n < w {
        push_repeat(out, ' ', w - n);
    }
    append(out, t);
    proof {
        assert(Seq::new((w - n) as nat, |i: int| ' ') =~= spaces((w - t@.len()) as nat));
    }
}

/// Appends an empty gutter line.
fn push_gutter_row(out: &mut String, sev: &str, bold: &str, blue: &str, reset: &str, w: usize)
    ensures
        final(out)@ == old(out)@ + gutter_row(pal(sev, bold, blue, reset), w as int),
{
    append(out, blue);
    push_repeat(out, ' ', w);
    append(out, " |");
    append(out, reset);
    append(out, "\n");
    proof {
        reveal_strlit("");
        assert(Seq::new(w as nat, |i: int| ' ') =~= spaces(w as nat));
    }
}

/// Appends a numbered source line.
fn push_source_row(out: &mut String, sev: &str, bold: &str, blue: &str, reset: &str, w: usize, n: usize, text: &String)
    ensures
        final(out)@ == old(out)@ + source_row(pal(sev, bold, blue, reset), w as int, n as int, text@),
{
    append(out, blue);
    let num = usize_to_string(n);
    push_padded(out, num.as_str(), w);
    append(out, " |");
    append(out, reset);
    append(out, " ");
    append(out, text.as_str());
    append(out, "\n");
}

/// Appends an underline line: a gap of `col - 1`, the underline, a suffix.
fn push_underline(out: &mut String, sev: &str, bold: &str, blue: &str, reset: &str, w: usize, col: usize, c: char, len: usize, suffix: &str)
    requires
        col >= 1,
    ensures
        final(out)@ == old(out)@ + underline_text(pal(sev, bold, blue, reset), w as int, col as int, c, len as int, suffix@),
{
    append(out, blue);
    push_repeat(out, ' ', w);
    append(out, " |");
    append(out, reset);
    append(out, " ");
    push_repeat(out, ' ', col - 1);
    append(out, sev);
    push_repeat(out, c, len);
    append(out, suffix);
    append(out, reset);
    append(out, "\n");
    proof {
        assert(Seq::new(w as nat, |i: int| ' ') =~= spaces(w as nat));
        assert(Seq::new((col - 1) as nat, |i: int| ' ') =~= spaces((col - 1) as nat));
        assert(Seq::new(len as nat, |i: int| c) =~= repeat(c, len as nat));
    }
}

/// The length of an underline for `span` on `text` at column `col`.
fn underline_length(span: Span, text: &String, col: usize) -> (r: usize)
    requires
        col >= 1,
    ensures
        r as int == underline_len(span, text@, col as int),
{
    let span_len = if span.end > span.start { span.end - span.start } else { 1 };
    let bytes = text.as_str().len();
    let avail = if bytes >= col - 1 { bytes - (col - 1) } else { 0 };
    let m = if span_len < avail { span_len } else { avail };
    if m < 1 { 1 } else { m }
}

/// Appends the header line.
fn push_header(out: &mut String, diag: &Diagnostic, sev: &str, bold: &str, blue: &str, reset: &str)
    ensures
        final(out)@ == old(out)@ + header_text(pal(sev, bold, blue, reset), *diag),
{
    append(out, sev);
    let word = diag.severity.word();
    append(out, word.as_str());
    append(out, "[");
    append(out, diag.code.0.as_str());
    append(out, "]");
    append(out, reset);
    append(out, ": ");
    append(out, bold);
    append(out, diag.message.as_str());
    append(out, reset);
    append(out, "\n");
}

/// The gutter width of a rendering.
fn compute_width(diag: &Diagnostic, source: &str, line_num: usize) -> (w: usize)
    requires
        encode_utf8(source@).len() < usize::MAX,
        line_num as int == line_col(source@, diag.span.start as int).0,
    ensures
        w as int == gutter_width(*diag, source@),
{
    let ghost cs = source@;
    let mut max = line_num;
    let mut i: usize = 0;
    proof { assert(diag.labels@.subrange(0, diag.labels@.len() as int) =~= diag.labels@); }
    while i < diag.labels.len()
        invariant
            i <= diag.labels@.len(),
            encode_utf8(source@).len() < usize::MAX,
            max_line(diag.labels@, cs, line_num as int)
                == max_line(diag.labels@.subrange(i as int, diag.labels@.len() as int), cs, max as int),
            cs == source@,
        decreases diag.labels@.len() - i,
    {
        let (ln, _c) = offset_to_line_col(source, diag.labels[i].span.start);
        proof {
            let rest = diag.labels@.subrange(i as int, diag.labels@.len() as int);
            assert(rest[0] == diag.labels@[i as int]);
            assert(rest.drop_first() =~= diag.labels@.subrange(i + 1, diag.labels@.len() as int));
        }
        if ln > max {
            max = ln;
        }
        i = i + 1;
    }
    proof {
        assert(diag.labels@.subrange(i as int, diag.labels@.len() as int) =~= Seq::<Label>::empty());
    }
    usize_to_string(max).as_str().unicode_len()
}

/// Appends the location line.
fn push_location(out: &mut String, sev: &str, bold: &str, blue: &str, reset: &str, w: usize, file_name: &str, line_num: usize, col: usize)
    ensures
        final(out)@ == old(out)@ + location_text(pal(sev, bold, blue, reset), w as int, file_name@, line_num as int, col as int),
{
    append(out, blue);
    push_arrow(out, w);
    append(out, reset);
    append(out, " ");
    append(out, file_name);
    append(out, ":");
    append(out, usize_to_string(line_num).as_str());
    append(out, ":");
    append(out, usize_to_string(col).as_str());
    append(out, "\n");
}

/// Appends the blocks of the labels not on `span`.
fn push_labels(out: &mut String, labels: &Vec<Label>, span: Span, source: &str, sev: &str, bold: &str, blue: &str, reset: &str, w: usize)
    requires
        encode_utf8(source@).len() < usize::MAX,
    ensures
        final(out)@ == old(out)@ + labels_text(pal(sev, bold, blue, reset), w as int, source@, labels@, span),
{
    let ghost p = pal(sev, bold, blue, reset);
    let ghost cs = source@;
    let ghost start = out@;
    let mut i: usize = 0;
    proof {
        assert(labels@.subrange(0, labels@.len() as int) =~= labels@);
    }
    while i < labels.len()
        invariant
            i <= labels@.len(),
            encode_utf8(source@).len() < usize::MAX,
            cs == source@,
            p == pal(sev, bold, blue, reset),
            start + labels_text(p, w as int, cs, labels@, span)
                == out@ + labels_text(p, w as int, cs, labels@.subrange(i as int, labels@.len() as int), span),
        decreases labels@.len() - i,
    {
        let label = &labels[i];
        let ghost rest = labels@.subrange(i as int, labels@.len() as int);
        let ghost pre = out@;
        proof {
            assert(rest[0] == *label);
            assert(rest.drop_first() =~= labels@.subrange(i + 1, labels@.len() as int));
        }
        let ghost r2 = labels_text(p, w as int, cs, labels@.subrange(i + 1, labels@.len() as int), span);
        if label.span != span {
            push_label_block(out, label, source, sev, bold, blue, reset, w);
            proof {
                assert(pre + (label_block(p, w as int, cs, *label) + r2) =~= out@ + r2);
            }
        } else {
            proof {
                assert(Seq::<char>::empty() + r2 =~= r2);
            }
        }
        i = i + 1;
    }
    proof {
        assert(labels@.subrange(i as int, labels@.len() as int) =~= Seq::<Label>::empty());
        assert(out@ + Seq::<char>::empty() =~= out@);
    }
}

/// Appends the block of a secondary label.
#[verifier::rlimit(40)]
fn push_label_block(out: &mut String, label: &Label, source: &str, sev: &str, bold: &str, blue: &str, reset: &str, w: usize)
    requires
        encode_utf8(source@).len() < usize::MAX,
    ensures
        final(out)@ == old(out)@ + label_block(pal(sev, bold, blue, reset), w as int, source@, *label),
{
    let ghost pre = out@;
    let (l_text, l_num, l_col) = get_source_line(source, label.span.start);
    push_gutter_row(out, sev, bold, blue, reset, w);
    push_source_row(out, sev, bold, blue, reset, w, l_num, &l_text);
    let l_len = underline_length(label.span, &l_text, l_col);
    let suffix = cat_space(&label.message);
    push_underline(out, sev, bold, blue, reset, w, l_col, '-', l_len, suffix.as_str());
    proof {
        assert(out@ =~= pre + label_block(pal(sev, bold, blue, reset), w as int, source@, *label));
    }
}

/// Appends the note lines.
fn push_notes(out: &mut String, notes: &Vec<String>, sev: &str, bold: &str, blue: &str, reset: &str, w: usize)
    ensures
        final(out)@ == old(out)@ + notes_text(pal(sev, bold, blue, reset), w as int, notes@),
{
    let ghost p = pal(sev, bold, blue, reset);
    let ghost start = out@;
    let mut i: usize = 0;
    proof { assert(notes@.subrange(0, notes@.len() as int) =~= notes@); }
    while i < notes.len()
        invariant
            i <= notes@.len(),
            p == pal(sev, bold, blue, reset),
            start + notes_text(p, w as int, notes@) == out@ + notes_text(p, w as int, notes@.subrange(i as int, notes@.len() as int)),
        decreases notes@.len() - i,
    {
        let ghost rest = notes@.subrange(i as int, notes@.len() as int);
        let ghost pre = out@;
        proof {
            assert(rest[0] == notes@[i as int]);
            assert(rest.drop_first() =~= notes@.subrange(i + 1, notes@.len() as int));
        }
        append(out, blue);
        push_repeat(out, ' ', w);
        append(out, " = ");
        append(out, reset);
        append(out, "note: ");
        append(out, notes[i].as_str());
        append(out, "\n");
        proof {
            assert(Seq::new(w as nat, |k: int| ' ') =~= spaces(w as nat));
            let r2 = notes_text(p, w as int, notes@.subrange(i + 1, notes@.len() as int));
            let item = p.blue + spaces(w as nat) + " = "@ + p.reset + "note: "@ + notes@[i as int]@ + "\n"@;
            assert(out@ =~= pre + item);
            assert(pre + (item + r2) =~= out@ + r2);
        }
        i = i + 1;
    }
    proof {
        assert(notes@.subrange(i as int, notes@.len() as int) =~= Seq::<String>::empty());
        assert(out@ + Seq::<char>::empty() =~= out@);
    }
}

/// Appends the help line, if any.
fn push_help(out: &mut String, help: &Option<String>, sev: &str, bold: &str, blue: &str, reset: &str, w: usize)
    ensures
        final(out)@ == old(out)@ + help_text(pal(sev, bold, blue, reset), w as int, *help),
{
    match help {
        Some(h) => {
            append(out, blue);
            push_repeat(out, ' ', w);
            append(out, " = ");
            append(out, reset);
            append(out, sev);
            append(out, "help");
            append(out, reset);
            append(out, ": ");
            append(out, h.as_str());
            append(out, "\n");
            proof { assert(Seq::new(w as nat, |k: int| ' ') =~= spaces(w as nat)); }
        }
        None => {
            proof { assert(out@ + Seq::<char>::empty() =~= out@); }
        }
    }
}

/// Appends the quick-fix lines.
fn push_fixes(out: &mut String, fixes: &Vec<QuickFix>, sev: &str, bold: &str, blue: &str, reset: &str, w: usize)
    ensures
        final(out)@ == old(out)@ + fixes_text(pal(sev, bold, blue, reset), w as int, fixes@),
{
    let ghost p = pal(sev, bold, blue, reset);
    let ghost start = out@;
    let mut i: usize = 0;
    proof { assert(fixes@.subrange(0, fixes@.len() as int) =~= fixes@); }
    while i < fixes.len()
        invariant
            i <= fixes@.len(),
            p == pal(sev, bold, blue, reset),
            start + fixes_text(p, w as int, fixes@) == out@ + fixes_text(p, w as int, fixes@.subrange(i as int, fixes@.len() as int)),
        decreases fixes@.len() - i,
    {
        let ghost rest = fixes@.subrange(i as int, fixes@.len() as int);
        let ghost pre = out@;
        proof {
            assert(rest[0] == fixes@[i as int]);
            assert(rest.drop_first() =~= fixes@.subrange(i + 1, fixes@.len() as int));
        }
        append(out, blue);
        push_repeat(out, ' ', w);
        append(out, " = ");
        append(out, reset);
        append(out, "quickfix: ");
        append(out, fixes[i].description.as_str());
        append(out, "\n");
        proof {
            assert(Seq::new(w as nat, |k: int| ' ') =~= spaces(w as nat));
            let r2 = fixes_text(p, w as int, fixes@.subrange(i + 1, fixes@.len() as int));
            let item = p.blue + spaces(w as nat) + " = "@ + p.reset + "quickfix: "@ + fixes@[i as int].description@ + "\n"@;
            assert(out@ =~= pre + item);
            assert(pre + (item + r2) =~= out@ + r2);
        }
        i = i + 1;
    }
    proof {
        assert(fixes@.subrange(i as int, fixes@.len() as int) =~= Seq::<QuickFix>::empty());
        assert(out@ + Seq::<char>::empty() =~= out@);
    }
}

/// Render a diagnostic, with ANSI colors when `color` is set.
pub fn render_impl(diag: &Diagnostic, source: &str, file_name: &str, color: bool) -> (r: String)
    requires
        encode_utf8(source@).len() < usize::MAX,
    ensures
        r@ == render_text(*diag, source@, file_name@, color),
{
    proof {
        reveal_strlit("");
        assert(""@ =~= Seq::<char>::empty());
    }
    let sev: &str = if color { severity_color(diag.severity) } else { "" };
    let bold: &str = if color { "\x1b[1m" } else { "" };
    let blue: &str = if color { "\x1b[1;34m" } else { "" };
    let reset: &str = if color { "\x1b[0m" } else { "" };
    let ghost p = palette(diag.severity, color);
    assert(p == pal(sev, bold, blue, reset));
    let mut out = String::new();
    push_header(&mut out, diag, sev, bold, blue, reset);
    let (line_text, line_num, col) = get_source_line(source, diag.span.start);
    let w = compute_width(diag, source, line_num);
    push_location(&mut out, sev, bold, blue, reset, w, file_name, line_num, col);
    push_gutter_row(&mut out, sev, bold, blue, reset, w);
    push_source_row(&mut out, sev, bold, blue, reset, w, line_num, &line_text);
    let ul = underline_length(diag.span, &line_text, col);
    let primary = primary_label(&diag.labels, diag.span);
    push_underline(&mut out, sev, bold, blue, reset, w, col, underline_char(diag.severity), ul, primary.as_str());
    push_labels(&mut out, &diag.labels, diag.span, source, sev, bold, blue, reset, w);
    push_gutter_row(&mut out, sev, bold, blue, reset, w);
    push_notes(&mut out, &diag.notes, sev, bold, blue, reset, w);
    push_help(&mut out, &diag.help, sev, bold, blue, reset, w);
    push_fixes(&mut out, &diag.quickfixes, sev, bold, blue, reset, w);
    proof {
        assert(out@ =~= render_text(*diag, source@, file_name@, color));
    }
    out
}

/// Appends `-->` right-aligned in `w + 1` columns.
fn push_arrow(out: &mut String, w: usize)
    ensures
        final(out)@ == old(out)@ + pad_left("-->"@, w + 1),
{
    proof { reveal_strlit("-->"); }
    if w > 2 {
        push_repeat(out, ' ', w - 2);
    }
    append(out, "-->");
    proof { assert(Seq::new((w - 2) as nat, |i: int| ' ') =~= spaces((w + 1 - 3) as nat)); }
}

/// A space followed by `s`.
fn cat_space(s: &String) -> (r: String)
    ensures
        r@ == " "@ + s@,
{
    let mut r = owned(" ");
    append(&mut r, s.as_str());
    r
}

/// The message of the first label on `span` after a space, or nothing.
fn primary_label(labels: &Vec<Label>, span: Span) -> (r: String)
    ensures
        r@ == primary_msg(labels@, span),
{
    let mut i: usize = 0;
    proof { assert(labels@.subrange(0, labels@.len() as int) =~= labels@); }
    while i < labels.len()
        invariant
            i <= labels@.len(),
            primary_msg(labels@, span) == primary_msg(labels@.subrange(i as int, labels@.len() as int), span),
        decreases labels@.len() - i,
    {
        let ghost rest = labels@.subrange(i as int, labels@.len() as int);
        proof {
            assert(rest[0] == labels@[i as int]);
            assert(rest.drop_first() =~= labels@.subrange(i + 1, labels@.len() as int));
        }
        if labels[i].span == span {
            return cat_space(&labels[i].message);
        }
        i = i + 1;
    }
    proof { reveal_strlit(""); }
    String::new()
}

/// Render a diagnostic with ANSI colors.
pub fn render_diagnostic(diag: &Diagnostic, source: &str, file_name: &str) -> (r: String)
    requires
        encode_utf8(source@).len() < usize::MAX,
    ensures
        r@ == render_text(*diag, source@, file_name@, true),
{
    render_impl(diag, source, file_name, true)
}

/// Render a diagnostic without ANSI colors.
pub fn render_diagnostic_plain(diag: &Diagnostic, source: &str, file_name: &str) -> (r: String)
    requires
        encode_utf8(source@).len() < usize::MAX,
    ensures
        r@ == render_text(*diag, source@, file_name@, false),
{
    render_impl(diag, source, file_name, false)
}

impl Diagnostic {
    /// Render as human-readable text with ANSI colors.
    pub fn render(&self, source: &str, file_name: &str) -> (r: String)
        requires
            encode_utf8(source@).len() < usize::MAX,
        ensures
            r@ == render_text(*self, source@, file_name@, true),
            texts_esc_free(*self, source@, file_name@) ==> strip_ansi(r@) == render_text(*self, source@, file_name@, false),
    {
        proof {
            if texts_esc_free(*self, source@, file_name@) {
                lemma_plain_from_colored(*self, source@, file_name@);
            }
        }
        render_diagnostic(self, source, file_name)
    }

    /// Render as human-readable text without colors.
    pub fn render_plain(&self, source: &str, file_name: &str) -> (r: String)
        requires
            encode_utf8(source@).len() < usize::MAX,
        ensures
            r@ == render_text(*self, source@, file_name@, false),
    {
        render_diagnostic_plain(self, source, file_name)
    }
}

/// The colored renderings of `ds`, separated by newlines.
pub open spec fn render_all_text(ds: Seq<Diagnostic>, cs: Seq<char>, file: Seq<char>) -> Seq<char>
    decreases ds.len(),
{
    if ds.len() == 0 {
        seq![]
    } else if ds.len() == 1 {
        render_text(ds[0], cs, file, true)
    } else {
        render_all_text(ds.drop_last(), cs, file) + "\n"@ + render_text(ds.last(), cs, file, true)
    }
}

impl DiagnosticBag {
    /// Render all diagnostics as human-readable text, separated by newlines.
    pub fn render_all(&self, source: &str, file_name: &str) -> (r: String)
        requires
            encode_utf8(source@).len() < usize::MAX,
        ensures
            r@ == render_all_text(self@, source@, file_name@),
    {
        let ds = self.iter();
        let mut out = String::new();
        let mut i: usize = 0;
        proof { reveal_strlit(""); assert(ds@.subrange(0, 0) =~= Seq::<Diagnostic>::empty()); }
        while i < ds.len()
            invariant
                i <= ds@.len(),
                ds@ == self@,
                encode_utf8(source@).len() < usize::MAX,
                out@ == render_all_text(ds@.subrange(0, i as int), source@, file_name@),
            decreases ds@.len() - i,
        {
            if i > 0 {
                append(&mut out, "\n");
            }
            let r = ds[i].render(source, file_name);
            append(&mut out, r.as_str());
            proof {
                let pre = ds@.subrange(0, i + 1);
                assert(pre.drop_last() =~= ds@.subrange(0, i as int));
                assert(pre.last() == ds@[i as int]);
                if i == 0 {
                    assert(out@ =~= render_text(ds@[0], source@, file_name@, true));
                }
            }
            i = i + 1;
        }
        proof { assert(ds@.subrange(0, i as int) =~= ds@); }
        out
    }
}


/// Offset zero is line 1, column 1.
pub proof fn lemma_line_col_origin(cs: Seq<char>)
    ensures
        line_col(cs, 0) == (1int, 1int),
{
    if cs.len() > 0 {
        lemma_byte_offset_ge(cs, 0);
    }
}


// ---------------------------------------------------------------------------
// Colour codes and the plain rendering
// ---------------------------------------------------------------------------

/// Text with no escape character.
pub open spec fn esc_free(s: Seq<char>) -> bool {
    forall|i: int| 0 <= i < s.len() ==> s[i] != '\x1b'
}

/// `s` with its escape sequences removed, each from an escape character up
/// to and including the next `m`; `in_code` when reading starts inside one.
pub open spec fn strip_from(s: Seq<char>, in_code: bool) -> Seq<char>
    decreases s.len(),
{
    if s.len() == 0 {
        s
    } else if in_code {
        strip_from(s.drop_first(), s[0] != 'm')
    } else if s[0] == '\x1b' {
        strip_from(s.drop_first(), true)
    } else {
        seq![s[0]] + strip_from(s.drop_first(), false)
    }
}

/// Whether reading `s` from the state `in_code` ends inside an escape
/// sequence.
pub open spec fn ends_in_code(s: Seq<char>, in_code: bool) -> bool
    decreases s.len(),
{
    if s.len() == 0 {
        in_code
    } else if in_code {
        ends_in_code(s.drop_first(), s[0] != 'm')
    } else {
        ends_in_code(s.drop_first(), s[0] == '\x1b')
    }
}

/// `s` with its ANSI colour codes removed.
pub open spec fn strip_ansi(s: Seq<char>) -> Seq<char> {
    strip_from(s, false)
}

/// Stripping `c` gives `p`, and `c` ends outside any escape sequence.
pub open spec fn strips_to(c: Seq<char>, p: Seq<char>) -> bool {
    &&& !ends_in_code(c, false)
    &&& strip_ansi(c) == p
}

/// Stripping works piece by piece.
proof fn lemma_strip_cat(x: Seq<char>, y: Seq<char>, st: bool)
    ensures
        strip_from(x + y, st) == strip_from(x, st) + strip_from(y, ends_in_code(x, st)),
        ends_in_code(x + y, st) == ends_in_code(y, ends_in_code(x, st)),
    decreases x.len(),
{
    if x.len() == 0 {
        assert(x + y =~= y);
    } else {
        assert((x + y).drop_first() =~= x.drop_first() + y);
        assert((x + y)[0] == x[0]);
        let st2 = if st { x[0] != 'm' } else { x[0] == '\x1b' };
        lemma_strip_cat(x.drop_first(), y, st2);
        if !st && x[0] != '\x1b' {
            assert(seq![x[0]] + (strip_from(x.drop_first(), false) + strip_from(y, ends_in_code(x, st)))
                =~= (seq![x[0]] + strip_from(x.drop_first(), false)) + strip_from(y, ends_in_code(x, st)));
        }
    }
}

/// Pieces that strip to pieces strip, joined, to the joined pieces.
proof fn lemma_strips_cat(a: Seq<char>, b: Seq<char>, c: Seq<char>, d: Seq<char>)
    requires
        strips_to(a, b),
        strips_to(c, d),
    ensures
        strips_to(a + c, b + d),
{
    lemma_strip_cat(a, c, false);
}

/// Text with no escape character strips to itself.
proof fn lemma_strips_plain(t: Seq<char>)
    requires
        esc_free(t),
    ensures
        strips_to(t, t),
    decreases t.len(),
{
    if t.len() > 0 {
        assert(esc_free(t.drop_first()));
        lemma_strips_plain(t.drop_first());
        assert(seq![t[0]] + t.drop_first() =~= t);
    }
}

/// Each colour of a palette strips to the plain palette's (empty) one.
proof fn lemma_palette_strips(sev: Severity)
    ensures
        strips_to(palette(sev, true).sev, palette(sev, false).sev),
        strips_to(palette(sev, true).bold, palette(sev, false).bold),
        strips_to(palette(sev, true).blue, palette(sev, false).blue),
        strips_to(palette(sev, true).reset, palette(sev, false).reset),
{
    reveal_strlit("\x1b[1;31m");
    reveal_strlit("\x1b[1;33m");
    reveal_strlit("\x1b[1;36m");
    reveal_strlit("\x1b[0m");
    reveal_strlit("\x1b[1m");
    reveal_strlit("\x1b[1;34m");
    reveal_with_fuel(strip_from, 9);
    reveal_with_fuel(ends_in_code, 9);
    assert(strip_ansi(ansi_reset()) =~= Seq::<char>::empty());
    assert(strip_ansi(ansi_bold()) =~= Seq::<char>::empty());
    assert(strips_to(ansi_reset(), seq![]));
    assert(strips_to(ansi_bold(), seq![]));
    assert(strip_ansi(ansi_blue()) =~= Seq::<char>::empty());
    assert(strips_to(ansi_blue(), seq![]));
    assert(strip_ansi(severity_color_text(sev)) =~= Seq::<char>::empty());
    assert(strips_to(severity_color_text(sev), seq![]));
}

/// The fixed words of a rendering hold no escape character.
proof fn lemma_words_esc_free(sev: Severity)
    ensures
        esc_free(" |"@),
        esc_free("\n"@),
        esc_free(" "@),
        esc_free(" = "@),
        esc_free("note: "@),
        esc_free("quickfix: "@),
        esc_free("help"@),
        esc_free(": "@),
        esc_free("["@),
        esc_free("]"@),
        esc_free("-->"@),
        esc_free(":"@),
        esc_free(sev.spec_word()),
{
    reveal_strlit(" |");
    reveal_strlit("\n");
    reveal_strlit(" ");
    reveal_strlit(" = ");
    reveal_strlit("note: ");
    reveal_strlit("quickfix: ");
    reveal_strlit("help");
    reveal_strlit(": ");
    reveal_strlit("[");
    reveal_strlit("]");
    reveal_strlit("-->");
    reveal_strlit(":");
    reveal_strlit("error");
    reveal_strlit("warning");
    reveal_strlit("info");
}

/// A number's digits hold no escape character.
proof fn lemma_decimal_esc_free(n: nat)
    ensures
        esc_free(decimal(n)),
    decreases n,
{
    if n >= 10 {
        lemma_decimal_esc_free(n / 10);
    }
}

/// Joined pieces strip piece by piece.
proof fn lemma_strips_join()
    ensures
        forall|a: Seq<char>, b: Seq<char>, x: Seq<char>, y: Seq<char>|
            strips_to(a, b) && strips_to(x, y) ==> #[trigger] strips_to(a + x, b + y),
{
    assert forall|a: Seq<char>, b: Seq<char>, x: Seq<char>, y: Seq<char>|
        strips_to(a, b) && strips_to(x, y) implies #[trigger] strips_to(a + x, b + y) by {
        lemma_strips_cat(a, b, x, y);
    }
}

/// The leaves of a rendering: its colours, fixed words, spaces, repeated
/// underline characters and numbers.
proof fn lemma_leaves(sev: Severity, w: int, n: int, k: int, ch: char)
    requires
        ch != '\x1b',
    ensures
        strips_to(palette(sev, true).sev, palette(sev, false).sev),
        strips_to(palette(sev, true).bold, palette(sev, false).bold),
        strips_to(palette(sev, true).blue, palette(sev, false).blue),
        strips_to(palette(sev, true).reset, palette(sev, false).reset),
        strips_to(" |"@, " |"@),
        strips_to("\n"@, "\n"@),
        strips_to(" "@, " "@),
        strips_to(" = "@, " = "@),
        strips_to(": "@, ": "@),
        strips_to(":"@, ":"@),
        strips_to(spaces(w as nat), spaces(w as nat)),
        strips_to(spaces(k as nat), spaces(k as nat)),
        strips_to(repeat(ch, n as nat), repeat(ch, n as nat)),
{
    lemma_palette_strips(sev);
    lemma_words_esc_free(sev);
    lemma_strips_plain(" |"@);
    lemma_strips_plain("\n"@);
    lemma_strips_plain(" "@);
    lemma_strips_plain(" = "@);
    lemma_strips_plain(": "@);
    lemma_strips_plain(":"@);
    lemma_strips_plain(spaces(w as nat));
    lemma_strips_plain(spaces(k as nat));
    lemma_strips_plain(repeat(ch, n as nat));
}

/// Gutter and source rows strip to their plain forms.
proof fn lemma_strips_rows(sev: Severity, w: int, n: int, text: Seq<char>)
    requires
        esc_free(text),
    ensures
        strips_to(gutter_row(palette(sev, true), w), gutter_row(palette(sev, false), w)),
        strips_to(source_row(palette(sev, true), w, n, text), source_row(palette(sev, false), w, n, text)),
{
    lemma_strips_join();
    lemma_leaves(sev, w, 0, 0, ' ');
    lemma_strips_plain(text);
    lemma_decimal_esc_free(n as nat);
    let dn = decimal(n as nat);
    if dn.len() < w {
        assert(esc_free(spaces((w - dn.len()) as nat) + dn));
    }
    lemma_strips_plain(pad_left(dn, w));
}

/// The label blocks strip to their plain forms.
proof fn lemma_strips_labels(sev: Severity, w: int, cs: Seq<char>, labels: Seq<Label>, span: Span)
    requires
        forall|k: int| #[trigger] esc_free(source_line(cs, k)),
        forall|i: int| 0 <= i < labels.len() ==> esc_free(#[trigger] labels[i].message@),
    ensures
        strips_to(labels_text(palette(sev, true), w, cs, labels, span), labels_text(palette(sev, false), w, cs, labels, span)),
    decreases labels.len(),
{
    lemma_strips_join();
    if labels.len() == 0 {
        lemma_strips_plain(seq![]);
    } else {
        lemma_strips_labels(sev, w, cs, labels.drop_first(), span);
        if labels[0].span == span {
            lemma_strips_plain(seq![]);
        } else {
            let lab = labels[0];
            let (ln, col) = line_col(cs, lab.span.start as int);
            let text = source_line(cs, ln);
            assert(esc_free(text));
            lemma_strips_rows(sev, w, ln, text);
            lemma_leaves(sev, w, underline_len(lab.span, text, col), col - 1, '-');
            assert(esc_free(lab.message@));
            lemma_strips_plain(lab.message@);
            assert(strips_to(label_block(palette(sev, true), w, cs, lab), label_block(palette(sev, false), w, cs, lab)));
        }
    }
}

/// The note lines strip to their plain forms.
proof fn lemma_strips_notes(sev: Severity, w: int, notes: Seq<String>)
    requires
        forall|i: int| 0 <= i < notes.len() ==> esc_free(#[trigger] notes[i]@),
    ensures
        strips_to(notes_text(palette(sev, true), w, notes), notes_text(palette(sev, false), w, notes)),
    decreases notes.len(),
{
    lemma_strips_join();
    if notes.len() == 0 {
        lemma_strips_plain(seq![]);
    } else {
        lemma_strips_notes(sev, w, notes.drop_first());
        lemma_leaves(sev, w, 0, 0, ' ');
        lemma_words_esc_free(sev);
        lemma_strips_plain("note: "@);
        assert(esc_free(notes[0]@));
        lemma_strips_plain(notes[0]@);
    }
}

/// The quick-fix lines strip to their plain forms.
proof fn lemma_strips_fixes(sev: Severity, w: int, fixes: Seq<QuickFix>)
    requires
        forall|i: int| 0 <= i < fixes.len() ==> esc_free(#[trigger] fixes[i].description@),
    ensures
        strips_to(fixes_text(palette(sev, true), w, fixes), fixes_text(palette(sev, false), w, fixes)),
    decreases fixes.len(),
{
    lemma_strips_join();
    if fixes.len() == 0 {
        lemma_strips_plain(seq![]);
    } else {
        lemma_strips_fixes(sev, w, fixes.drop_first());
        lemma_leaves(sev, w, 0, 0, ' ');
        lemma_words_esc_free(sev);
        lemma_strips_plain("quickfix: "@);
        assert(esc_free(fixes[0].description@));
        lemma_strips_plain(fixes[0].description@);
    }
}

/// The primary label's message holds no escape character.
proof fn lemma_primary_esc_free(labels: Seq<Label>, span: Span)
    requires
        forall|i: int| 0 <= i < labels.len() ==> esc_free(#[trigger] labels[i].message@),
    ensures
        esc_free(primary_msg(labels, span)),
    decreases labels.len(),
{
    if labels.len() > 0 {
        if labels[0].span == span {
            lemma_words_esc_free(Severity::Error);
            assert(esc_free(labels[0].message@));
            assert(esc_free(" "@ + labels[0].message@));
        } else {
            lemma_primary_esc_free(labels.drop_first(), span);
        }
    }
}

/// No escape character occurs in the diagnostic's texts (message, code,
/// label messages, notes, quick-fix descriptions, help), in the file name or
/// in the source.
pub open spec fn texts_esc_free(d: Diagnostic, cs: Seq<char>, file: Seq<char>) -> bool {
    &&& esc_free(d.message@)
    &&& esc_free(d.code.0@)
    &&& esc_free(file)
    &&& esc_free(cs)
    &&& forall|i: int| 0 <= i < d.labels@.len() ==> esc_free(#[trigger] d.labels@[i].message@)
    &&& forall|i: int| 0 <= i < d.notes@.len() ==> esc_free(#[trigger] d.notes@[i]@)
    &&& forall|i: int| 0 <= i < d.quickfixes@.len() ==> esc_free(#[trigger] d.quickfixes@[i].description@)
    &&& d.help matches Some(h) ==> esc_free(h@)
}

/// Every line of an escape-free text is escape-free.
proof fn lemma_lines_esc_free(cs: Seq<char>, i: int, k: nat)
    requires
        esc_free(cs),
    ensures
        esc_free(nth_line_from(cs, i, k)),
    decreases cs.len() - i,
{
    if 0 <= i < cs.len() {
        lemma_next_newline(cs, i);
        let e = next_newline(cs, i);
        if k == 0 {
            let seg = cs.subrange(i, e);
            assert forall|x: int| 0 <= x < seg.len() implies seg[x] != '\x1b' by {
                assert(seg[x] == cs[i + x]);
            }
            if seg.len() > 0 {
                assert forall|x: int| 0 <= x < seg.drop_last().len() implies seg.drop_last()[x] != '\x1b' by {
                    assert(seg.drop_last()[x] == seg[x]);
                }
            }
        } else if e < cs.len() {
            lemma_lines_esc_free(cs, e + 1, (k - 1) as nat);
        }
    }
}

/// Removing the colour codes from a coloured rendering gives the plain
/// rendering, when no escape character occurs in the diagnostic's texts, the
/// file name or the source.
pub proof fn lemma_plain_from_colored(d: Diagnostic, cs: Seq<char>, file: Seq<char>)
    requires
        texts_esc_free(d, cs, file),
    ensures
        strip_ansi(render_text(d, cs, file, true)) == render_text(d, cs, file, false),
{
    assert forall|k: int| #[trigger] esc_free(source_line(cs, k)) by {
        lemma_lines_esc_free(cs, 0, (k - 1) as nat);
    }
    lemma_render_strip_colors(d, cs, file);
}

/// Removing the colour codes from a coloured rendering gives the plain
/// rendering, when the diagnostic's texts, the file name and the source
/// lines hold no escape character.
pub proof fn lemma_render_strip_colors(d: Diagnostic, cs: Seq<char>, file: Seq<char>)
    requires
        esc_free(d.message@),
        esc_free(d.code.0@),
        esc_free(file),
        forall|k: int| #[trigger] esc_free(source_line(cs, k)),
        forall|i: int| 0 <= i < d.labels@.len() ==> esc_free(#[trigger] d.labels@[i].message@),
        forall|i: int| 0 <= i < d.notes@.len() ==> esc_free(#[trigger] d.notes@[i]@),
        forall|i: int| 0 <= i < d.quickfixes@.len() ==> esc_free(#[trigger] d.quickfixes@[i].description@),
        d.help matches Some(h) ==> esc_free(h@),
    ensures
        strip_ansi(render_text(d, cs, file, true)) == render_text(d, cs, file, false),
{
    let sev = d.severity;
    let c = palette(sev, true);
    let p = palette(sev, false);
    let (ln, col) = line_col(cs, d.span.start as int);
    let text = source_line(cs, ln);
    let w = gutter_width(d, cs);
    lemma_strips_join();
    lemma_words_esc_free(sev);
    lemma_strips_plain(sev.spec_word());
    lemma_strips_plain("["@);
    lemma_strips_plain("]"@);
    lemma_strips_plain(d.code.0@);
    lemma_strips_plain(d.message@);
    lemma_strips_plain(file);
    lemma_strips_plain("help"@);
    lemma_strips_plain("-->"@);
    lemma_leaves(sev, w, underline_len(d.span, text, col), col - 1, underline_of(sev));
    lemma_decimal_esc_free(ln as nat);
    lemma_decimal_esc_free(col as nat);
    lemma_strips_plain(decimal(ln as nat));
    lemma_strips_plain(decimal(col as nat));
    reveal_strlit("-->");
    if 3 < w + 1 {
        assert(esc_free(spaces((w + 1 - 3) as nat) + "-->"@));
    }
    lemma_strips_plain(pad_left("-->"@, w + 1));
    assert(esc_free(text));
    lemma_strips_rows(sev, w, ln, text);
    lemma_primary_esc_free(d.labels@, d.span);
    lemma_strips_plain(primary_msg(d.labels@, d.span));
    lemma_strips_labels(sev, w, cs, d.labels@, d.span);
    lemma_strips_notes(sev, w, d.notes@);
    lemma_strips_fixes(sev, w, d.quickfixes@);
    match d.help {
        Some(h) => lemma_strips_plain(h@),
        None => lemma_strips_plain(seq![]),
    }
    assert(strips_to(header_text(c, d), header_text(p, d)));
    assert(strips_to(location_text(c, w, file, ln, col), location_text(p, w, file, ln, col)));
    assert(strips_to(underline_text(c, w, col, underline_of(sev), underline_len(d.span, text, col), primary_msg(d.labels@, d.span)),
        underline_text(p, w, col, underline_of(sev), underline_len(d.span, text, col), primary_msg(d.labels@, d.span))));
    assert(strips_to(help_text(c, w, d.help), help_text(p, w, d.help)));
    assert(strips_to(render_text(d, cs, file, true), render_text(d, cs, file, false)));
}

} // verus!
