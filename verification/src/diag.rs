//! Diagnostics, and their three renderings of the same content: prose by
//! default, structured terms with `--diag=struct`, JSON with `--diag=json`.

use vstd::prelude::*;
use crate::text::{chars_of, decimal, hex_digit, push_hex_digit, lines, lines_of, owned, push_char, push_decimal, push_repeat, push_str, repeat};

verus! {

#[derive(Clone, Copy, Debug, Default, PartialEq, Eq, Structural)]
pub struct Span {
    pub file: usize,
    pub line: usize,
    pub col: usize,
    pub len: usize,
}

#[derive(Clone, Debug)]
pub struct Diag {
    pub span: Span,
    /// Stable code, e.g. `type.mismatch`, `match.nonexhaustive`.
    pub code: String,
    pub msg: String,
    /// Semantic path (`Ledger.mean.body`), stable under insertion.
    pub path: Option<String>,
    /// Concrete counterexample / witness, when there is one.
    pub witness: Option<String>,
    /// Mechanical repair, when the repair is mechanical.
    pub fix: Option<String>,
}

/// The characters an optional string holds, if it holds any.
pub open spec fn opt_view(o: Option<String>) -> Option<Seq<char>> {
    match o {
        Some(s) => Some(s@),
        None => None,
    }
}

impl Diag {
    pub fn error(span: Span, code: &str, msg: &str) -> (d: Diag)
        ensures
            d.span == span,
            d.code@ == code@,
            d.msg@ == msg@,
            d.path is None,
            d.witness is None,
            d.fix is None,
    {
        Diag { span, code: owned(code), msg: owned(msg), path: None, witness: None, fix: None }
    }

    pub fn with_fix(self, fix: &str) -> (d: Diag)
        ensures
            d.span == self.span,
            d.code == self.code,
            d.msg == self.msg,
            d.path == self.path,
            d.witness == self.witness,
            opt_view(d.fix) == Some(fix@),
    {
        Diag { fix: Some(owned(fix)), ..self }
    }

    pub fn with_witness(self, w: &str) -> (d: Diag)
        ensures
            d.span == self.span,
            d.code == self.code,
            d.msg == self.msg,
            d.path == self.path,
            opt_view(d.witness) == Some(w@),
            d.fix == self.fix,
    {
        Diag { witness: Some(owned(w)), ..self }
    }

    pub fn with_path(self, p: &str) -> (d: Diag)
        ensures
            d.span == self.span,
            d.code == self.code,
            d.msg == self.msg,
            opt_view(d.path) == Some(p@),
            d.witness == self.witness,
            d.fix == self.fix,
    {
        Diag { path: Some(owned(p)), ..self }
    }

    /// Sets the path only where none was set: the innermost path wins.
    pub fn at_path(self, p: &str) -> (d: Diag)
        ensures
            d.span == self.span,
            d.code == self.code,
            d.msg == self.msg,
            self.path is Some ==> d.path == self.path,
            self.path is None ==> opt_view(d.path) == Some(p@),
            d.witness == self.witness,
            d.fix == self.fix,
    {
        if self.path.is_none() {
            Diag { path: Some(owned(p)), ..self }
        } else {
            self
        }
    }
}

#[derive(Clone, Copy, PartialEq, Eq, Structural)]
pub enum DiagFormat {
    Prose,
    Struct,
    Json,
}

pub struct Files {
    pub names: Vec<String>,
    pub texts: Vec<String>,
}

impl Files {
    /// The name of the file a span points into, or `<input>` when it points
    /// into none.
    pub open spec fn name_of(&self, span: Span) -> Seq<char> {
        if span.file < self.names@.len() {
            self.names@[span.file as int]@
        } else {
            "<input>"@
        }
    }

    /// The source line a span starts on, or nothing when there is no such line.
    pub open spec fn line_of(&self, span: Span) -> Seq<char> {
        let n = if span.line == 0 { 0 } else { span.line - 1 };
        if span.file < self.texts@.len() && n < lines(self.texts@[span.file as int]@).len() {
            lines(self.texts@[span.file as int]@)[n as int]
        } else {
            Seq::empty()
        }
    }

    pub fn new() -> (f: Files)
        ensures
            f.names@.len() == 0,
            f.texts@.len() == 0,
    {
        Files { names: Vec::new(), texts: Vec::new() }
    }

    /// Registers a file and returns its id, the index its name now sits at.
    pub fn add(&mut self, name: &str, text: &str) -> (id: usize)
        ensures
            id == old(self).names@.len(),
            final(self).names@.len() == old(self).names@.len() + 1,
            final(self).texts@.len() == old(self).texts@.len() + 1,
            final(self).names@.take(id as int) == old(self).names@,
            final(self).texts@.take(old(self).texts@.len() as int) == old(self).texts@,
            final(self).names@[id as int]@ == name@,
            final(self).texts@.last()@ == text@,
    {
        self.names.push(owned(name));
        self.texts.push(owned(text));
        proof {
            assert(self.names@.take(old(self).names@.len() as int) =~= old(self).names@);
            assert(self.texts@.take(old(self).texts@.len() as int) =~= old(self).texts@);
        }
        self.names.len() - 1
    }

    pub fn line(&self, span: Span) -> (r: String)
        ensures
            r@ == self.line_of(span),
    {
        if span.file >= self.texts.len() {
            return String::new();
        }
        let ls = lines_of(self.texts[span.file].as_str());
        let n = if span.line == 0 { 0 } else { span.line - 1 };
        proof {
            assert(ls@.len() == lines(self.texts@[span.file as int]@).len());
        }
        if n < ls.len() {
            let r = owned(ls[n].as_str());
            proof {
                assert(ls@.map_values(|l: String| l@)[n as int] == ls@[n as int]@);
            }
            r
        } else {
            String::new()
        }
    }

    pub fn name(&self, span: Span) -> (r: &str)
        ensures
            r@ == self.name_of(span),
    {
        if span.file < self.names.len() {
            self.names[span.file].as_str()
        } else {
            "<input>"
        }
    }
}

// ------------------------------------------------------------------ rendering

/// Four lower-case hexadecimal digits of `v`.
pub open spec fn hex4(v: nat) -> Seq<char> {
    seq![hex_digit((v / 4096) % 16), hex_digit((v / 256) % 16), hex_digit((v / 16) % 16), hex_digit(v % 16)]
}

/// One character as it appears inside a JSON string.
pub open spec fn json_char(c: char) -> Seq<char> {
    if c == '"' {
        seq!['\\', '"']
    } else if c == '\\' {
        seq!['\\', '\\']
    } else if c == '\n' {
        seq!['\\', 'n']
    } else if c == '\t' {
        seq!['\\', 't']
    } else if (c as u32) < 0x20 {
        seq!['\\', 'u'] + hex4(c as u32 as nat)
    } else {
        seq![c]
    }
}

/// A string's characters as they appear inside a JSON string literal.
pub open spec fn json_escaped(s: Seq<char>) -> Seq<char>
    decreases s.len(),
{
    if s.len() == 0 {
        Seq::empty()
    } else {
        json_escaped(s.drop_last()) + json_char(s.last())
    }
}

pub fn json_escape(s: &str) -> (r: String)
    ensures
        r@ == json_escaped(s@),
{
    let cs = chars_of(s);
    let mut o = String::new();
    for i in 0..cs.len()
        invariant
            cs@ == s@,
            o@ == json_escaped(cs@.take(i as int)),
    {
        let c = cs[i];
        let ghost before = o@;
        assert(cs@.take(i + 1).drop_last() == cs@.take(i as int));
        if c == '"' {
            push_char(&mut o, '\\');
            push_char(&mut o, '"');
        } else if c == '\\' {
            push_char(&mut o, '\\');
            push_char(&mut o, '\\');
        } else if c == '\n' {
            push_char(&mut o, '\\');
            push_char(&mut o, 'n');
        } else if c == '\t' {
            push_char(&mut o, '\\');
            push_char(&mut o, 't');
        } else if (c as u32) < 0x20 {
            let v = c as u32;
            push_char(&mut o, '\\');
            push_char(&mut o, 'u');
            push_hex_digit(&mut o, (v / 4096) % 16);
            push_hex_digit(&mut o, (v / 256) % 16);
            push_hex_digit(&mut o, (v / 16) % 16);
            push_hex_digit(&mut o, v % 16);
        } else {
            push_char(&mut o, c);
        }
        assert(o@ =~= before + json_char(c));
    }
    assert(cs@.take(cs@.len() as int) == cs@);
    o
}

// ------------------------------------------------------------ reading the escapes back

/// The value of a hexadecimal digit, either case.
pub open spec fn hex_value(c: char) -> Option<nat> {
    if '0' <= c <= '9' {
        Some((c as u32 - '0' as u32) as nat)
    } else if 'a' <= c <= 'f' {
        Some((c as u32 - 'a' as u32 + 10) as nat)
    } else if 'A' <= c <= 'F' {
        Some((c as u32 - 'A' as u32 + 10) as nat)
    } else {
        None
    }
}

/// The value of four hexadecimal digits.
pub open spec fn hex4_value(t: Seq<char>) -> Option<nat> {
    match (hex_value(t[0]), hex_value(t[1]), hex_value(t[2]), hex_value(t[3])) {
        (Some(a), Some(b), Some(c), Some(d)) => Some(a * 4096 + b * 256 + c * 16 + d),
        _ => None,
    }
}

/// What the text between the quotes of a JSON string literal stands for, as
/// a JSON reader takes it: the escapes `\"`, `\\`, `\/`, `\b`, `\f`, `\n`,
/// `\r`, `\t` and `\uXXXX` (a code point outside the surrogates), any other
/// character as itself; `None` where the text is not a string's content, at
/// a bare `"`, a control character, or a broken escape.
pub open spec fn json_decoded(t: Seq<char>) -> Option<Seq<char>>
    decreases t.len(),
{
    if t.len() == 0 {
        Some(Seq::empty())
    } else if t[0] == '\\' {
        if t.len() < 2 {
            None
        } else {
            let e = t[1];
            let one = if e == '"' {
                Some('"')
            } else if e == '\\' {
                Some('\\')
            } else if e == '/' {
                Some('/')
            } else if e == 'b' {
                Some('\x08')
            } else if e == 'f' {
                Some('\x0c')
            } else if e == 'n' {
                Some('\n')
            } else if e == 'r' {
                Some('\r')
            } else if e == 't' {
                Some('\t')
            } else {
                None
            };
            match one {
                Some(c) => match json_decoded(t.skip(2)) {
                    Some(r) => Some(seq![c] + r),
                    None => None,
                },
                None => if e == 'u' && t.len() >= 6 {
                    match hex4_value(t.subrange(2, 6)) {
                        Some(v) => if v < 0xd800 || v > 0xdfff {
                            match json_decoded(t.skip(6)) {
                                Some(r) => Some(seq![(v as u32) as char] + r),
                                None => None,
                            }
                        } else {
                            None
                        },
                        None => None,
                    }
                } else {
                    None
                },
            }
        }
    } else if t[0] == '"' || (t[0] as u32) < 0x20 {
        None
    } else {
        match json_decoded(t.skip(1)) {
            Some(r) => Some(seq![t[0]] + r),
            None => None,
        }
    }
}

proof fn lemma_json_escaped_concat(a: Seq<char>, b: Seq<char>)
    ensures
        json_escaped(a + b) == json_escaped(a) + json_escaped(b),
    decreases b.len(),
{
    if b.len() == 0 {
        assert(a + b =~= a);
        assert(json_escaped(a) + json_escaped(b) =~= json_escaped(a));
    } else {
        assert((a + b).drop_last() =~= a + b.drop_last());
        lemma_json_escaped_concat(a, b.drop_last());
        assert(json_escaped(a) + json_escaped(b) =~= json_escaped(a) + json_escaped(b.drop_last()) + json_char(
            b.last(),
        ));
    }
}

proof fn lemma_hex_digit_value(d: nat)
    requires
        d < 16,
    ensures
        hex_value(hex_digit(d)) == Some(d),
{
    if d < 10 {
        assert(((d + 48) as u8) as char == hex_digit(d));
    }
}

proof fn lemma_json_char_decoded(c: char, rest: Seq<char>)
    requires
        json_decoded(rest) is Some,
    ensures
        json_decoded(json_char(c) + rest) == Some(seq![c] + json_decoded(rest)->0),
{
    let t = json_char(c) + rest;
    if c == '"' || c == '\\' || c == '\n' || c == '\t' {
        assert(t.skip(2) =~= rest);
    } else if (c as u32) < 0x20 {
        let v = c as u32 as nat;
        assert(v / 4096 == 0 && v / 256 == 0 && (v / 4096) % 16 == 0 && (v / 256) % 16 == 0);
        lemma_hex_digit_value(0);
        lemma_hex_digit_value((v / 16) % 16);
        lemma_hex_digit_value(v % 16);
        assert(t.subrange(2, 6) =~= hex4(v));
        assert(v == (v / 16) % 16 * 16 + v % 16);
        assert(hex4_value(t.subrange(2, 6)) == Some(v));
        assert(t.skip(6) =~= rest);
        assert((v as u32) as char == c);
    } else {
        assert(t.skip(1) =~= rest);
    }
}

/// JSON escaping is undone by a JSON reader: the escaped text, put between
/// quotes, is a string literal that reads back as exactly `s`.
pub proof fn lemma_json_escape_reads_back(s: Seq<char>)
    ensures
        json_decoded(json_escaped(s)) == Some(s),
    decreases s.len(),
{
    if s.len() > 0 {
        let tail = s.drop_first();
        assert(s =~= seq![s[0]] + tail);
        lemma_json_escaped_concat(seq![s[0]], tail);
        assert(seq![s[0]].drop_last() =~= Seq::<char>::empty());
        assert(json_escaped(seq![s[0]]) == json_escaped(Seq::<char>::empty()) + json_char(s[0]));
        assert(json_escaped(Seq::<char>::empty()) + json_char(s[0]) =~= json_char(s[0]));
        lemma_json_escape_reads_back(tail);
        lemma_json_char_decoded(s[0], json_escaped(tail));
        assert(seq![s[0]] + tail =~= s);
    }
}


/// `file:line:col`, with the column counted from one.
pub open spec fn location(name: Seq<char>, span: Span) -> Seq<char> {
    name + ":"@ + decimal(span.line as nat) + ":"@ + decimal((span.col + 1) as nat)
}

/// The path a diagnostic is reported under: its semantic path, or its place
/// in the source when it has none.
pub open spec fn shown_path(d: Diag, files: Files) -> Seq<char> {
    match d.path {
        Some(p) => p@,
        None => location(files.name_of(d.span), d.span),
    }
}

/// `prefix` and the string, when there is one; nothing otherwise.
pub open spec fn optional(prefix: Seq<char>, o: Option<String>) -> Seq<char> {
    match o {
        Some(s) => prefix + s@,
        None => Seq::empty(),
    }
}

/// As `optional`, with the string escaped for JSON and closed by a quote.
pub open spec fn json_optional(prefix: Seq<char>, o: Option<String>) -> Seq<char> {
    match o {
        Some(s) => prefix + json_escaped(s@) + "\""@,
        None => Seq::empty(),
    }
}

/// What `render` prints for `d`.
pub open spec fn rendered(d: Diag, files: Files, fmt: DiagFormat) -> Seq<char> {
    let path = shown_path(d, files);
    let name = files.name_of(d.span);
    match fmt {
        DiagFormat::Struct => {
            seq!['\u{2717}', ' '] + path + " "@ + d.code@
                + optional(seq![' ', '\u{22a8}', ' '], d.witness)
                + "\n  at: "@ + location(name, d.span)
                + "\n  msg: "@ + d.msg@
                + optional("\n  fix: "@, d.fix)
        },
        DiagFormat::Json => {
            "{\"path\":\""@ + json_escaped(path)
                + "\",\"code\":\""@ + json_escaped(d.code@)
                + "\",\"msg\":\""@ + json_escaped(d.msg@)
                + "\",\"file\":\""@ + json_escaped(name)
                + "\",\"line\":"@ + decimal(d.span.line as nat)
                + ",\"col\":"@ + decimal((d.span.col + 1) as nat)
                + json_optional(",\"witness\":\""@, d.witness)
                + json_optional(",\"fix\":\""@, d.fix)
                + "}"@
        },
        DiagFormat::Prose => {
            "error["@ + d.code@ + "]: "@ + d.msg@
                + "\n  --> "@ + location(name, d.span)
                + "\n   |\n   | "@ + files.line_of(d.span)
                + "\n   | "@ + repeat(' ', d.span.col as nat)
                + repeat('^', if d.span.len == 0 { 1 } else { d.span.len as nat })
                + optional("\n   = counterexample: "@, d.witness)
                + optional("\n   = fix: "@, d.fix)
        },
    }
}

fn push_location(s: &mut String, name: &str, span: Span)
    requires
        span.col < usize::MAX,
    ensures
        final(s)@ == old(s)@ + location(name@, span),
{
    push_str(s, name);
    push_str(s, ":");
    push_decimal(s, span.line as u64);
    push_str(s, ":");
    push_decimal(s, (span.col + 1) as u64);
    assert(final(s)@ =~= old(s)@ + location(name@, span));
}

fn push_optional(s: &mut String, prefix: &str, o: &Option<String>)
    ensures
        final(s)@ == old(s)@ + optional(prefix@, *o),
{
    if let Some(v) = o {
        push_str(s, prefix);
        push_str(s, v.as_str());
        assert(final(s)@ =~= old(s)@ + optional(prefix@, *o));
    } else {
        assert(final(s)@ =~= old(s)@ + optional(prefix@, *o));
    }
}

fn push_json_optional(s: &mut String, prefix: &str, o: &Option<String>)
    ensures
        final(s)@ == old(s)@ + json_optional(prefix@, *o),
{
    if let Some(v) = o {
        push_str(s, prefix);
        let e = json_escape(v.as_str());
        push_str(s, e.as_str());
        push_str(s, "\"");
        assert(final(s)@ =~= old(s)@ + json_optional(prefix@, *o));
    } else {
        assert(final(s)@ =~= old(s)@ + json_optional(prefix@, *o));
    }
}

pub fn render(d: &Diag, files: &Files, fmt: DiagFormat) -> (r: String)
    requires
        d.span.col < usize::MAX,
    ensures
        r@ == rendered(*d, *files, fmt),
{
    let name = files.name(d.span);
    let path: String = match &d.path {
        Some(p) => owned(p.as_str()),
        None => {
            let mut l = String::new();
            push_location(&mut l, name, d.span);
            assert(l@ =~= location(name@, d.span));
            l
        },
    };
    assert(path@ == shown_path(*d, *files));
    let mut s = String::new();
    match fmt {
        DiagFormat::Struct => {
            push_char(&mut s, '\u{2717}');
            push_char(&mut s, ' ');
            push_str(&mut s, path.as_str());
            push_str(&mut s, " ");
            push_str(&mut s, d.code.as_str());
            if let Some(w) = &d.witness {
                push_char(&mut s, ' ');
                push_char(&mut s, '\u{22a8}');
                push_char(&mut s, ' ');
                push_str(&mut s, w.as_str());
            }
            push_str(&mut s, "\n  at: ");
            push_location(&mut s, name, d.span);
            push_str(&mut s, "\n  msg: ");
            push_str(&mut s, d.msg.as_str());
            push_optional(&mut s, "\n  fix: ", &d.fix);
        },
        DiagFormat::Json => {
            push_str(&mut s, "{\"path\":\"");
            let e = json_escape(path.as_str());
            push_str(&mut s, e.as_str());
            push_str(&mut s, "\",\"code\":\"");
            let e = json_escape(d.code.as_str());
            push_str(&mut s, e.as_str());
            push_str(&mut s, "\",\"msg\":\"");
            let e = json_escape(d.msg.as_str());
            push_str(&mut s, e.as_str());
            push_str(&mut s, "\",\"file\":\"");
            let e = json_escape(name);
            push_str(&mut s, e.as_str());
            push_str(&mut s, "\",\"line\":");
            push_decimal(&mut s, d.span.line as u64);
            push_str(&mut s, ",\"col\":");
            push_decimal(&mut s, (d.span.col + 1) as u64);
            push_json_optional(&mut s, ",\"witness\":\"", &d.witness);
            push_json_optional(&mut s, ",\"fix\":\"", &d.fix);
            push_str(&mut s, "}");
        },
        DiagFormat::Prose => {
            push_str(&mut s, "error[");
            push_str(&mut s, d.code.as_str());
            push_str(&mut s, "]: ");
            push_str(&mut s, d.msg.as_str());
            push_str(&mut s, "\n  --> ");
            push_location(&mut s, name, d.span);
            push_str(&mut s, "\n   |\n   | ");
            let src = files.line(d.span);
            push_str(&mut s, src.as_str());
            push_str(&mut s, "\n   | ");
            push_repeat(&mut s, ' ', d.span.col);
            push_repeat(&mut s, '^', if d.span.len == 0 { 1 } else { d.span.len });
            push_optional(&mut s, "\n   = counterexample: ", &d.witness);
            push_optional(&mut s, "\n   = fix: ", &d.fix);
        },
    }
    assert(s@ =~= rendered(*d, *files, fmt));
    s
}

} // verus!
