//! The lexer. Whitespace carries no meaning: there is no offside rule and no
//! column counting. One layout rule survives, and it is not a counting rule:
//! a newline ends a top-level declaration, and only when the line so far is
//! a complete expression and it stands outside every bracketed or
//! `end`-terminated construct. A newline in front of something that cannot
//! begin an expression is a continuation, and is dropped.

use vstd::prelude::*;
use vstd::string::StringSliceAdditionalSpecFns;
use crate::diag::{Diag, Span};
use crate::text::{byte_slice, lemma_ascii_boundary, lemma_ends_are_boundaries, owned, push_char, push_str, trim_end};

verus! {

/// A token. A float literal is kept as it is written, without its
/// underscores: its value is the nearest float to that decimal.
#[derive(Clone, Debug)]
pub enum Tok {
    Int(u64),
    Float(String),
    Str(String),
    Char(char),
    /// lower-case identifier
    Name(String),
    /// upper-case identifier
    Ctor(String),
    Kw(&'static str),
    Sym(&'static str),
    Newline,
    Eof,
}

/// What a token is, with its text as characters.
pub enum TokV {
    Int(int),
    Float(Seq<char>),
    Str(Seq<char>),
    Char(char),
    Name(Seq<char>),
    Ctor(Seq<char>),
    Kw(Seq<char>),
    Sym(Seq<char>),
    Newline,
    Eof,
}

pub open spec fn tok_view(t: Tok) -> TokV {
    match t {
        Tok::Int(n) => TokV::Int(n as int),
        Tok::Float(s) => TokV::Float(s@),
        Tok::Str(s) => TokV::Str(s@),
        Tok::Char(c) => TokV::Char(c),
        Tok::Name(s) => TokV::Name(s@),
        Tok::Ctor(s) => TokV::Ctor(s@),
        Tok::Kw(k) => TokV::Kw(k@),
        Tok::Sym(s) => TokV::Sym(s@),
        Tok::Newline => TokV::Newline,
        Tok::Eof => TokV::Eof,
    }
}

impl View for Tok {
    type V = TokV;

    open spec fn view(&self) -> TokV {
        tok_view(*self)
    }
}

#[derive(Clone, Debug)]
pub struct Token {
    pub tok: Tok,
    pub span: Span,
}

pub open spec fn token_view(t: Token) -> (TokV, Span) {
    (t.tok@, t.span)
}

impl Token {
    pub fn is_sym(&self, s: &str) -> (r: bool)
        ensures
            r == (self.tok@ == TokV::Sym(s@)),
    {
        match &self.tok {
            Tok::Sym(x) => crate::text::str_eq(x, s),
            _ => false,
        }
    }

    pub fn is_kw(&self, s: &str) -> (r: bool)
        ensures
            r == (self.tok@ == TokV::Kw(s@)),
    {
        match &self.tok {
            Tok::Kw(x) => crate::text::str_eq(x, s),
            _ => false,
        }
    }
}

/// A `;;` comment and where it sat. Comments carry no meaning, so they are
/// not tokens, but `vibe view` needs them back to round-trip a file, so they
/// are kept on the side.
#[derive(Clone, Debug)]
pub struct Comment {
    /// How many real tokens precede it. Newlines do not count, so this index
    /// means the same thing in the file and in any re-rendering of it.
    pub after: usize,
    /// The line it starts on, counted from 1.
    pub line: usize,
    /// The column it starts at, counted in bytes from the start of its line.
    pub col: usize,
    /// Nothing but whitespace precedes it on its line.
    pub own_line: bool,
    /// The comment itself, `;;` included, newline and trailing whitespace
    /// excluded.
    pub text: String,
}

pub struct CommentV {
    pub after: int,
    pub line: int,
    pub col: int,
    pub own_line: bool,
    pub text: Seq<char>,
}

pub open spec fn comment_view(c: Comment) -> CommentV {
    CommentV { after: c.after as int, line: c.line as int, col: c.col as int, own_line: c.own_line, text: c.text@ }
}

// ------------------------------------------------------------ bytes

/// The byte at `p`, or 0 past the end.
pub open spec fn byte_at(b: Seq<u8>, p: int) -> u8 {
    if 0 <= p < b.len() {
        b[p]
    } else {
        0
    }
}

pub open spec fn is_digit(x: u8) -> bool {
    48 <= x <= 57
}

pub open spec fn is_alpha(x: u8) -> bool {
    (65 <= x <= 90) || (97 <= x <= 122)
}

pub open spec fn is_word_byte(x: u8) -> bool {
    is_alpha(x) || is_digit(x) || x == 95
}

/// The characters of ASCII bytes.
pub open spec fn ascii_chars(bs: Seq<u8>) -> Seq<char> {
    bs.map_values(|x: u8| x as char)
}

/// The bytes of ASCII characters.
pub open spec fn ascii_bytes(s: Seq<char>) -> Seq<u8> {
    s.map_values(|c: char| c as u8)
}

// ------------------------------------------------------------ token tables

pub open spec fn keywords() -> Seq<Seq<char>> {
    seq![
        "mod"@, "ext"@, "exp"@, "type"@, "ghost"@, "let"@, "in"@, "own"@, "ref"@, "arena"@,
        "with"@, "end"@, "True"@, "False"@,
    ]
}

/// The symbols, longest first: the matcher takes the first that fits.
pub open spec fn symbols() -> Seq<Seq<char>> {
    seq![
        "|>"@, "<-"@, "->"@, "=="@, "!="@, "<="@, ">="@, "&&"@, "||"@, "++"@, "E!"@, ":"@,
        "="@, "?"@, "|"@, "&"@, "%"@, "{"@, "}"@, "["@, "]"@, "("@, ")"@, ","@, "."@,
        "\\"@, "+"@, "-"@, "*"@, "/"@, "<"@, ">"@, "!"@, ";"@,
    ]
}

/// Whether a token can be the last one of an expression.
pub open spec fn ends_expr(t: TokV) -> bool {
    match t {
        TokV::Int(_) | TokV::Float(_) | TokV::Str(_) | TokV::Char(_) | TokV::Name(_) | TokV::Ctor(
            _,
        ) => true,
        TokV::Kw(k) => k == "end"@ || k == "True"@ || k == "False"@,
        TokV::Sym(s) => s == ")"@ || s == "]"@ || s == "}"@,
        _ => false,
    }
}

/// Whether a token can be the first one of an expression. `end` counts, so
/// the newline in front of it survives; `-` counts, because it is also
/// negation.
pub open spec fn starts_expr(t: TokV) -> bool {
    match t {
        TokV::Int(_) | TokV::Float(_) | TokV::Str(_) | TokV::Char(_) | TokV::Name(_) | TokV::Ctor(
            _,
        ) => true,
        TokV::Kw(k) => !(k == "in"@ || k == "with"@),
        TokV::Sym(s) => s == "("@ || s == "["@ || s == "{"@ || s == "?"@ || s == "\\"@ || s == "&"@
            || s == "!"@ || s == "-"@,
        TokV::Eof => true,
        TokV::Newline => true,
    }
}

/// How a token changes the nesting depth. `?` opens a match, closed by
/// `end`.
pub open spec fn nesting(t: TokV) -> int {
    match t {
        TokV::Sym(s) => if s == "("@ || s == "["@ || s == "{"@ || s == "?"@ {
            1
        } else if s == ")"@ || s == "]"@ || s == "}"@ {
            -1
        } else {
            0
        },
        TokV::Kw(k) => if k == "end"@ {
            -1
        } else {
            0
        },
        _ => 0,
    }
}

// ------------------------------------------------------------ single tokens

/// What reading one token gives: the token and where it ends, or a failure
/// with the span it blames (from `at` to `to`) and its code and message.
pub enum Scan {
    Read(TokV, int),
    Fail(int, int, Seq<char>, Seq<char>),
}

/// The end of the run of digits and underscores from `p`.
pub open spec fn digits_end(b: Seq<u8>, p: int) -> int
    decreases b.len() - p,
{
    if 0 <= p < b.len() && (is_digit(b[p]) || b[p] == 95) {
        digits_end(b, p + 1)
    } else {
        p
    }
}

/// The characters of a numeral, its underscores dropped.
pub open spec fn numeral(bs: Seq<u8>) -> Seq<char>
    decreases bs.len(),
{
    if bs.len() == 0 {
        Seq::empty()
    } else {
        numeral(bs.drop_last()) + if bs.last() == 95 {
            Seq::<char>::empty()
        } else {
            seq![bs.last() as char]
        }
    }
}

/// The value of a run of digits and underscores, the underscores skipped.
pub open spec fn bytes_value(bs: Seq<u8>) -> nat
    decreases bs.len(),
{
    if bs.len() == 0 {
        0
    } else if bs.last() == 95 {
        bytes_value(bs.drop_last())
    } else {
        bytes_value(bs.drop_last()) * 10 + (bs.last() - 48) as nat
    }
}

/// A number: digits (and underscores), then a fraction when a `.` is
/// followed by a digit. An integer must fit in 64 unsigned bits.
pub open spec fn number_scan(b: Seq<u8>, p: int) -> Scan {
    let e = digits_end(b, p);
    if byte_at(b, e) == 46 && is_digit(byte_at(b, e + 1)) {
        let f = digits_end(b, e + 1);
        Scan::Read(TokV::Float(numeral(b.subrange(p, f))), f)
    } else {
        let v = bytes_value(b.subrange(p, e));
        if v <= u64::MAX {
            Scan::Read(TokV::Int(v as int), e)
        } else {
            Scan::Fail(p, e, "lex.int"@, "integer literal does not fit in 64 bits"@)
        }
    }
}

/// The character an escape stands for, by the byte after the backslash.
pub open spec fn escape_char(c: u8) -> Option<char> {
    if c == 110 {
        Some('\n')
    } else if c == 116 {
        Some('\t')
    } else if c == 114 {
        Some('\r')
    } else if c == 48 {
        Some('\0')
    } else if c == 92 {
        Some('\\')
    } else if c == 34 {
        Some('"')
    } else if c == 39 {
        Some('\'')
    } else {
        None
    }
}

proof fn lemma_string_scan_reads_str(b: Seq<u8>, start: int, p: int, acc: Seq<char>)
    ensures
        string_scan(b, start, p, acc) matches Scan::Read(t, _) ==> t is Str,
    decreases b.len() - p,
{
    if 0 <= p < b.len() {
        let c = b[p];
        if c != 34 && c == 92 {
            if let Some(ch) = escape_char(byte_at(b, p + 1)) {
                if p + 1 < b.len() {
                    lemma_string_scan_reads_str(b, start, p + 2, acc.push(ch));
                }
            }
        } else if c != 34 && !(c == 0 || c == 10) {
            lemma_string_scan_reads_str(b, start, p + 1, acc.push(c as char));
        }
    }
}

/// A token is never a newline: newlines are made by the layout rule alone.
proof fn lemma_scan_reads_no_newline(b: Seq<u8>, p: int)
    ensures
        token_scan(b, p) matches Scan::Read(t, _) ==> !(t is Newline),
{
    lemma_string_scan_reads_str(b, p, p + 1, Seq::empty());
}

/// The failure of an escape at `p` whose second byte is `c`.
pub open spec fn bad_escape(p: int, c: u8) -> Scan {
    Scan::Fail(p, p + 2, "lex.escape"@, "unknown escape `\\"@ + seq![c as char] + "`"@)
}

/// The rest of a string literal opened at `start`, from `p`, after the
/// characters `acc`. Each byte stands for the character of its value.
pub open spec fn string_scan(b: Seq<u8>, start: int, p: int, acc: Seq<char>) -> Scan
    decreases b.len() - p,
{
    if p < 0 || p >= b.len() {
        Scan::Fail(start, p, "lex.string"@, "unterminated string"@)
    } else {
        let c = b[p];
        if c == 34 {
            Scan::Read(TokV::Str(acc), p + 1)
        } else if c == 92 {
            match escape_char(byte_at(b, p + 1)) {
                Some(ch) => if p + 1 < b.len() {
                    string_scan(b, start, p + 2, acc.push(ch))
                } else {
                    bad_escape(p, byte_at(b, p + 1))
                },
                None => bad_escape(p, byte_at(b, p + 1)),
            }
        } else if c == 0 || c == 10 {
            Scan::Fail(start, p, "lex.string"@, "unterminated string"@)
        } else {
            string_scan(b, start, p + 1, acc.push(c as char))
        }
    }
}

/// A character literal at `p`: one character or one escape, then `'`.
pub open spec fn char_scan(b: Seq<u8>, p: int) -> Scan {
    let q = p + 1;
    if byte_at(b, q) == 92 {
        match escape_char(byte_at(b, q + 1)) {
            Some(ch) => if byte_at(b, q + 2) != 39 {
                Scan::Fail(p, q + 2, "lex.char"@, "unterminated character literal"@)
            } else {
                Scan::Read(TokV::Char(ch), q + 3)
            },
            None => bad_escape(q, byte_at(b, q + 1)),
        }
    } else if byte_at(b, q + 1) != 39 {
        Scan::Fail(p, q + 1, "lex.char"@, "unterminated character literal"@)
    } else {
        Scan::Read(TokV::Char(byte_at(b, q) as char), q + 2)
    }
}

/// The end of the run of word bytes from `p`.
pub open spec fn word_end(b: Seq<u8>, p: int) -> int
    decreases b.len() - p,
{
    if 0 <= p < b.len() && is_word_byte(b[p]) {
        word_end(b, p + 1)
    } else {
        p
    }
}

/// A word: `E!` the effect marker, a keyword, a constructor (upper-case
/// first) or a name.
pub open spec fn word_scan(b: Seq<u8>, p: int) -> Scan {
    let e = word_end(b, p);
    let t = ascii_chars(b.subrange(p, e));
    if t == "E"@ && byte_at(b, e) == 33 {
        Scan::Read(TokV::Sym("E!"@), e + 1)
    } else if keywords().contains(t) {
        Scan::Read(TokV::Kw(t), e)
    } else if 65 <= byte_at(b, p) <= 90 {
        Scan::Read(TokV::Ctor(t), e)
    } else {
        Scan::Read(TokV::Name(t), e)
    }
}

/// The first symbol, from the `k`-th on, that the bytes at `p` spell.
pub open spec fn first_symbol(b: Seq<u8>, p: int, k: int) -> Option<Seq<char>>
    decreases symbols().len() - k,
{
    if k < 0 || k >= symbols().len() {
        None
    } else {
        let s = symbols()[k];
        if 0 <= p && p + s.len() <= b.len() && b.subrange(p, p + s.len()) == ascii_bytes(s) {
            Some(s)
        } else {
            first_symbol(b, p, k + 1)
        }
    }
}

pub open spec fn symbol_scan(b: Seq<u8>, p: int) -> Scan {
    match first_symbol(b, p, 0) {
        Some(s) => Scan::Read(TokV::Sym(s), p + s.len()),
        None => Scan::Fail(p, p + 1, "lex.char"@, "unexpected character `"@ + seq![byte_at(b, p) as char] + "`"@),
    }
}

/// The token that starts at `p`, by its first byte.
pub open spec fn token_scan(b: Seq<u8>, p: int) -> Scan {
    let c = byte_at(b, p);
    if is_digit(c) {
        number_scan(b, p)
    } else if c == 34 {
        string_scan(b, p, p + 1, Seq::empty())
    } else if c == 39 {
        char_scan(b, p)
    } else if is_alpha(c) || c == 95 {
        word_scan(b, p)
    } else {
        symbol_scan(b, p)
    }
}

// ------------------------------------------------------------ the whole file

/// Where the line holding `p` ends: the next newline, or the end.
pub open spec fn line_end(b: Seq<u8>, p: int) -> int
    decreases b.len() - p,
{
    if p < 0 || p >= b.len() || b[p] == 10 {
        p
    } else {
        line_end(b, p + 1)
    }
}

/// Bytes `u8::is_ascii_whitespace` accepts.
pub open spec fn ascii_ws(x: u8) -> bool {
    x == 32 || x == 9 || x == 10 || x == 12 || x == 13
}

/// How many tokens are not newlines.
pub open spec fn real_count(toks: Seq<(TokV, Span)>) -> int
    decreases toks.len(),
{
    if toks.len() == 0 {
        0
    } else {
        real_count(toks.drop_last()) + if toks.last().0 is Newline {
            0int
        } else {
            1int
        }
    }
}

/// Where the lexer stands: at `pos`, on line `line` which starts at
/// `line_start`, `depth` brackets deep, with the tokens and comments read so
/// far.
pub struct LexV {
    pub pos: int,
    pub line: int,
    pub line_start: int,
    pub depth: int,
    pub toks: Seq<(TokV, Span)>,
    pub comments: Seq<CommentV>,
}

/// The span from `start` to the lexer's position, on its line.
pub open spec fn span_from(file: usize, st: LexV, start: int, end: int) -> Span {
    Span {
        file,
        line: st.line as usize,
        col: (start - st.line_start) as usize,
        len: (end - start) as usize,
    }
}

/// A lexical error: where, and what.
pub struct LexErr {
    pub span: Span,
    pub code: Seq<char>,
    pub msg: Seq<char>,
}

/// The state once the file has ended: the end-of-file token added.
pub open spec fn at_end(file: usize, st: LexV) -> LexV {
    LexV { toks: st.toks.push((TokV::Eof, span_from(file, st, st.pos, st.pos))), ..st }
}

/// Reads the rest of the file, one step at a time: horizontal whitespace is
/// skipped, a `;;` comment is set aside, a newline is kept only where it can
/// end a declaration, and anything else is a token.
pub open spec fn lex_from(b: Seq<u8>, file: usize, st: LexV) -> Result<LexV, LexErr>
    decreases b.len() - st.pos,
{
    let p = st.pos;
    let c = byte_at(b, p);
    if p < 0 || p >= b.len() {
        Ok(at_end(file, st))
    } else if c == 32 || c == 9 || c == 13 {
        lex_from(b, file, LexV { pos: p + 1, ..st })
    } else if c == 59 && byte_at(b, p + 1) == 59 {
        let e = line_end(b, p);
        let cm = CommentV {
            after: real_count(st.toks),
            line: st.line,
            col: p - st.line_start,
            own_line: forall|i: int| st.line_start <= i < p ==> ascii_ws(#[trigger] b[i]),
            text: trim_end(vstd::utf8::decode_utf8(b.subrange(p, e))),
        };
        if p < e <= b.len() {
            lex_from(b, file, LexV { pos: e, comments: st.comments.push(cm), ..st })
        } else {
            Ok(at_end(file, st))
        }
    } else if c == 10 {
        let ends = st.toks.len() > 0 && ends_expr(st.toks.last().0);
        let toks = if st.depth == 0 && ends {
            st.toks.push((TokV::Newline, span_from(file, st, p, p)))
        } else {
            st.toks
        };
        lex_from(b, file, LexV { pos: p + 1, line: st.line + 1, line_start: p + 1, toks, ..st })
    } else {
        match token_scan(b, p) {
            Scan::Read(t, e) => if p < e <= b.len() {
                let d = st.depth + nesting(t);
                lex_from(
                    b,
                    file,
                    LexV {
                        pos: e,
                        depth: if d > 0 { d } else { 0 },
                        toks: st.toks.push((t, span_from(file, st, p, e))),
                        ..st
                    },
                )
            } else {
                Ok(at_end(file, st))
            },
            Scan::Fail(a, z, code, msg) => Err(
                LexErr { span: span_from(file, st, a, z), code, msg },
            ),
        }
    }
}

/// Whether the token at `i` stays: a newline stays only when what follows
/// it can begin an expression; with one token of lookahead, any other
/// newline was never a separator.
pub open spec fn stays(toks: Seq<(TokV, Span)>, i: int) -> bool {
    !(toks[i].0 is Newline && !(i + 1 < toks.len() && starts_expr(toks[i + 1].0)))
}

/// The tokens from `i` on that stay.
pub open spec fn kept_from(toks: Seq<(TokV, Span)>, i: int) -> Seq<(TokV, Span)>
    decreases toks.len() - i,
{
    if i < 0 || i >= toks.len() {
        Seq::empty()
    } else {
        (if stays(toks, i) {
            seq![toks[i]]
        } else {
            Seq::empty()
        }) + kept_from(toks, i + 1)
    }
}

pub open spec fn kept(toks: Seq<(TokV, Span)>) -> Seq<(TokV, Span)> {
    kept_from(toks, 0)
}

/// A lexed file ends with the end-of-file token.
pub proof fn lemma_lexed_ends(src: Seq<u8>, file: usize)
    ensures
        lexed(src, file) matches Ok((ts, _)) ==> ts.len() > 0 && ts.last().0 is Eof,
{
    lemma_lex_from_ends(src, file, start_state());
    match lex_from(src, file, start_state()) {
        Ok(st) => lemma_kept_ends(st.toks, 0),
        Err(_) => {},
    }
}

proof fn lemma_lex_from_ends(b: Seq<u8>, file: usize, st: LexV)
    ensures
        lex_from(b, file, st) matches Ok(r) ==> r.toks.len() > 0 && r.toks.last().0 is Eof,
    decreases b.len() - st.pos,
{
    let p = st.pos;
    let c = byte_at(b, p);
    if p < 0 || p >= b.len() {
    } else if c == 32 || c == 9 || c == 13 {
        lemma_lex_from_ends(b, file, LexV { pos: p + 1, ..st });
    } else if c == 59 && byte_at(b, p + 1) == 59 {
        let e = line_end(b, p);
        if p < e <= b.len() {
            let cm = CommentV {
                after: real_count(st.toks),
                line: st.line,
                col: p - st.line_start,
                own_line: forall|i: int| st.line_start <= i < p ==> ascii_ws(#[trigger] b[i]),
                text: trim_end(vstd::utf8::decode_utf8(b.subrange(p, e))),
            };
            lemma_lex_from_ends(b, file, LexV { pos: e, comments: st.comments.push(cm), ..st });
        }
    } else if c == 10 {
        let ends = st.toks.len() > 0 && ends_expr(st.toks.last().0);
        let toks = if st.depth == 0 && ends {
            st.toks.push((TokV::Newline, span_from(file, st, p, p)))
        } else {
            st.toks
        };
        lemma_lex_from_ends(b, file, LexV { pos: p + 1, line: st.line + 1, line_start: p + 1, toks, ..st });
    } else {
        match token_scan(b, p) {
            Scan::Read(t, e) => if p < e <= b.len() {
                let d = st.depth + nesting(t);
                lemma_lex_from_ends(
                    b,
                    file,
                    LexV {
                        pos: e,
                        depth: if d > 0 { d } else { 0 },
                        toks: st.toks.push((t, span_from(file, st, p, e))),
                        ..st
                    },
                );
            },
            Scan::Fail(..) => {},
        }
    }
}

proof fn lemma_kept_ends(toks: Seq<(TokV, Span)>, i: int)
    requires
        0 <= i < toks.len(),
        toks.last().0 is Eof,
    ensures
        kept_from(toks, i).len() > 0,
        kept_from(toks, i).last() == toks.last(),
    decreases toks.len() - i,
{
    if i + 1 < toks.len() {
        lemma_kept_ends(toks, i + 1);
    } else {
        assert(kept_from(toks, i + 1) =~= Seq::empty());
        assert(stays(toks, i));
    }
}

pub open spec fn start_state() -> LexV {
    LexV { pos: 0, line: 1, line_start: 0, depth: 0, toks: Seq::empty(), comments: Seq::empty() }
}

/// The tokens and comments of a source, or the first lexical error.
pub open spec fn lexed(src: Seq<u8>, file: usize) -> Result<(Seq<(TokV, Span)>, Seq<CommentV>), LexErr> {
    match lex_from(src, file, start_state()) {
        Ok(st) => Ok((kept(st.toks), st.comments)),
        Err(e) => Err(e),
    }
}

// ------------------------------------------------------------ executable tables

fn symbol_list() -> (r: Vec<&'static str>)
    ensures
        r@.map_values(|x: &str| x@) == symbols(),
        forall|k: int| 0 <= k < symbols().len() ==> #[trigger] symbols()[k].len() > 0,
{
    proof {
        reveal_strlit("|>");
        reveal_strlit("<-");
        reveal_strlit("->");
        reveal_strlit("==");
        reveal_strlit("!=");
        reveal_strlit("<=");
        reveal_strlit(">=");
        reveal_strlit("&&");
        reveal_strlit("||");
        reveal_strlit("++");
        reveal_strlit("E!");
        reveal_strlit(":");
        reveal_strlit("=");
        reveal_strlit("?");
        reveal_strlit("|");
        reveal_strlit("&");
        reveal_strlit("%");
        reveal_strlit("{");
        reveal_strlit("}");
        reveal_strlit("[");
        reveal_strlit("]");
        reveal_strlit("(");
        reveal_strlit(")");
        reveal_strlit(",");
        reveal_strlit(".");
        reveal_strlit("\\");
        reveal_strlit("+");
        reveal_strlit("-");
        reveal_strlit("*");
        reveal_strlit("/");
        reveal_strlit("<");
        reveal_strlit(">");
        reveal_strlit("!");
        reveal_strlit(";");
    }
    let mut v: Vec<&'static str> = Vec::new();
    v.push("|>");
    v.push("<-");
    v.push("->");
    v.push("==");
    v.push("!=");
    v.push("<=");
    v.push(">=");
    v.push("&&");
    v.push("||");
    v.push("++");
    v.push("E!");
    v.push(":");
    v.push("=");
    v.push("?");
    v.push("|");
    v.push("&");
    v.push("%");
    v.push("{");
    v.push("}");
    v.push("[");
    v.push("]");
    v.push("(");
    v.push(")");
    v.push(",");
    v.push(".");
    v.push("\\");
    v.push("+");
    v.push("-");
    v.push("*");
    v.push("/");
    v.push("<");
    v.push(">");
    v.push("!");
    v.push(";");
    assert(v@.map_values(|x: &str| x@) =~= symbols());
    v
}

fn keyword_list() -> (r: Vec<&'static str>)
    ensures
        r@.map_values(|x: &str| x@) == keywords(),
{
    let mut v: Vec<&'static str> = Vec::new();
    v.push("mod");
    v.push("ext");
    v.push("exp");
    v.push("type");
    v.push("ghost");
    v.push("let");
    v.push("in");
    v.push("own");
    v.push("ref");
    v.push("arena");
    v.push("with");
    v.push("end");
    v.push("True");
    v.push("False");
    assert(v@.map_values(|x: &str| x@) =~= keywords());
    v
}

fn tok_ends_expr(t: &Tok) -> (r: bool)
    ensures
        r == ends_expr(t@),
{
    match t {
        Tok::Int(_) | Tok::Float(_) | Tok::Str(_) | Tok::Char(_) | Tok::Name(_) | Tok::Ctor(_) => true,
        Tok::Kw(k) => crate::text::str_eq(k, "end") || crate::text::str_eq(k, "True") || crate::text::str_eq(k, "False"),
        Tok::Sym(x) => crate::text::str_eq(x, ")") || crate::text::str_eq(x, "]") || crate::text::str_eq(x, "}"),
        _ => false,
    }
}

fn tok_starts_expr(t: &Tok) -> (r: bool)
    ensures
        r == starts_expr(t@),
{
    match t {
        Tok::Int(_) | Tok::Float(_) | Tok::Str(_) | Tok::Char(_) | Tok::Name(_) | Tok::Ctor(_) => true,
        Tok::Kw(k) => !(crate::text::str_eq(k, "in") || crate::text::str_eq(k, "with")),
        Tok::Sym(x) => crate::text::str_eq(x, "(") || crate::text::str_eq(x, "[") || crate::text::str_eq(x, "{")
            || crate::text::str_eq(x, "?") || crate::text::str_eq(x, "\\") || crate::text::str_eq(x, "&")
            || crate::text::str_eq(x, "!") || crate::text::str_eq(x, "-"),
        Tok::Eof => true,
        Tok::Newline => true,
    }
}

/// The new depth after a token: never below zero.
fn deeper(depth: usize, t: &Tok) -> (r: usize)
    requires
        depth < usize::MAX,
    ensures
        r as int == (if depth + nesting(t@) > 0 { depth + nesting(t@) } else { 0 }),
{
    let opens = match t {
        Tok::Sym(x) => crate::text::str_eq(x, "(") || crate::text::str_eq(x, "[") || crate::text::str_eq(x, "{") || crate::text::str_eq(x, "?"),
        _ => false,
    };
    let closes = match t {
        Tok::Sym(x) => crate::text::str_eq(x, ")") || crate::text::str_eq(x, "]") || crate::text::str_eq(x, "}"),
        Tok::Kw(k) => crate::text::str_eq(k, "end"),
        _ => false,
    };
    if opens {
        depth + 1
    } else if closes {
        if depth > 0 {
            depth - 1
        } else {
            0
        }
    } else {
        depth
    }
}

fn copy_tok(t: &Tok) -> (r: Tok)
    ensures
        r@ == t@,
{
    match t {
        Tok::Int(n) => Tok::Int(*n),
        Tok::Float(x) => Tok::Float(x.clone()),
        Tok::Str(x) => Tok::Str(x.clone()),
        Tok::Char(c) => Tok::Char(*c),
        Tok::Name(x) => Tok::Name(x.clone()),
        Tok::Ctor(x) => Tok::Ctor(x.clone()),
        Tok::Kw(k) => Tok::Kw(*k),
        Tok::Sym(x) => Tok::Sym(*x),
        Tok::Newline => Tok::Newline,
        Tok::Eof => Tok::Eof,
    }
}

// ------------------------------------------------------------ the lexer

pub struct Lexer<'a> {
    text: &'a str,
    src: &'a [u8],
    file: usize,
    pos: usize,
    line: usize,
    line_start: usize,
    comments: Vec<Comment>,
}

/// A diagnostic that is exactly the lexical failure from `a` to `z` on the
/// line that starts at `line_start`.
pub open spec fn fails_as(
    d: Diag,
    file: usize,
    line: usize,
    line_start: usize,
    a: int,
    z: int,
    code: Seq<char>,
    msg: Seq<char>,
) -> bool {
    &&& d.span == Span { file, line, col: (a - line_start) as usize, len: (z - a) as usize }
    &&& d.code@ == code
    &&& d.msg@ == msg
    &&& d.path is None
    &&& d.witness is None
    &&& d.fix is None
}

/// What a scanning step gave agrees with the scan: the token and its end,
/// or the failure.
pub open spec fn outcome(
    sc: Scan,
    r: Result<Tok, Diag>,
    end: int,
    file: usize,
    line: usize,
    line_start: usize,
) -> bool {
    match sc {
        Scan::Read(t, e) => r matches Ok(tok) && tok@ == t && end == e,
        Scan::Fail(a, z, code, msg) => r matches Err(d) && fails_as(d, file, line, line_start, a, z, code, msg),
    }
}

proof fn lemma_bytes_value_grows(bs: Seq<u8>, k: int)
    requires
        0 <= k <= bs.len(),
        forall|i: int| 0 <= i < bs.len() ==> is_digit(#[trigger] bs[i]) || bs[i] == 95,
    ensures
        bytes_value(bs.take(k)) <= bytes_value(bs),
    decreases bs.len() - k,
{
    if k < bs.len() {
        lemma_bytes_value_grows(bs, k + 1);
        assert(bs.take(k + 1).drop_last() == bs.take(k));
        assert(is_digit(bs[k]) || bs[k] == 95);
    } else {
        assert(bs.take(k) == bs);
    }
}

/// Whether the bytes at `p` spell the ASCII characters `cs`.
fn spells(b: &[u8], p: usize, cs: &[char]) -> (r: bool)
    requires
        p + cs@.len() <= b@.len(),
    ensures
        r == (b@.subrange(p as int, p + cs@.len()) == ascii_bytes(cs@)),
{
    let n = b.len();
    let mut i: usize = 0;
    while i < cs.len()
        invariant
            n == b@.len(),
            p + cs@.len() <= b@.len(),
            i <= cs@.len(),
            forall|j: int| 0 <= j < i ==> b@[p + j] == (cs@[j] as u8),
        decreases cs@.len() - i,
    {
        let c: u8 = #[verifier::truncate] (cs[i] as u8);
        if b[p + i] != c {
            assert(b@.subrange(p as int, p + cs@.len())[i as int] != ascii_bytes(cs@)[i as int]);
            return false;
        }
        i += 1;
    }
    assert(b@.subrange(p as int, p + cs@.len()) =~= ascii_bytes(cs@));
    true
}

/// Everything but the position is as it was.
spec fn frame<'a>(l: Lexer<'a>, l0: Lexer<'a>) -> bool {
    &&& l.src == l0.src
    &&& l.text == l0.text
    &&& l.file == l0.file
    &&& l.line == l0.line
    &&& l.line_start == l0.line_start
    &&& l.comments == l0.comments
}

impl<'a> Lexer<'a> {
    fn span(&self, start: usize) -> (r: Span)
        requires
            self.line_start <= start <= self.pos,
        ensures
            r == (Span {
                file: self.file,
                line: self.line,
                col: (start - self.line_start) as usize,
                len: (self.pos - start) as usize,
            }),
    {
        Span { file: self.file, line: self.line, col: start - self.line_start, len: self.pos - start }
    }

    fn peek(&self) -> (r: u8)
        ensures
            r == byte_at(self.src@, self.pos as int),
    {
        if self.pos < self.src.len() {
            self.src[self.pos]
        } else {
            0
        }
    }

    fn at(&self, off: usize) -> (r: u8)
        requires
            self.pos + off <= usize::MAX,
        ensures
            r == byte_at(self.src@, self.pos + off),
    {
        if self.pos + off < self.src.len() {
            self.src[self.pos + off]
        } else {
            0
        }
    }

    /// The escape at the lexer's position: the character it stands for, with
    /// the lexer two bytes on.
    fn escape(&mut self) -> (r: Result<char, Diag>)
        requires
            old(self).pos + 2 <= usize::MAX,
            old(self).line_start <= old(self).pos,
        ensures
            final(self).pos == old(self).pos + 2,
            final(self).src == old(self).src,
            final(self).text == old(self).text,
            final(self).file == old(self).file,
            final(self).line == old(self).line,
            final(self).line_start == old(self).line_start,
            final(self).comments == old(self).comments,
            match escape_char(byte_at(old(self).src@, old(self).pos + 1)) {
                Some(ch) => r == Ok::<char, Diag>(ch),
                None => r matches Err(d) && bad_escape(old(self).pos as int, byte_at(old(self).src@, old(self).pos + 1))
                    matches Scan::Fail(a, z, code, msg) && fails_as(d, old(self).file, old(self).line, old(self).line_start, a, z, code, msg),
            },
    {
        let start = self.pos;
        self.pos += 1;
        let c = self.peek();
        self.pos += 1;
        if c == 110 {
            Ok('\n')
        } else if c == 116 {
            Ok('\t')
        } else if c == 114 {
            Ok('\r')
        } else if c == 48 {
            Ok('\0')
        } else if c == 92 {
            Ok('\\')
        } else if c == 34 {
            Ok('"')
        } else if c == 39 {
            Ok('\'')
        } else {
            let mut msg = owned("unknown escape `\\");
            push_char(&mut msg, c as char);
            push_str(&mut msg, "`");
            assert(msg@ =~= "unknown escape `\\"@ + seq![c as char] + "`"@);
            Err(Diag::error(self.span(start), "lex.escape", msg.as_str()))
        }
    }

    fn number(&mut self) -> (r: Result<Tok, Diag>)
        requires
            old(self).pos < old(self).src@.len() < usize::MAX,
            is_digit(old(self).src@[old(self).pos as int]),
            old(self).line_start <= old(self).pos,
        ensures
            final(self).src == old(self).src,
            final(self).text == old(self).text,
            final(self).file == old(self).file,
            final(self).line == old(self).line,
            final(self).line_start == old(self).line_start,
            final(self).comments == old(self).comments,
            old(self).pos < final(self).pos <= final(self).src@.len(),
            outcome(number_scan(old(self).src@, old(self).pos as int), r, final(self).pos as int, old(self).file, old(self).line, old(self).line_start),
    {
        let ghost b = self.src@;
        let ghost s0 = *self;
        let start = self.pos;
        while self.pos < self.src.len() && (48 <= self.src[self.pos] && self.src[self.pos] <= 57 || self.src[self.pos] == 95)
            invariant
                b == self.src@,
                frame(*self, s0),
                s0 == *old(self),
                s0.line_start <= start,
                start <= self.pos <= b.len(),
                digits_end(b, start as int) == digits_end(b, self.pos as int),
                forall|i: int| start <= i < self.pos ==> is_digit(#[trigger] b[i]) || b[i] == 95,
            decreases b.len() - self.pos,
        {
            self.pos += 1;
        }
        let e = self.pos;
        let mut is_float = false;
        if self.peek() == 46 && 48 <= self.at(1) && self.at(1) <= 57 {
            is_float = true;
            self.pos += 1;
            while self.pos < self.src.len() && (48 <= self.src[self.pos] && self.src[self.pos] <= 57 || self.src[self.pos] == 95)
                invariant
                    b == self.src@,
                    frame(*self, s0),
                    s0 == *old(self),
                s0 == *old(self),
                    s0.line_start <= start < e + 1,
                    e + 1 <= self.pos <= b.len(),
                    digits_end(b, e + 1) == digits_end(b, self.pos as int),
                decreases b.len() - self.pos,
            {
                self.pos += 1;
            }
        }
        if is_float {
            let mut text = String::new();
            for k in start..self.pos
                invariant
                    b == self.src@,
                    frame(*self, s0),
                    s0 == *old(self),
                s0 == *old(self),
                    start <= self.pos <= b.len(),
                    text@ == numeral(b.subrange(start as int, k as int)),
            {
                assert(b.subrange(start as int, k + 1).drop_last() == b.subrange(start as int, k as int));
                let x = self.src[k];
                if x != 95 {
                    push_char(&mut text, x as char);
                }
            }
            return Ok(Tok::Float(text));
        }
        let mut v: u64 = 0;
        let ghost seg = b.subrange(start as int, e as int);
        for k in start..e
            invariant
                b == self.src@,
                frame(*self, s0),
                s0 == *old(self),
                s0.line_start <= start < e,
                start == s0.pos,
                e == self.pos,
                e == digits_end(b, start as int),
                !(byte_at(b, e as int) == 46 && is_digit(byte_at(b, e + 1))),
                e <= b.len(),
                seg == b.subrange(start as int, e as int),
                forall|i: int| start <= i < e ==> is_digit(#[trigger] b[i]) || b[i] == 95,
                v as int == bytes_value(b.subrange(start as int, k as int)),
                v <= u64::MAX,
        {
            let ghost sub = b.subrange(start as int, k + 1);
            assert(sub.drop_last() == b.subrange(start as int, k as int));
            let x = self.src[k];
            if x != 95 {
                let d = (x - 48) as u64;
                if v > (0xffff_ffff_ffff_ffffu64 - d) / 10 {
                    proof {
                        assert(v * 10 + d > u64::MAX) by (nonlinear_arith)
                            requires
                                v > (0xffff_ffff_ffff_ffffu64 - d) / 10,
                                d <= 9,
                        ;
                        assert(seg.take(k + 1 - start) == sub);
                        lemma_bytes_value_grows(seg, k + 1 - start);
                    }
                    return Err(Diag::error(self.span(start), "lex.int", "integer literal does not fit in 64 bits"));
                }
                assert(v * 10 + d <= u64::MAX) by (nonlinear_arith)
                    requires
                        v <= (0xffff_ffff_ffff_ffffu64 - d) / 10,
                        d <= 9,
                ;
                v = v * 10 + d;
            }
        }
        Ok(Tok::Int(v))
    }

    fn string(&mut self) -> (r: Result<Tok, Diag>)
        requires
            old(self).pos < old(self).src@.len() < usize::MAX,
            old(self).src@[old(self).pos as int] == 34,
            old(self).line_start <= old(self).pos,
        ensures
            frame(*final(self), *old(self)),
            r is Ok ==> old(self).pos < final(self).pos <= final(self).src@.len(),
            outcome(
                string_scan(old(self).src@, old(self).pos as int, old(self).pos + 1, Seq::empty()),
                r,
                final(self).pos as int,
                old(self).file,
                old(self).line,
                old(self).line_start,
            ),
    {
        let ghost b = self.src@;
        let ghost s0 = *self;
        let start = self.pos;
        self.pos += 1;
        let mut s = String::new();
        loop
            invariant
                b == self.src@,
                b.len() < usize::MAX,
                frame(*self, s0),
                s0 == *old(self),
                start == s0.pos,
                s0.line_start <= start < self.pos <= b.len(),
                string_scan(b, start as int, self.pos as int, s@) == string_scan(b, start as int, start + 1, Seq::empty()),
            decreases b.len() - self.pos,
        {
            let c = self.peek();
            if c == 34 {
                self.pos += 1;
                return Ok(Tok::Str(s));
            } else if c == 92 {
                let ghost p = self.pos;
                match self.escape() {
                    Ok(ch) => {
                        push_char(&mut s, ch);
                    },
                    Err(d) => {
                        return Err(d);
                    },
                }
                assert(p + 1 < b.len());
            } else if c == 0 || c == 10 {
                return Err(Diag::error(self.span(start), "lex.string", "unterminated string"));
            } else {
                push_char(&mut s, c as char);
                self.pos += 1;
            }
        }
    }

    fn character(&mut self) -> (r: Result<Tok, Diag>)
        requires
            old(self).pos < old(self).src@.len() < usize::MAX,
            old(self).src@[old(self).pos as int] == 39,
            old(self).line_start <= old(self).pos,
        ensures
            frame(*final(self), *old(self)),
            r is Ok ==> old(self).pos < final(self).pos <= final(self).src@.len(),
            outcome(char_scan(old(self).src@, old(self).pos as int), r, final(self).pos as int, old(self).file, old(self).line, old(self).line_start),
    {
        let start = self.pos;
        self.pos += 1;
        let c = if self.peek() == 92 {
            match self.escape() {
                Ok(ch) => ch,
                Err(d) => {
                    return Err(d);
                },
            }
        } else {
            let c = self.peek() as char;
            self.pos += 1;
            c
        };
        if self.peek() != 39 {
            return Err(Diag::error(self.span(start), "lex.char", "unterminated character literal"));
        }
        self.pos += 1;
        Ok(Tok::Char(c))
    }

    fn word(&mut self) -> (r: Result<Tok, Diag>)
        requires
            old(self).pos < old(self).src@.len() < usize::MAX,
            is_alpha(old(self).src@[old(self).pos as int]) || old(self).src@[old(self).pos as int] == 95,
            old(self).line_start <= old(self).pos,
        ensures
            frame(*final(self), *old(self)),
            old(self).pos < final(self).pos <= final(self).src@.len(),
            outcome(word_scan(old(self).src@, old(self).pos as int), r, final(self).pos as int, old(self).file, old(self).line, old(self).line_start),
    {
        let ghost b = self.src@;
        let ghost s0 = *self;
        let start = self.pos;
        while self.pos < self.src.len() && (65 <= self.src[self.pos] && self.src[self.pos] <= 90
            || 97 <= self.src[self.pos] && self.src[self.pos] <= 122 || 48 <= self.src[self.pos]
            && self.src[self.pos] <= 57 || self.src[self.pos] == 95)
            invariant
                b == self.src@,
                frame(*self, s0),
                s0 == *old(self),
                start == s0.pos,
                start <= self.pos <= b.len() < usize::MAX,
                word_end(b, start as int) == word_end(b, self.pos as int),
            decreases b.len() - self.pos,
        {
            self.pos += 1;
        }
        let e = self.pos;
        let mut text = String::new();
        for k in start..e
            invariant
                b == self.src@,
                frame(*self, s0),
                s0 == *old(self),
                start == s0.pos,
                e == self.pos,
                start < e <= b.len(),
                text@ == ascii_chars(b.subrange(start as int, k as int)),
        {
            push_char(&mut text, self.src[k] as char);
            assert(text@ =~= ascii_chars(b.subrange(start as int, k + 1)));
        }
        proof {
            reveal_strlit("E");
        }
        if e - start == 1 && self.src[start] == 69 && self.peek() == 33 {
            assert(text@ =~= "E"@);
            self.pos += 1;
            return Ok(Tok::Sym("E!"));
        }
        assert(text@ == "E"@ ==> e - start == 1 && b[start as int] == 69) by {
            if text@ == "E"@ {
                assert(text@[0] == 'E');
            }
        }
        let kws = keyword_list();
        let ghost kv = kws@.map_values(|x: &str| x@);
        for k in 0..kws.len()
            invariant
                kv == kws@.map_values(|x: &str| x@),
                kv == keywords(),
                forall|j: int| 0 <= j < k ==> kv[j] != text@,
                b == self.src@,
                frame(*self, s0),
                s0 == *old(self),
                start == s0.pos,
                start < self.pos <= b.len(),
                self.pos == e,
                e == word_end(b, start as int),
                text@ == ascii_chars(b.subrange(start as int, e as int)),
                !(text@ == "E"@ && byte_at(b, e as int) == 33),
        {
            if crate::text::str_eq(kws[k], text.as_str()) {
                assert(kv[k as int] == text@);
                assert(kws@[k as int]@ == kv[k as int]);
                assert(keywords()[k as int] == text@);
                assert(self.pos > s0.pos);
                return Ok(Tok::Kw(kws[k]));
            }
        }
        assert(!keywords().contains(text@));
        if 65 <= self.src[start] && self.src[start] <= 90 {
            Ok(Tok::Ctor(text))
        } else {
            Ok(Tok::Name(text))
        }
    }

    /// The lexer's state, as the specification reads it.
    spec fn state(&self, depth: usize, out: Seq<Token>) -> LexV {
        LexV {
            pos: self.pos as int,
            line: self.line as int,
            line_start: self.line_start as int,
            depth: depth as int,
            toks: out.map_values(|t: Token| token_view(t)),
            comments: self.comments@.map_values(|c: Comment| comment_view(c)),
        }
    }

    /// The comment that starts at the lexer's position.
    fn comment(&mut self, count: usize) -> (r: Comment)
        requires
            old(self).pos < old(self).src@.len() < usize::MAX,
            old(self).src@ == old(self).text.spec_bytes(),
            old(self).src@[old(self).pos as int] == 59,
            old(self).line_start <= old(self).pos,
        ensures
            frame(*final(self), *old(self)),
            final(self).pos == line_end(old(self).src@, old(self).pos as int),
            old(self).pos < final(self).pos <= old(self).src@.len(),
            comment_view(r) == (CommentV {
                after: count as int,
                line: old(self).line as int,
                col: old(self).pos - old(self).line_start,
                own_line: forall|i: int|
                    old(self).line_start <= i < old(self).pos ==> ascii_ws(#[trigger] old(self).src@[i]),
                text: trim_end(
                    vstd::utf8::decode_utf8(
                        old(self).src@.subrange(old(self).pos as int, final(self).pos as int),
                    ),
                ),
            }),
    {
        let ghost b = self.src@;
        let ghost s0 = *self;
        let start = self.pos;
        while self.pos < self.src.len() && self.src[self.pos] != 10
            invariant
                b == self.src@,
                frame(*self, s0),
                s0 == *old(self),
                start == s0.pos,
                start <= self.pos <= b.len(),
                line_end(b, start as int) == line_end(b, self.pos as int),
            decreases b.len() - self.pos,
        {
            self.pos += 1;
        }
        let e = self.pos;
        let mut own = true;
        for i in self.line_start..start
            invariant
                b == self.src@,
                start < b.len(),
                own == forall|j: int| s0.line_start <= j < i ==> ascii_ws(#[trigger] b[j]),
                self.line_start == s0.line_start,
        {
            let x = self.src[i];
            if !(x == 32 || x == 9 || x == 10 || x == 12 || x == 13) {
                own = false;
            }
        }
        proof {
            lemma_ascii_boundary(self.text, start as int);
            lemma_ends_are_boundaries(self.text);
            if e < b.len() {
                lemma_ascii_boundary(self.text, e as int);
            }
        }
        let slice = byte_slice(self.text, start, e);
        proof {
            vstd::utf8::encode_utf8_decode_utf8(slice@);
        }
        let cs = crate::text::chars_of(slice);
        let k = crate::text::trim_end_index(cs.as_slice(), 0, cs.len());
        let text = crate::text::string_of_range(cs.as_slice(), 0, k);
        assert(cs@.subrange(0, cs@.len() as int) == cs@);
        Comment { after: count, line: self.line, col: start - self.line_start, own_line: own, text }
    }

    /// Reads the file from the lexer's position to its end.
    #[verifier::rlimit(60)]
    fn run(&mut self) -> (r: Result<Vec<Token>, Diag>)
        requires
            old(self).src@.len() < usize::MAX,
            old(self).src@ == old(self).text.spec_bytes(),
            old(self).pos == 0,
            old(self).line == 1,
            old(self).line_start == 0,
            old(self).comments@.len() == 0,
        ensures
            final(self).src == old(self).src,
            final(self).file == old(self).file,
            match r {
                Ok(ts) => lex_from(old(self).src@, old(self).file, start_state()) matches Ok(st) && st.toks
                    == ts@.map_values(|t: Token| token_view(t)) && st.comments == final(self).comments@.map_values(
                    |c: Comment| comment_view(c),
                ),
                Err(d) => lex_from(old(self).src@, old(self).file, start_state()) matches Err(e) && d.span
                    == e.span && d.code@ == e.code && d.msg@ == e.msg && d.path is None && d.witness is None
                    && d.fix is None,
            },
    {
        let ghost b = self.src@;
        let ghost file = self.file;
        let ghost s0 = *self;
        let mut out: Vec<Token> = Vec::new();
        let mut depth: usize = 0;
        let mut count: usize = 0;
        assert(self.state(depth, out@) =~= start_state()) by {
            assert(out@.map_values(|t: Token| token_view(t)) =~= Seq::<(TokV, Span)>::empty());
            assert(self.comments@.map_values(|c: Comment| comment_view(c)) =~= Seq::<CommentV>::empty());
        }
        loop
            invariant
                b == self.src@,
                b.len() < usize::MAX,
                b == self.text.spec_bytes(),
                file == self.file,
                s0 == *old(self),
                s0.src == self.src,
                s0.file == self.file,
                self.line_start <= self.pos <= b.len(),
                self.line <= self.pos + 1,
                depth <= self.pos,
                count as int == real_count(out@.map_values(|t: Token| token_view(t))),
                count <= out@.len(),
                out@.len() <= self.pos,
                lex_from(b, file, self.state(depth, out@)) == lex_from(b, file, start_state()),
            decreases b.len() - self.pos,
        {
            let ghost st = self.state(depth, out@);
            let ghost prev = out@;
            let c = self.peek();
            if self.pos >= self.src.len() {
                let sp = self.span(self.pos);
                out.push(Token { tok: Tok::Eof, span: sp });
                assert(out@.map_values(|t: Token| token_view(t)) =~= prev.map_values(|t: Token| token_view(t)).push(
                    (TokV::Eof, sp),
                ));
                return Ok(out);
            }
            if c == 32 || c == 9 || c == 13 {
                self.pos += 1;
                assert(self.state(depth, out@) == LexV { pos: st.pos + 1, ..st });
            } else if c == 59 && self.at(1) == 59 {
                let ghost cs0 = self.comments@;
                let cm = self.comment(count);
                self.comments.push(cm);
                proof {
                    assert(self.comments@.map_values(|c: Comment| comment_view(c)) =~= cs0.map_values(
                        |c: Comment| comment_view(c),
                    ).push(comment_view(cm)));
                }
                assert(self.state(depth, out@) == LexV {
                    pos: line_end(b, st.pos),
                    comments: st.comments.push(comment_view(cm)),
                    ..st
                });
            } else if c == 10 {
                let ends = out.len() > 0 && tok_ends_expr(&out[out.len() - 1].tok);
                assert(ends == (st.toks.len() > 0 && ends_expr(st.toks.last().0)));
                if depth == 0 && ends {
                    let sp = self.span(self.pos);
                    out.push(Token { tok: Tok::Newline, span: sp });
                    assert(out@.map_values(|t: Token| token_view(t)) =~= st.toks.push((TokV::Newline, sp)));
                    assert(out@.map_values(|t: Token| token_view(t)).drop_last() == st.toks);
                }
                self.pos += 1;
                self.line += 1;
                self.line_start = self.pos;
            } else {
                let start = self.pos;
                let r = if 48 <= c && c <= 57 {
                    self.number()
                } else if c == 34 {
                    self.string()
                } else if c == 39 {
                    self.character()
                } else if 65 <= c && c <= 90 || 97 <= c && c <= 122 || c == 95 {
                    self.word()
                } else {
                    self.symbol()
                };
                assert(outcome(token_scan(b, start as int), r, self.pos as int, file, self.line, self.line_start));
                match r {
                    Err(d) => {
                        return Err(d);
                    },
                    Ok(tok) => {
                        let sp = self.span(start);
                        let d2 = deeper(depth, &tok);
                        depth = d2;
                        let ghost t = tok@;
                        assert(!(t is Newline)) by {
                            lemma_scan_reads_no_newline(b, start as int);
                        }
                        count += 1;
                        out.push(Token { tok, span: sp });
                        assert(out@.map_values(|t: Token| token_view(t)) =~= st.toks.push((t, sp)));
                        assert(out@.map_values(|t: Token| token_view(t)).drop_last() == st.toks);
                    },
                }
            }
        }
    }

    fn symbol(&mut self) -> (r: Result<Tok, Diag>)
        requires
            old(self).pos < old(self).src@.len() < usize::MAX,
            old(self).line_start <= old(self).pos,
        ensures
            frame(*final(self), *old(self)),
            r is Ok ==> old(self).pos < final(self).pos <= final(self).src@.len(),
            outcome(symbol_scan(old(self).src@, old(self).pos as int), r, final(self).pos as int, old(self).file, old(self).line, old(self).line_start),
    {
        let ghost b = self.src@;
        let ghost s0 = *self;
        let p = self.pos;
        let syms = symbol_list();
        let ghost sv = syms@.map_values(|x: &str| x@);
        for k in 0..syms.len()
            invariant
                b == self.src@,
                p == self.pos,
                p < b.len() < usize::MAX,
                sv == syms@.map_values(|x: &str| x@),
                sv == symbols(),
                p == s0.pos,
                forall|j: int| 0 <= j < symbols().len() ==> #[trigger] symbols()[j].len() > 0,
                first_symbol(b, p as int, 0) == first_symbol(b, p as int, k as int),
                frame(*self, s0),
                s0 == *old(self),
                s0.line_start <= p,
        {
            let cs = crate::text::chars_of(syms[k]);
            assert(cs@ == sv[k as int]);
            let n = cs.len();
            if n <= self.src.len() - p && spells(self.src, p, cs.as_slice()) {
                assert(first_symbol(b, p as int, k as int) == Some(sv[k as int]));
                assert(sv[k as int].len() > 0);
                assert(syms@[k as int]@ == sv[k as int]);
                self.pos += n;
                return Ok(Tok::Sym(syms[k]));
            }
        }
        let c = self.src[p];
        self.pos += 1;
        let mut msg = owned("unexpected character `");
        push_char(&mut msg, c as char);
        push_str(&mut msg, "`");
        assert(msg@ =~= "unexpected character `"@ + seq![c as char] + "`"@);
        Err(Diag::error(self.span(p), "lex.char", msg.as_str()))
    }
}

fn copy_token(t: &Token) -> (r: Token)
    ensures
        token_view(r) == token_view(*t),
{
    Token { tok: copy_tok(&t.tok), span: t.span }
}

/// The tokens of a source and the comments the lexer set aside, or the first
/// lexical error.
pub fn lex_full(src: &str, file: usize) -> (r: Result<(Vec<Token>, Vec<Comment>), Diag>)
    requires
        src.spec_bytes().len() < usize::MAX,
    ensures
        match r {
            Ok((ts, cs)) => lexed(src.spec_bytes(), file) matches Ok((a, c)) && a == ts@.map_values(
                |t: Token| token_view(t),
            ) && c == cs@.map_values(|x: Comment| comment_view(x)),
            Err(d) => lexed(src.spec_bytes(), file) matches Err(e) && d.span == e.span && d.code@ == e.code
                && d.msg@ == e.msg && d.path is None && d.witness is None && d.fix is None,
        },
{
    let mut l = Lexer {
        text: src,
        src: src.as_bytes(),
        file,
        pos: 0,
        line: 1,
        line_start: 0,
        comments: Vec::new(),
    };
    let toks = match l.run() {
        Ok(t) => t,
        Err(d) => {
            return Err(d);
        },
    };
    let ghost tv = toks@.map_values(|t: Token| token_view(t));
    let mut keep: Vec<Token> = Vec::new();
    for i in 0..toks.len()
        invariant
            tv == toks@.map_values(|t: Token| token_view(t)),
            keep@.map_values(|t: Token| token_view(t)) + kept_from(tv, i as int) == kept_from(tv, 0),
    {
        let ghost prev = keep@;
        let is_nl = match toks[i].tok {
            Tok::Newline => true,
            _ => false,
        };
        let next_starts = i + 1 < toks.len() && tok_starts_expr(&toks[i + 1].tok);
        assert(tv[i as int] == token_view(toks@[i as int]));
        assert(i + 1 < toks@.len() ==> tv[i + 1] == token_view(toks@[i + 1]));
        if !(is_nl && !next_starts) {
            let t = copy_token(&toks[i]);
            keep.push(t);
            assert(keep@.map_values(|t: Token| token_view(t)) =~= prev.map_values(|t: Token| token_view(t)).push(
                tv[i as int],
            ));
        }
        assert(keep@.map_values(|t: Token| token_view(t)) + kept_from(tv, i + 1) =~= kept_from(tv, 0));
    }
    assert(kept_from(tv, toks@.len() as int) == Seq::<(TokV, Span)>::empty());
    assert(keep@.map_values(|t: Token| token_view(t)) =~= kept(tv));
    Ok((keep, l.comments))
}

/// The tokens of a source, or the first lexical error.
pub fn lex(src: &str, file: usize) -> (r: Result<Vec<Token>, Diag>)
    requires
        src.spec_bytes().len() < usize::MAX,
    ensures
        match r {
            Ok(ts) => lexed(src.spec_bytes(), file) matches Ok((a, _)) && a == ts@.map_values(
                |t: Token| token_view(t),
            ),
            Err(d) => lexed(src.spec_bytes(), file) matches Err(e) && d.span == e.span && d.code@ == e.code
                && d.msg@ == e.msg && d.path is None && d.witness is None && d.fix is None,
        },
{
    match lex_full(src, file) {
        Ok((t, _)) => Ok(t),
        Err(d) => Err(d),
    }
}

} // verus!
