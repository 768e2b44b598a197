//! Characters and strings: the handful of operations the rest of the crate
//! builds its output and its scans from, each with what it computes.

use vstd::prelude::*;
use vstd::string::StringSliceAdditionalSpecFns;

verus! {

/// Appends one character to a string (std's `String::push`).
#[verifier::external_body]
pub fn push_char(s: &mut String, c: char)
    ensures
        final(s)@ == old(s)@.push(c),
{
    s.push(c);
}

/// The characters of `s`, in order.
pub fn chars_of(s: &str) -> (r: Vec<char>)
    ensures
        r@ == s@,
{
    let mut v: Vec<char> = Vec::new();
    for c in it: s.chars()
        invariant
            v@ == it.seq().take(it.index() as int),
    {
        v.push(c);
    }
    v
}

/// A string holding exactly the characters `cs`.
pub fn string_of(cs: &[char]) -> (r: String)
    ensures
        r@ == cs@,
{
    let mut r = String::new();
    for i in 0..cs.len()
        invariant
            r@ == cs@.take(i as int),
    {
        push_char(&mut r, cs[i]);
        assert(cs@.take(i + 1) == cs@.take(i as int).push(cs@[i as int]));
    }
    assert(cs@.take(cs@.len() as int) == cs@);
    r
}

/// A string holding the characters `cs[from..to]`.
pub fn string_of_range(cs: &[char], from: usize, to: usize) -> (r: String)
    requires
        from <= to <= cs@.len(),
    ensures
        r@ == cs@.subrange(from as int, to as int),
{
    let mut r = String::new();
    let mut i = from;
    while i < to
        invariant
            from <= i <= to <= cs@.len(),
            r@ == cs@.subrange(from as int, i as int),
        decreases to - i,
    {
        push_char(&mut r, cs[i]);
        assert(cs@.subrange(from as int, i + 1) == cs@.subrange(from as int, i as int).push(cs@[i as int]));
        i += 1;
    }
    r
}

/// A copy of `s`.
pub fn owned(s: &str) -> (r: String)
    ensures
        r@ == s@,
{
    let cs = chars_of(s);
    string_of(cs.as_slice())
}

/// Whether two strings hold the same characters.
pub fn str_eq(a: &str, b: &str) -> (r: bool)
    ensures
        r == (a@ == b@),
{
    let x = chars_of(a);
    let y = chars_of(b);
    if x.len() != y.len() {
        return false;
    }
    for i in 0..x.len()
        invariant
            x@ == a@,
            y@ == b@,
            x@.len() == y@.len(),
            forall|j: int| 0 <= j < i ==> x@[j] == y@[j],
    {
        if x[i] != y[i] {
            return false;
        }
    }
    assert(x@ =~= y@);
    true
}

/// Appends `t` to `s`.
pub fn push_str(s: &mut String, t: &str)
    ensures
        final(s)@ == old(s)@ + t@,
{
    s.append(t);
}

/// `n` copies of `c`.
pub open spec fn repeat(c: char, n: nat) -> Seq<char> {
    Seq::new(n, |i: int| c)
}

/// Appends `n` copies of `c` to `s`.
pub fn push_repeat(s: &mut String, c: char, n: usize)
    ensures
        final(s)@ == old(s)@ + repeat(c, n as nat),
{
    let mut i: usize = 0;
    while i < n
        invariant
            i <= n,
            s@ == old(s)@ + repeat(c, i as nat),
        decreases n - i,
    {
        push_char(s, c);
        assert(repeat(c, (i + 1) as nat) == repeat(c, i as nat).push(c));
        i += 1;
    }
}

/// The character of a decimal digit.
pub open spec fn digit(d: nat) -> char {
    ((d + 48) as u8) as char
}

/// The character of a lower-case hexadecimal digit.
pub open spec fn hex_digit(d: nat) -> char {
    if d < 10 {
        digit(d)
    } else {
        ((d + 87) as u8) as char
    }
}

/// The decimal spelling of a natural number, most significant digit first.
pub open spec fn decimal(n: nat) -> Seq<char>
    decreases n,
{
    if n < 10 {
        seq![digit(n)]
    } else {
        decimal(n / 10).push(digit(n % 10))
    }
}

/// The decimal spelling of an integer, with a leading `-` when it is negative.
pub open spec fn signed_decimal(n: int) -> Seq<char> {
    if n < 0 {
        seq!['-'] + decimal((-n) as nat)
    } else {
        decimal(n as nat)
    }
}

/// Appends the decimal spelling of `n` to `s`.
pub fn push_decimal(s: &mut String, n: u64)
    ensures
        final(s)@ == old(s)@ + decimal(n as nat),
    decreases n,
{
    if n < 10 {
        let c = ((n as u8) + 48u8) as char;
        push_char(s, c);
        assert(old(s)@ + decimal(n as nat) == old(s)@.push(c));
    } else {
        push_decimal(s, n / 10);
        let c = (((n % 10) as u8) + 48u8) as char;
        push_char(s, c);
        assert(old(s)@ + decimal(n as nat) == old(s)@ + decimal((n / 10) as nat) + seq![c]);
    }
}

/// Appends the decimal spelling of `n` (which may be as large as `u128`) to `s`.
pub fn push_decimal_wide(s: &mut String, n: u128)
    ensures
        final(s)@ == old(s)@ + decimal(n as nat),
    decreases n,
{
    if n < 10 {
        let c = ((n as u8) + 48u8) as char;
        push_char(s, c);
        assert(old(s)@ + decimal(n as nat) == old(s)@.push(c));
    } else {
        push_decimal_wide(s, n / 10);
        let c = (((n % 10) as u8) + 48u8) as char;
        push_char(s, c);
        assert(old(s)@ + decimal(n as nat) == old(s)@ + decimal((n / 10) as nat) + seq![c]);
    }
}

/// The decimal spelling of `n`.
pub fn decimal_text(n: u64) -> (r: String)
    ensures
        r@ == decimal(n as nat),
{
    let mut s = String::new();
    push_decimal(&mut s, n);
    assert(s@ == Seq::<char>::empty() + decimal(n as nat));
    s
}

/// Appends the signed decimal spelling of `n` to `s`.
pub fn push_signed(s: &mut String, n: i64)
    ensures
        final(s)@ == old(s)@ + signed_decimal(n as int),
{
    if n < 0 {
        push_char(s, '-');
        let m: u64 = if n == i64::MIN { 9223372036854775808u64 } else { (-n) as u64 };
        push_decimal(s, m);
        assert(old(s)@ + signed_decimal(n as int) == old(s)@.push('-') + decimal(m as nat));
    } else {
        push_decimal(s, n as u64);
    }
}

// ------------------------------------------------------------------ lines

/// The pieces of `s` between its `'\n'` characters: always at least one, and
/// one more than there are newlines.
pub open spec fn split_nl(s: Seq<char>) -> Seq<Seq<char>>
    decreases s.len(),
{
    if s.len() == 0 {
        seq![Seq::<char>::empty()]
    } else {
        let p = split_nl(s.drop_last());
        if s.last() == '\n' {
            p.push(Seq::<char>::empty())
        } else {
            p.update(p.len() - 1, p.last().push(s.last()))
        }
    }
}

/// A line that a newline ended loses one trailing `'\r'`.
pub open spec fn strip_cr(l: Seq<char>) -> Seq<char> {
    if l.len() > 0 && l.last() == '\r' {
        l.drop_last()
    } else {
        l
    }
}

/// The lines of `s`, as std's `str::lines` gives them: the newline-separated
/// pieces, without the empty piece a final newline leaves, and each piece a
/// newline ended without one trailing carriage return.
pub open spec fn lines(s: Seq<char>) -> Seq<Seq<char>> {
    let p = split_nl(s);
    if s.len() == 0 {
        Seq::empty()
    } else if s.last() == '\n' {
        p.drop_last().map_values(|l: Seq<char>| strip_cr(l))
    } else {
        Seq::new(p.len(), |i: int| if i < p.len() - 1 { strip_cr(p[i]) } else { p[i] })
    }
}

pub proof fn lemma_split_nl_len(s: Seq<char>)
    ensures
        split_nl(s).len() >= 1,
    decreases s.len(),
{
    if s.len() > 0 {
        lemma_split_nl_len(s.drop_last());
    }
}

/// The newline-separated pieces of `s`.
pub fn split_lines(s: &str) -> (r: Vec<Vec<char>>)
    ensures
        r@.map_values(|v: Vec<char>| v@) == split_nl(s@),
{
    let cs = chars_of(s);
    let mut segs: Vec<Vec<char>> = Vec::new();
    segs.push(Vec::new());
    for i in 0..cs.len()
        invariant
            cs@ == s@,
            segs@.len() >= 1,
            segs@.map_values(|v: Vec<char>| v@) == split_nl(cs@.take(i as int)),
    {
        let c = cs[i];
        let ghost prev = segs@.map_values(|v: Vec<char>| v@);
        assert(cs@.take(i + 1).drop_last() == cs@.take(i as int));
        assert(cs@.take(i + 1).last() == c);
        if c == '\n' {
            segs.push(Vec::new());
            assert(segs@.map_values(|v: Vec<char>| v@) =~= prev.push(Seq::<char>::empty()));
        } else {
            let mut last = segs.pop().unwrap();
            last.push(c);
            segs.push(last);
            assert(segs@.map_values(|v: Vec<char>| v@) =~= prev.update(
                prev.len() - 1,
                prev.last().push(c),
            ));
        }
    }
    assert(cs@.take(cs@.len() as int) == cs@);
    segs
}

/// The lines of `s`, as `str::lines` gives them.
pub fn lines_of(s: &str) -> (r: Vec<String>)
    ensures
        r@.map_values(|l: String| l@) == lines(s@),
{
    let segs = split_lines(s);
    let ghost p = split_nl(s@);
    let cs = chars_of(s);
    let n = cs.len();
    let mut out: Vec<String> = Vec::new();
    if n == 0 {
        assert(out@.map_values(|l: String| l@) =~= lines(s@));
        return out;
    }
    proof {
        lemma_split_nl_len(s@);
        assert(segs@.len() == p.len());
    }
    let ends_nl = cs[n - 1] == '\n';
    let count = if ends_nl { segs.len() - 1 } else { segs.len() };
    for i in 0..count
        invariant
            segs@.map_values(|v: Vec<char>| v@) == p,
            p == split_nl(s@),
            count <= segs@.len(),
            count == (if ends_nl { segs@.len() - 1 } else { segs@.len() as int }),
            ends_nl == (s@.last() == '\n'),
            s@.len() > 0,
            out@.len() == i,
            forall|j: int| 0 <= j < i ==> #[trigger] out@[j]@ == (if ends_nl || j < p.len() - 1 {
                strip_cr(p[j])
            } else {
                p[j]
            }),
    {
        let seg = &segs[i];
        assert(seg@ == p[i as int]);
        let k = seg.len();
        let strip = (ends_nl || i + 1 < segs.len()) && k > 0 && seg[k - 1] == '\r';
        let l = if strip { string_of_range(seg.as_slice(), 0, k - 1) } else { string_of(seg.as_slice()) };
        proof {
            if strip {
                assert(seg@.subrange(0, k - 1) == seg@.drop_last());
            }
        }
        out.push(l);
    }
    assert(out@.map_values(|l: String| l@) =~= lines(s@));
    out
}

} // verus!

verus! {

// ------------------------------------------------------------------ bytes

/// The UTF-8 bytes of a sequence of characters split where the characters do.
pub proof fn lemma_encode_concat(a: Seq<char>, b: Seq<char>)
    ensures
        vstd::utf8::encode_utf8(a + b) == vstd::utf8::encode_utf8(a) + vstd::utf8::encode_utf8(b),
    decreases a.len(),
{
    if a.len() > 0 {
        lemma_encode_concat(a.drop_first(), b);
        assert((a + b).drop_first() == a.drop_first() + b);
    } else {
        assert(a + b == b);
    }
}

/// Two strings with the same bytes hold the same characters.
pub proof fn lemma_encode_injective(a: Seq<char>, b: Seq<char>)
    requires
        vstd::utf8::encode_utf8(a) == vstd::utf8::encode_utf8(b),
    ensures
        a == b,
{
    vstd::utf8::encode_utf8_decode_utf8(a);
    vstd::utf8::encode_utf8_decode_utf8(b);
}

/// A string's bytes are valid UTF-8, and a position whose byte is ASCII is a
/// character boundary.
pub proof fn lemma_ascii_boundary(s: &str, i: int)
    requires
        0 <= i < s.spec_bytes().len(),
        s.spec_bytes()[i] < 0x80,
    ensures
        vstd::utf8::is_char_boundary(s.spec_bytes(), i),
{
    vstd::utf8::encode_utf8_valid_utf8(s@);
    vstd::utf8::is_char_boundary_iff_not_is_continuation_byte(s.spec_bytes(), i);
}

/// The start and the end of a string are character boundaries.
pub proof fn lemma_ends_are_boundaries(s: &str)
    ensures
        vstd::utf8::is_char_boundary(s.spec_bytes(), 0),
        vstd::utf8::is_char_boundary(s.spec_bytes(), s.spec_bytes().len() as int),
{
    vstd::utf8::encode_utf8_valid_utf8(s@);
    vstd::utf8::is_char_boundary_start_end_of_seq(s.spec_bytes());
}

/// The bytes `from..to` of `s`, as a string slice.
pub fn byte_slice(s: &str, from: usize, to: usize) -> (r: &str)
    requires
        from <= to <= s.spec_bytes().len(),
        vstd::utf8::is_char_boundary(s.spec_bytes(), from as int),
        vstd::utf8::is_char_boundary(s.spec_bytes(), to as int),
    ensures
        r.spec_bytes() == s.spec_bytes().subrange(from as int, to as int),
{
    let (a, _) = s.split_at(to);
    proof {
        assert(a.spec_bytes().subrange(0, from as int) == s.spec_bytes().subrange(0, from as int));
        vstd::utf8::encode_utf8_valid_utf8(a@);
        vstd::utf8::encode_utf8_valid_utf8(s@);
        assert(s.spec_bytes() == s.spec_bytes().subrange(0, to as int) + s.spec_bytes().subrange(to as int, s.spec_bytes().len() as int));
        boundary_prefix(s.spec_bytes(), to as int, from as int);
    }
    let (_, b) = a.split_at(from);
    b
}

/// A character boundary of a sequence is one of its prefixes too.
pub proof fn boundary_prefix(bytes: Seq<u8>, to: int, i: int)
    requires
        vstd::utf8::valid_utf8(bytes),
        0 <= i <= to <= bytes.len(),
        vstd::utf8::is_char_boundary(bytes, to),
        vstd::utf8::is_char_boundary(bytes, i),
    ensures
        vstd::utf8::is_char_boundary(bytes.subrange(0, to), i),
{
    vstd::utf8::valid_utf8_split(bytes, to);
    if i == to {
        vstd::utf8::is_char_boundary_start_end_of_seq(bytes.subrange(0, to));
    } else {
        vstd::utf8::is_char_boundary_iff_not_is_continuation_byte(bytes, i);
        vstd::utf8::is_char_boundary_iff_not_is_continuation_byte(bytes.subrange(0, to), i);
    }
}

/// Appends a string slice; the bytes of the result are the two byte runs
/// side by side.
pub proof fn lemma_push_bytes(before: Seq<char>, t: &str, after: Seq<char>)
    requires
        after == before + t@,
    ensures
        vstd::utf8::encode_utf8(after) == vstd::utf8::encode_utf8(before) + t.spec_bytes(),
{
    lemma_encode_concat(before, t@);
}

} // verus!

verus! {

/// Appends the hexadecimal digit for `d`.
pub fn push_hex_digit(s: &mut String, d: u32)
    requires
        d < 16,
    ensures
        final(s)@ == old(s)@.push(hex_digit(d as nat)),
{
    let c = if d < 10 { ((d as u8) + 48u8) as char } else { ((d as u8) + 87u8) as char };
    push_char(s, c);
}

/// The pieces, with `sep` between each two of them.
pub open spec fn join(parts: Seq<Seq<char>>, sep: Seq<char>) -> Seq<char>
    decreases parts.len(),
{
    if parts.len() == 0 {
        Seq::empty()
    } else if parts.len() == 1 {
        parts[0]
    } else {
        join(parts.drop_last(), sep) + sep + parts.last()
    }
}

/// Appends the strings of `parts`, with `sep` between each two of them.
pub fn push_joined(s: &mut String, parts: &[String], sep: &str)
    ensures
        final(s)@ == old(s)@ + join(parts@.map_values(|p: String| p@), sep@),
{
    let ghost ps = parts@.map_values(|p: String| p@);
    for i in 0..parts.len()
        invariant
            ps == parts@.map_values(|p: String| p@),
            s@ == old(s)@ + join(ps.take(i as int), sep@),
    {
        assert(ps.take(i + 1).drop_last() == ps.take(i as int));
        assert(ps.take(i + 1).last() == parts@[i as int]@);
        if i > 0 {
            push_str(s, sep);
        }
        push_str(s, parts[i].as_str());
        assert(s@ =~= old(s)@ + join(ps.take(i + 1), sep@));
    }
    assert(ps.take(parts@.len() as int) == ps);
}

} // verus!

verus! {

// ------------------------------------------------------------- whitespace

/// The characters `char::is_whitespace` accepts: Unicode `White_Space`.
pub open spec fn is_ws(c: char) -> bool {
    let u = c as u32;
    (9 <= u <= 13) || u == 32 || u == 0x85 || u == 0xa0 || u == 0x1680 || (0x2000 <= u <= 0x200a)
        || u == 0x2028 || u == 0x2029 || u == 0x202f || u == 0x205f || u == 0x3000
}

pub fn is_whitespace(c: char) -> (r: bool)
    ensures
        r == is_ws(c),
{
    let u = c as u32;
    (9 <= u && u <= 13) || u == 32 || u == 0x85 || u == 0xa0 || u == 0x1680 || (0x2000 <= u && u
        <= 0x200a) || u == 0x2028 || u == 0x2029 || u == 0x202f || u == 0x205f || u == 0x3000
}

/// How many whitespace characters `s` starts with.
pub open spec fn ws_prefix_len(s: Seq<char>) -> nat
    decreases s.len(),
{
    if s.len() > 0 && is_ws(s[0]) {
        1 + ws_prefix_len(s.drop_first())
    } else {
        0
    }
}

/// `s` without its leading whitespace (`str::trim_start`).
pub open spec fn trim_start(s: Seq<char>) -> Seq<char> {
    s.skip(ws_prefix_len(s) as int)
}

/// `s` without its trailing whitespace (`str::trim_end`).
pub open spec fn trim_end(s: Seq<char>) -> Seq<char>
    decreases s.len(),
{
    if s.len() > 0 && is_ws(s.last()) {
        trim_end(s.drop_last())
    } else {
        s
    }
}

/// `s` without leading or trailing whitespace (`str::trim`).
pub open spec fn trim(s: Seq<char>) -> Seq<char> {
    trim_end(trim_start(s))
}

pub proof fn lemma_ws_prefix(s: Seq<char>, k: int)
    requires
        0 <= k <= s.len(),
        forall|j: int| 0 <= j < k ==> is_ws(s[j]),
        k == s.len() || !is_ws(s[k]),
    ensures
        ws_prefix_len(s) == k,
    decreases k,
{
    if k > 0 {
        assert forall|j: int| 0 <= j < k - 1 implies is_ws(s.drop_first()[j]) by {
            assert(s.drop_first()[j] == s[j + 1]);
        }
        lemma_ws_prefix(s.drop_first(), k - 1);
    }
}

/// The index of the first non-whitespace character of `cs[from..to]`, or
/// `to`.
pub fn skip_ws(cs: &[char], from: usize, to: usize) -> (r: usize)
    requires
        from <= to <= cs@.len(),
    ensures
        from <= r <= to,
        r - from == ws_prefix_len(cs@.subrange(from as int, to as int)),
{
    let mut i = from;
    while i < to && is_whitespace(cs[i])
        invariant
            from <= i <= to <= cs@.len(),
            forall|j: int| from <= j < i ==> is_ws(cs@[j]),
        decreases to - i,
    {
        i += 1;
    }
    proof {
        let t = cs@.subrange(from as int, to as int);
        assert forall|j: int| 0 <= j < i - from implies is_ws(t[j]) by {
            assert(t[j] == cs@[from + j]);
        }
        if i < to {
            assert(t[i - from] == cs@[i as int]);
        }
        lemma_ws_prefix(t, i - from);
    }
    i
}

/// The index just past the last non-whitespace character of `cs[from..to]`,
/// or `from`.
pub fn trim_end_index(cs: &[char], from: usize, to: usize) -> (r: usize)
    requires
        from <= to <= cs@.len(),
    ensures
        from <= r <= to,
        cs@.subrange(from as int, r as int) == trim_end(cs@.subrange(from as int, to as int)),
{
    let mut k = to;
    while k > from && is_whitespace(cs[k - 1])
        invariant
            from <= k <= to <= cs@.len(),
            trim_end(cs@.subrange(from as int, k as int)) == trim_end(cs@.subrange(from as int, to as int)),
        decreases k,
    {
        assert(cs@.subrange(from as int, k as int).drop_last() == cs@.subrange(from as int, k - 1));
        k -= 1;
    }
    k
}

/// The whitespace-separated words of `s` (`str::split_whitespace`).
pub open spec fn words(s: Seq<char>) -> Seq<Seq<char>>
    decreases s.len(),
{
    if s.len() == 0 {
        Seq::empty()
    } else {
        let w = words(s.drop_last());
        let c = s.last();
        if is_ws(c) {
            w
        } else if s.len() >= 2 && !is_ws(s[s.len() - 2]) {
            w.update(w.len() - 1, w.last().push(c))
        } else {
            w.push(seq![c])
        }
    }
}

pub proof fn lemma_words_nonempty(s: Seq<char>)
    requires
        s.len() > 0,
        !is_ws(s.last()),
    ensures
        words(s).len() > 0,
    decreases s.len(),
{
    if s.len() >= 2 && !is_ws(s[s.len() - 2]) {
        lemma_words_nonempty(s.drop_last());
    }
}

/// The words of `cs[from..to]`.
pub fn words_of(cs: &[char], from: usize, to: usize) -> (r: Vec<Vec<char>>)
    requires
        from <= to <= cs@.len(),
    ensures
        r@.map_values(|w: Vec<char>| w@) == words(cs@.subrange(from as int, to as int)),
{
    let mut out: Vec<Vec<char>> = Vec::new();
    let ghost s = cs@.subrange(from as int, to as int);
    let mut i = from;
    while i < to
        invariant
            from <= i <= to <= cs@.len(),
            s == cs@.subrange(from as int, to as int),
            out@.map_values(|w: Vec<char>| w@) == words(s.take(i - from)),
        decreases to - i,
    {
        let c = cs[i];
        let ghost prev = out@.map_values(|w: Vec<char>| w@);
        let ghost t = s.take(i + 1 - from);
        assert(t.drop_last() == s.take(i - from));
        assert(t.last() == c);
        if is_whitespace(c) {
        } else if i > from && !is_whitespace(cs[i - 1]) {
            assert(t[t.len() - 2] == cs@[i - 1]);
            proof {
                lemma_words_nonempty(s.take(i - from));
            }
            let mut w = out.pop().unwrap();
            w.push(c);
            out.push(w);
            assert(out@.map_values(|w: Vec<char>| w@) =~= prev.update(prev.len() - 1, prev.last().push(c)));
        } else {
            proof {
                if i > from {
                    assert(t[t.len() - 2] == cs@[i - 1]);
                }
            }
            let mut w: Vec<char> = Vec::new();
            w.push(c);
            out.push(w);
            assert(out@.map_values(|w: Vec<char>| w@) =~= prev.push(seq![c]));
        }
        i += 1;
    }
    assert(s.take(to - from) == s);
    out
}

// ------------------------------------------------------------- patterns

/// `pat` occurs in `s` at `i`.
pub open spec fn occurs_at(s: Seq<char>, pat: Seq<char>, i: int) -> bool {
    0 <= i && i + pat.len() <= s.len() && s.subrange(i, i + pat.len()) == pat
}

/// The first place at or after `i` where `pat` occurs in `s`.
pub open spec fn next_occ(s: Seq<char>, pat: Seq<char>, i: int) -> Option<int>
    decreases s.len() - i,
{
    if pat.len() == 0 || i < 0 || i + pat.len() > s.len() {
        None
    } else if occurs_at(s, pat, i) {
        Some(i)
    } else {
        next_occ(s, pat, i + 1)
    }
}

pub proof fn lemma_next_occ_after(s: Seq<char>, pat: Seq<char>, i: int)
    ensures
        next_occ(s, pat, i) matches Some(j) ==> i <= j && occurs_at(s, pat, j),
    decreases s.len() - i,
{
    if !(pat.len() == 0 || i < 0 || i + pat.len() > s.len()) && !occurs_at(s, pat, i) {
        lemma_next_occ_after(s, pat, i + 1);
    }
}

/// The pieces of `s` from `from` on, split at each occurrence of `pat`,
/// leftmost first and without overlap (`str::split` with a string pattern).
pub open spec fn pieces_from(s: Seq<char>, pat: Seq<char>, from: int) -> Seq<Seq<char>>
    decreases s.len() - from,
{
    if pat.len() == 0 || from < 0 || from > s.len() {
        Seq::empty()
    } else {
        match next_occ(s, pat, from) {
            Some(i) => {
                proof {
                    lemma_next_occ_after(s, pat, from);
                }
                seq![s.subrange(from, i)] + pieces_from(s, pat, i + pat.len())
            },
            None => seq![s.subrange(from, s.len() as int)],
        }
    }
}

pub proof fn lemma_pieces_nonempty(s: Seq<char>, pat: Seq<char>, from: int)
    requires
        pat.len() > 0,
        0 <= from <= s.len(),
    ensures
        pieces_from(s, pat, from).len() >= 1,
{
}

/// `s` begins with `p` (`str::starts_with`).
pub open spec fn has_prefix(s: Seq<char>, p: Seq<char>) -> bool {
    p.len() <= s.len() && s.take(p.len() as int) == p
}

/// `s` ends with `p` (`str::ends_with`).
pub open spec fn has_suffix(s: Seq<char>, p: Seq<char>) -> bool {
    p.len() <= s.len() && s.skip(s.len() - p.len()) == p
}

pub fn starts_with(s: &str, p: &str) -> (r: bool)
    ensures
        r == has_prefix(s@, p@),
{
    let cs = chars_of(s);
    let ps = chars_of(p);
    let r = occurs(cs.as_slice(), ps.as_slice(), 0);
    assert(r == has_prefix(s@, p@)) by {
        if ps@.len() <= cs@.len() {
            assert(cs@.subrange(0, ps@.len() as int) == cs@.take(ps@.len() as int));
        }
    }
    r
}

pub fn ends_with(s: &str, p: &str) -> (r: bool)
    ensures
        r == has_suffix(s@, p@),
{
    let cs = chars_of(s);
    let ps = chars_of(p);
    if ps.len() > cs.len() {
        return false;
    }
    let r = occurs(cs.as_slice(), ps.as_slice(), cs.len() - ps.len());
    assert(cs@.subrange(cs@.len() - ps@.len(), cs@.len() as int) == cs@.skip(cs@.len() - ps@.len()));
    r
}

/// Whether a character is alphabetic or numeric in Unicode's sense: what
/// std's `char::is_alphanumeric` computes from Unicode's tables.
pub uninterp spec fn alphanumeric(c: char) -> bool;

/// std's `char::is_alphanumeric`; the result is `alphanumeric` of `c`.
#[verifier::external_body]
pub fn is_alphanumeric(c: char) -> (r: bool)
    ensures
        r == alphanumeric(c),
{
    c.is_alphanumeric()
}

/// The lowercase mapping Unicode's tables give a character: what std's
/// `char::to_lowercase` yields, one or more characters.
pub uninterp spec fn lowercase(c: char) -> Seq<char>;

/// std's `char::to_lowercase`, collected; the result is `lowercase` of `c`.
#[verifier::external_body]
pub fn to_lowercase(c: char) -> (r: String)
    ensures
        r@ == lowercase(c),
{
    c.to_lowercase().collect()
}

/// Whether `pat` occurs in `cs` at `i`.
pub fn occurs(cs: &[char], pat: &[char], i: usize) -> (r: bool)
    ensures
        r == occurs_at(cs@, pat@, i as int),
{
    if i > cs.len() || pat.len() > cs.len() - i {
        return false;
    }
    let n = pat.len();
    let mut k: usize = 0;
    while k < n
        invariant
            n == pat@.len(),
            k <= n,
            i <= cs@.len(),
            i + n <= cs.len(),
            forall|j: int| 0 <= j < k ==> cs@[i + j] == pat@[j],
        decreases n - k,
    {
        if cs[i + k] != pat[k] {
            assert(cs@.subrange(i as int, i + pat@.len())[k as int] != pat@[k as int]);
            return false;
        }
        k += 1;
    }
    assert(cs@.subrange(i as int, i + pat@.len()) =~= pat@);
    true
}

/// The first place at or after `from` where `pat` occurs in `cs`.
pub fn find_pat(cs: &[char], pat: &[char], from: usize) -> (r: Option<usize>)
    requires
        pat@.len() > 0,
        from <= cs@.len(),
    ensures
        r matches Some(i) ==> next_occ(cs@, pat@, from as int) == Some(i as int),
        r is None ==> next_occ(cs@, pat@, from as int) is None,
{
    let mut i = from;
    while i < cs.len()
        invariant
            from <= i <= cs@.len(),
            pat@.len() > 0,
            next_occ(cs@, pat@, from as int) == next_occ(cs@, pat@, i as int),
        decreases cs@.len() - i,
    {
        if occurs(cs, pat, i) {
            return Some(i);
        }
        i += 1;
    }
    None
}

/// Strings holding each of the character runs.
pub fn strings_of(ws: &Vec<Vec<char>>) -> (r: Vec<String>)
    ensures
        r@.map_values(|s: String| s@) == ws@.map_values(|w: Vec<char>| w@),
{
    let mut out: Vec<String> = Vec::new();
    for i in 0..ws.len()
        invariant
            out@.len() == i,
            out@.map_values(|s: String| s@) == ws@.take(i as int).map_values(|w: Vec<char>| w@),
    {
        let st = string_of(ws[i].as_slice());
        let ghost prev = out@;
        out.push(st);
        assert(out@[i as int]@ == ws@[i as int]@);
        assert forall|j: int| 0 <= j < i implies out@[j]@ == ws@[j]@ by {
            assert(prev.map_values(|s: String| s@)[j] == ws@.take(i as int).map_values(|w: Vec<char>| w@)[j]);
        }
        assert(out@.map_values(|s: String| s@) =~= ws@.take(i + 1).map_values(|w: Vec<char>| w@));
    }
    assert(ws@.take(ws@.len() as int) == ws@);
    out
}

/// Each range of `rs` is in `cs` and holds the piece of `ps` at its index.
pub open spec fn ranges_hold(cs: Seq<char>, rs: Seq<(usize, usize)>, ps: Seq<Seq<char>>) -> bool {
    &&& rs.len() == ps.len()
    &&& forall|k: int| 0 <= k < rs.len() ==> range_holds(cs, #[trigger] rs[k], ps[k])
}

pub open spec fn range_holds(cs: Seq<char>, r: (usize, usize), p: Seq<char>) -> bool {
    r.0 <= r.1 <= cs.len() && cs.subrange(r.0 as int, r.1 as int) == p
}

proof fn lemma_ranges_push(cs: Seq<char>, rs: Seq<(usize, usize)>, ps: Seq<Seq<char>>, r: (usize, usize), p: Seq<char>)
    requires
        ranges_hold(cs, rs, ps),
        range_holds(cs, r, p),
    ensures
        ranges_hold(cs, rs.push(r), ps.push(p)),
{
    assert forall|k: int| 0 <= k < rs.len() + 1 implies range_holds(cs, #[trigger] rs.push(r)[k], ps.push(p)[k]) by {
        if k < rs.len() {
            assert(rs.push(r)[k] == rs[k]);
            assert(ps.push(p)[k] == ps[k]);
        }
    }
}

/// The pieces of `cs` split at `pat`, as index ranges.
pub fn split_at_pattern(cs: &[char], pat: &[char]) -> (r: Vec<(usize, usize)>)
    requires
        pat@.len() > 0,
    ensures
        ranges_hold(cs@, r@, pieces_from(cs@, pat@, 0)),
{
    let mut out: Vec<(usize, usize)> = Vec::new();
    let mut start: usize = 0;
    let mut i: usize = 0;
    let ghost mut done: Seq<Seq<char>> = Seq::empty();
    while i < cs.len()
        invariant
            start <= i <= cs@.len(),
            pat@.len() > 0,
            next_occ(cs@, pat@, start as int) == next_occ(cs@, pat@, i as int),
            pieces_from(cs@, pat@, 0) == done + pieces_from(cs@, pat@, start as int),
            ranges_hold(cs@, out@, done),
        decreases cs@.len() - i,
    {
        if occurs(cs, pat, i) {
            proof {
                assert(next_occ(cs@, pat@, i as int) == Some(i as int));
                assert(pieces_from(cs@, pat@, start as int) == seq![cs@.subrange(start as int, i as int)]
                    + pieces_from(cs@, pat@, i + pat@.len()));
                lemma_ranges_push(cs@, out@, done, (start, i), cs@.subrange(start as int, i as int));
                done = done.push(cs@.subrange(start as int, i as int));
            }
            out.push((start, i));
            start = i + pat.len();
            i = start;
        } else {
            i += 1;
        }
    }
    proof {
        assert(next_occ(cs@, pat@, i as int) is None);
        assert(pieces_from(cs@, pat@, start as int) == seq![cs@.subrange(start as int, cs@.len() as int)]);
        lemma_ranges_push(cs@, out@, done, (start, cs.len()), cs@.subrange(start as int, cs@.len() as int));
        done = done.push(cs@.subrange(start as int, cs@.len() as int));
    }
    out.push((start, cs.len()));
    out
}

} // verus!
