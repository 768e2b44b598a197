//! Structured edit and the read-only queries that go with it: `patch`,
//! `deps`, `proof`.
//!
//! Addressing is by semantic path (`Ledger.mean.body`), never by index, so it
//! survives insertion and reordering. The extent of a node is computed
//! textually rather than re-rendered, because the file is the source of truth
//! and the AST a derived cache: replacing a byte range keeps every byte the
//! patch did not name, which is what makes the textual diff minimal.

use vstd::prelude::*;
use vstd::string::StringSliceAdditionalSpecFns;
use crate::diag::Span;
use crate::ast::{Decl, Module};
use crate::text::{
    byte_slice, chars_of, hex_digit, join, lemma_ascii_boundary, lemma_encode_concat,
    lemma_ends_are_boundaries, owned, push_char, push_hex_digit, push_joined, push_str, str_eq,
};

verus! {

/// An addressable node: a semantic path and the byte range it occupies.
#[derive(Clone, Debug)]
pub struct Node {
    pub path: String,
    pub start: usize,
    pub end: usize,
}

impl Node {
    /// The node's bytes in `src`.
    pub fn text<'s>(&self, src: &'s str) -> (r: &'s str)
        requires
            self.start <= self.end <= src.spec_bytes().len(),
            vstd::utf8::is_char_boundary(src.spec_bytes(), self.start as int),
            vstd::utf8::is_char_boundary(src.spec_bytes(), self.end as int),
        ensures
            r.spec_bytes() == src.spec_bytes().subrange(self.start as int, self.end as int),
    {
        byte_slice(src, self.start, self.end)
    }
}

// ------------------------------------------------------------------ hash

pub const FNV_OFFSET: u64 = 0xcbf2_9ce4_8422_2325;
pub const FNV_PRIME: u64 = 0x0000_0100_0000_01b3;

/// FNV-1a over a byte sequence.
pub open spec fn fnv(b: Seq<u8>) -> u64
    decreases b.len(),
{
    if b.len() == 0 {
        FNV_OFFSET
    } else {
        (fnv(b.drop_last()) ^ (b.last() as u64)).wrapping_mul(FNV_PRIME)
    }
}

/// The sixteen lower-case hexadecimal digits of `h`, most significant first.
pub open spec fn hex16(h: u64) -> Seq<char> {
    Seq::new(16, |i: int| hex_digit(((h >> ((60 - 4 * i) as u64)) & 0xf) as nat))
}

/// The digits of a hash: always sixteen, each a lower-case hexadecimal digit.
pub proof fn lemma_hash_shape(h: u64)
    ensures
        hex16(h).len() == 16,
        forall|i: int| 0 <= i < 16 ==> {
            let c = #[trigger] hex16(h)[i];
            ('0' <= c && c <= '9') || ('a' <= c && c <= 'f')
        },
{
    assert forall|i: int| 0 <= i < 16 implies {
        let c = #[trigger] hex16(h)[i];
        ('0' <= c && c <= '9') || ('a' <= c && c <= 'f')
    } by {
        let sh = (60 - 4 * i) as u64;
        assert((h >> sh) & 0xf <= 0xf) by (bit_vector);
    }
}

/// FNV-1a over the node's bytes, as 16 hex digits.
///
/// Not a cryptographic hash, and it does not need to be: it is optimistic
/// concurrency, guarding against a stale view of the file, not against an
/// adversary.
pub fn hash(s: &str) -> (r: String)
    ensures
        r@ == hex16(fnv(s.spec_bytes())),
{
    let b = s.as_bytes();
    let mut h: u64 = FNV_OFFSET;
    for i in 0..b.len()
        invariant
            b@ == s.spec_bytes(),
            h == fnv(b@.take(i as int)),
    {
        assert(b@.take(i + 1).drop_last() == b@.take(i as int));
        h = (h ^ (b[i] as u64)).wrapping_mul(FNV_PRIME);
    }
    assert(b@.take(b@.len() as int) == b@);
    let mut out = String::new();
    for i in 0..16usize
        invariant
            out@ == hex16(h).take(i as int),
    {
        let sh: u64 = (60 - 4 * i) as u64;
        let d = ((h >> sh) & 0xf) as u32;
        assert(((h >> sh) & 0xf) < 16) by (bit_vector);
        push_hex_digit(&mut out, d);
        assert(out@ =~= hex16(h).take(i + 1));
    }
    assert(hex16(h).take(16) == hex16(h));
    out
}

// ------------------------------------------------------------------ extents

/// The offsets just past each newline byte, in order.
pub open spec fn breaks(b: Seq<u8>) -> Seq<int>
    decreases b.len(),
{
    if b.len() == 0 {
        Seq::empty()
    } else if b.last() == 10 {
        breaks(b.drop_last()).push(b.len() as int)
    } else {
        breaks(b.drop_last())
    }
}

/// Byte offset of the start of every 1-based line, plus a final sentinel at the
/// end of the source: `starts[n]` is where line `n + 1` begins.
pub open spec fn line_starts_of(b: Seq<u8>) -> Seq<int> {
    seq![0int] + breaks(b) + seq![b.len() as int]
}

pub fn line_starts(src: &str) -> (r: Vec<usize>)
    ensures
        r@.map_values(|x: usize| x as int) == line_starts_of(src.spec_bytes()),
{
    let b = src.as_bytes();
    let mut v: Vec<usize> = Vec::new();
    v.push(0);
    for i in 0..b.len()
        invariant
            b@ == src.spec_bytes(),
            v@.map_values(|x: usize| x as int) == seq![0int] + breaks(b@.take(i as int)),
    {
        let ghost before = v@.map_values(|x: usize| x as int);
        assert(b@.take(i + 1).drop_last() == b@.take(i as int));
        if b[i] == 10u8 {
            v.push(i + 1);
            assert(v@.map_values(|x: usize| x as int) =~= before.push(i + 1));
        }
    }
    assert(b@.take(b@.len() as int) == b@);
    v.push(b.len());
    assert(v@.map_values(|x: usize| x as int) =~= line_starts_of(src.spec_bytes()));
    v
}

/// Byte offset of a span's first character. `Span::col` is a 0-based byte
/// offset inside its line, so this is addition, not a scan.
pub fn offset(starts: &[usize], s: Span) -> (r: usize)
    requires
        s.line >= 1,
        s.line - 1 < starts@.len() ==> starts@[s.line - 1] + s.col <= usize::MAX,
    ensures
        r == (if s.line - 1 < starts@.len() { starts@[s.line - 1] + s.col } else { 0 }),
{
    if s.line - 1 < starts.len() {
        starts[s.line - 1] + s.col
    } else {
        0
    }
}

/// `e`, moved back over the newline bytes just before it.
pub open spec fn before_newlines(b: Seq<u8>, e: int) -> int
    decreases e,
{
    if e > 0 && b[e - 1] == 10 {
        before_newlines(b, e - 1)
    } else {
        e
    }
}

/// Where the declaration ends whose successor starts at `next_line`: the byte
/// before the next declaration, with the blank lines between them left
/// outside.
pub fn decl_end(src: &str, starts: &[usize], next_line: Option<usize>) -> (r: usize)
    requires
        next_line matches Some(l) ==> l >= 1 && (l - 1 < starts@.len() ==> starts@[l - 1]
            <= src.spec_bytes().len()),
    ensures
        r == before_newlines(
            src.spec_bytes(),
            match next_line {
                Some(l) => if l - 1 < starts@.len() {
                    starts@[l - 1] as int
                } else {
                    src.spec_bytes().len() as int
                },
                None => src.spec_bytes().len() as int,
            },
        ),
{
    let b = src.as_bytes();
    let mut end = match next_line {
        Some(l) => if l - 1 < starts.len() {
            starts[l - 1]
        } else {
            b.len()
        },
        None => b.len(),
    };
    let ghost e0 = end as int;
    while end > 0 && b[end - 1] == 10u8
        invariant
            b@ == src.spec_bytes(),
            end <= b@.len(),
            before_newlines(b@, end as int) == before_newlines(b@, e0),
        decreases end,
    {
        end -= 1;
    }
    end
}

/// The length of the UTF-8 encoding of a whitespace character that `b` ends
/// with (the characters `char::is_whitespace` accepts), or 0.
pub open spec fn ws_suffix_len(b: Seq<u8>) -> int {
    let n = b.len() as int;
    if n >= 1 && ((9 <= b[n - 1] <= 13) || b[n - 1] == 32) {
        1
    } else if n >= 2 && b[n - 2] == 0xc2 && (b[n - 1] == 0x85 || b[n - 1] == 0xa0) {
        2
    } else if n >= 3 && ((b[n - 3] == 0xe1 && b[n - 2] == 0x9a && b[n - 1] == 0x80) || (b[n - 3]
        == 0xe2 && b[n - 2] == 0x80 && ((0x80 <= b[n - 1] <= 0x8a) || b[n - 1] == 0xa8 || b[n - 1]
        == 0xa9 || b[n - 1] == 0xaf)) || (b[n - 3] == 0xe2 && b[n - 2] == 0x81 && b[n - 1] == 0x9f)
        || (b[n - 3] == 0xe3 && b[n - 2] == 0x80 && b[n - 1] == 0x80)) {
        3
    } else {
        0
    }
}

/// The length of `b` once its trailing whitespace is trimmed (`str::trim_end`,
/// on the bytes of a valid string).
pub open spec fn trimmed_end_len(b: Seq<u8>) -> nat
    decreases b.len(),
{
    if ws_suffix_len(b) > 0 {
        trimmed_end_len(b.take(b.len() - ws_suffix_len(b)))
    } else {
        b.len()
    }
}

/// How many spaces and tabs `b` starts with.
pub open spec fn leading_blanks(b: Seq<u8>) -> nat
    decreases b.len(),
{
    if b.len() > 0 && (b[0] == 32 || b[0] == 9) {
        1 + leading_blanks(b.drop_first())
    } else {
        0
    }
}

/// `seg[i]` is a bare `=`: not part of `==`, `<=`, `>=` or `!=`.
pub open spec fn bare_equals(seg: Seq<u8>, i: int) -> bool {
    &&& 0 <= i < seg.len()
    &&& seg[i] == 61
    &&& (i + 1 >= seg.len() || seg[i + 1] != 61)
    &&& (i == 0 || !(seg[i - 1] == 60 || seg[i - 1] == 62 || seg[i - 1] == 33 || seg[i - 1] == 61))
}

proof fn lemma_trimmed_end_le(b: Seq<u8>)
    ensures
        trimmed_end_len(b) <= b.len(),
    decreases b.len(),
{
    if ws_suffix_len(b) > 0 {
        lemma_trimmed_end_le(b.take(b.len() - ws_suffix_len(b)));
    }
}

proof fn lemma_leading_blanks_le(b: Seq<u8>)
    ensures
        leading_blanks(b) <= b.len(),
    decreases b.len(),
{
    if b.len() > 0 && (b[0] == 32 || b[0] == 9) {
        lemma_leading_blanks_le(b.drop_first());
    }
}

/// The separator belongs to neither node: when a head splits, the signature
/// ends at or before a bare `=` and the body starts after it, both within
/// the extent.
pub proof fn lemma_split_separates(seg: Seq<u8>, start: int)
    ensures
        head_split(seg, start) matches Some((a, b)) ==> start <= a && a < b && b <= start + seg.len()
            && exists|i: int| bare_equals(seg, i) && a <= start + i && start + i < b,
{
    reveal(head_split);
    if exists|i: int| bare_equals(seg, i) {
        let i = choose|i: int| bare_equals(seg, i) && forall|j: int| 0 <= j < i ==> !bare_equals(seg, j);
        lemma_first_bare_equals(seg);
        lemma_trimmed_end_le(seg.take(i));
        lemma_leading_blanks_le(seg.skip(i + 1));
    }
}

proof fn lemma_first_bare_equals(seg: Seq<u8>)
    requires
        exists|i: int| bare_equals(seg, i),
    ensures
        exists|i: int| bare_equals(seg, i) && forall|j: int| 0 <= j < i ==> !bare_equals(seg, j),
{
    let k = choose|i: int| bare_equals(seg, i);
    lemma_first_below(seg, k);
}

proof fn lemma_first_below(seg: Seq<u8>, k: int)
    requires
        bare_equals(seg, k),
    ensures
        exists|i: int| bare_equals(seg, i) && forall|j: int| 0 <= j < i ==> !bare_equals(seg, j),
    decreases k,
{
    if exists|j: int| 0 <= j < k && bare_equals(seg, j) {
        let j = choose|j: int| 0 <= j < k && bare_equals(seg, j);
        lemma_first_below(seg, j);
    } else {
        assert(bare_equals(seg, k) && forall|j: int| 0 <= j < k ==> !bare_equals(seg, j));
    }
}

/// Where the head of a function declaration is split from its body: the
/// first bare `=`, the signature ending before it with its trailing whitespace
/// trimmed, the body starting after it and after its leading blanks.
#[verifier::opaque]
pub open spec fn head_split(seg: Seq<u8>, start: int) -> Option<(int, int)> {
    if exists|i: int| bare_equals(seg, i) {
        let i = choose|i: int| bare_equals(seg, i) && forall|j: int| 0 <= j < i ==> !bare_equals(seg, j);
        Some((start + trimmed_end_len(seg.take(i)), start + i + 1 + leading_blanks(seg.skip(i + 1))))
    } else {
        None
    }
}

proof fn lemma_leading_blanks_step(b: Seq<u8>, k: int)
    requires
        0 <= k < b.len(),
        forall|j: int| 0 <= j < k ==> (b[j] == 32 || b[j] == 9),
    ensures
        leading_blanks(b) == k + leading_blanks(b.skip(k)),
    decreases k,
{
    if k > 0 {
        assert(b[0] == 32 || b[0] == 9);
        assert forall|j: int| 0 <= j < k - 1 implies (b.drop_first()[j] == 32 || b.drop_first()[j] == 9) by {
            assert(b.drop_first()[j] == b[j + 1]);
        }
        lemma_leading_blanks_step(b.drop_first(), k - 1);
        assert(b.drop_first().skip(k - 1) == b.skip(k));
    } else {
        assert(b.skip(0) == b);
    }
}

proof fn lemma_leading_blanks_all(b: Seq<u8>)
    requires
        forall|j: int| 0 <= j < b.len() ==> (b[j] == 32 || b[j] == 9),
    ensures
        leading_blanks(b) == b.len(),
    decreases b.len(),
{
    if b.len() > 0 {
        lemma_leading_blanks_all(b.drop_first());
    }
}

/// The least bare `=` of `seg`, searched from `from`, and the guarantee that
/// none comes earlier.
fn first_bare_equals(seg: &[u8]) -> (r: Option<usize>)
    ensures
        r matches Some(i) ==> bare_equals(seg@, i as int) && forall|j: int|
            0 <= j < i ==> !bare_equals(seg@, j),
        r is None ==> forall|j: int| !bare_equals(seg@, j),
{
    let n = seg.len();
    for i in 0..n
        invariant
            n == seg@.len(),
            forall|j: int| 0 <= j < i ==> !bare_equals(seg@, j),
    {
        if seg[i] == 61u8 && (i + 1 >= n || seg[i + 1] != 61u8) && (i == 0 || !(seg[i - 1] == 60u8
            || seg[i - 1] == 62u8 || seg[i - 1] == 33u8 || seg[i - 1] == 61u8)) {
            return Some(i);
        }
    }
    None
}

/// The length of `b[..n]` once trailing whitespace is trimmed.
fn trim_end_len(b: &[u8], n: usize) -> (r: usize)
    requires
        n <= b@.len(),
    ensures
        r == trimmed_end_len(b@.take(n as int)),
        r <= n,
{
    let mut k = n;
    while k > 0
        invariant
            k <= n <= b@.len(),
            trimmed_end_len(b@.take(k as int)) == trimmed_end_len(b@.take(n as int)),
        decreases k,
    {
        let ghost t = b@.take(k as int);
        let w: usize = if (9u8 <= b[k - 1] && b[k - 1] <= 13u8) || b[k - 1] == 32u8 {
            1
        } else if k >= 2 && b[k - 2] == 0xc2u8 && (b[k - 1] == 0x85u8 || b[k - 1] == 0xa0u8) {
            2
        } else if k >= 3 && ((b[k - 3] == 0xe1u8 && b[k - 2] == 0x9au8 && b[k - 1] == 0x80u8) || (
        b[k - 3] == 0xe2u8 && b[k - 2] == 0x80u8 && ((0x80u8 <= b[k - 1] && b[k - 1] <= 0x8au8)
            || b[k - 1] == 0xa8u8 || b[k - 1] == 0xa9u8 || b[k - 1] == 0xafu8)) || (b[k - 3]
            == 0xe2u8 && b[k - 2] == 0x81u8 && b[k - 1] == 0x9fu8) || (b[k - 3] == 0xe3u8 && b[k
            - 2] == 0x80u8 && b[k - 1] == 0x80u8)) {
            3
        } else {
            0
        };
        assert(w == ws_suffix_len(t));
        if w == 0 {
            return k;
        }
        assert(t.take(t.len() - w) == b@.take(k - w));
        k = k - w;
    }
    k
}

/// Split a function declaration at the `=` that introduces its body,
/// returning `(end of signature, start of body)` with the separator and the
/// spaces around it in neither.
///
/// The scan looks for a bare `=`: `==`, `<=`, `>=` and `!=` can all appear in
/// a parameter refinement, and nothing else in a signature spells `=`.
#[verifier::spinoff_prover]
#[verifier::rlimit(40)]
pub fn split_head(src: &str, start: usize, end: usize) -> (r: Option<(usize, usize)>)
    requires
        start <= end <= src.spec_bytes().len(),
    ensures
        match r {
            Some((a, b)) => head_split(src.spec_bytes().subrange(start as int, end as int), start as int)
                == Some((a as int, b as int)),
            None => head_split(src.spec_bytes().subrange(start as int, end as int), start as int)
                is None,
        },
{
    reveal(head_split);
    let all = src.as_bytes();
    let mut seg: Vec<u8> = Vec::new();
    for k in start..end
        invariant
            all@ == src.spec_bytes(),
            start <= end <= all@.len(),
            seg@ == all@.subrange(start as int, k as int),
    {
        seg.push(all[k]);
        assert(seg@ =~= all@.subrange(start as int, k + 1));
    }
    let ghost sg = seg@;
    let i = match first_bare_equals(seg.as_slice()) {
        Some(i) => i,
        None => return None,
    };
    let n = seg.len();
    let mut j = i + 1;
    while j < n && (seg[j] == 32u8 || seg[j] == 9u8)
        invariant
            i + 1 <= j <= n == sg.len(),
            seg@ == sg,
            forall|q: int| i + 1 <= q < j ==> (sg[q] == 32 || sg[q] == 9),
        decreases n - j,
    {
        j += 1;
    }
    proof {
        let rest = sg.skip(i + 1);
        if j < n {
            lemma_leading_blanks_step(rest, j - i - 1);
            assert(rest.skip(j - i - 1)[0] == sg[j as int]);
        } else {
            lemma_leading_blanks_all(rest);
        }
        assert(leading_blanks(rest) == j - i - 1);
    }
    let sig = trim_end_len(seg.as_slice(), i);
    proof {
        let w = choose|w: int| bare_equals(sg, w) && forall|q: int| 0 <= q < w ==> !bare_equals(sg, q);
        if w < i {
            assert(false);
        } else if w > i {
            assert(!bare_equals(sg, i as int));
        }
    }
    Some((start + sig, start + i + 1 + (j - i - 1)))
}

/// The header name with any `.h` suffixes dropped.
pub open spec fn strip_dot_h(s: Seq<char>) -> Seq<char>
    decreases s.len(),
{
    if s.len() >= 2 && s[s.len() - 2] == '.' && s[s.len() - 1] == 'h' {
        strip_dot_h(s.take(s.len() - 2))
    } else {
        s
    }
}

/// `/` and `.` both become `_`.
pub open spec fn underscored(c: char) -> char {
    if c == '/' || c == '.' {
        '_'
    } else {
        c
    }
}

/// `"stdio.h"` addresses better than `ext/0` and is as stable as the header is.
pub fn ext_key(header: &str) -> (r: String)
    ensures
        r@ == strip_dot_h(header@).map_values(|c: char| underscored(c)),
{
    let cs = chars_of(header);
    let mut n = cs.len();
    assert(cs@.take(n as int) == header@);
    while n >= 2 && cs[n - 2] == '.' && cs[n - 1] == 'h'
        invariant
            n <= cs@.len(),
            cs@ == header@,
            strip_dot_h(cs@.take(n as int)) == strip_dot_h(header@),
        decreases n,
    {
        assert(cs@.take(n as int).take(n - 2) == cs@.take(n - 2));
        n -= 2;
    }
    assert(cs@ == cs@.take(cs@.len() as int));
    assert(strip_dot_h(cs@.take(n as int)) == cs@.take(n as int));
    let mut out = String::new();
    for k in 0..n
        invariant
            n <= cs@.len(),
            out@ == cs@.take(k as int).map_values(|c: char| underscored(c)),
    {
        let c = cs[k];
        push_char(&mut out, if c == '/' || c == '.' { '_' } else { c });
        assert(cs@.take(k + 1) == cs@.take(k as int).push(c));
        assert(out@ =~= cs@.take(k + 1).map_values(|c: char| underscored(c)));
    }
    assert(cs@.take(n as int).take(n as int) == cs@.take(n as int));
    out
}

/// The first node whose path is `path`.
pub fn find<'n>(nodes: &'n [Node], path: &str) -> (r: Option<&'n Node>)
    ensures
        match r {
            Some(n) => exists|i: int|
                0 <= i < nodes@.len() && nodes@[i] == *n && n.path@ == path@ && forall|j: int|
                    0 <= j < i ==> nodes@[j].path@ != path@,
            None => forall|j: int| 0 <= j < nodes@.len() ==> nodes@[j].path@ != path@,
        },
{
    for i in 0..nodes.len()
        invariant
            forall|j: int| 0 <= j < i ==> nodes@[j].path@ != path@,
    {
        if str_eq(nodes[i].path.as_str(), path) {
            return Some(&nodes[i]);
        }
    }
    None
}

/// How many newline bytes `b` ends with.
pub open spec fn trailing_newlines(b: Seq<u8>) -> nat
    decreases b.len(),
{
    if b.len() > 0 && b.last() == 10 {
        1 + trailing_newlines(b.drop_last())
    } else {
        0
    }
}

/// The source with `n`'s bytes replaced by `new` (less its trailing
/// newlines). The caller re-checks the result before writing it: a patch
/// that does not parse is refused, not saved.
pub fn apply(src: &str, n: &Node, new: &str) -> (r: String)
    requires
        n.start <= src.spec_bytes().len(),
        n.end <= src.spec_bytes().len(),
        vstd::utf8::is_char_boundary(src.spec_bytes(), n.start as int),
        vstd::utf8::is_char_boundary(src.spec_bytes(), n.end as int),
    ensures
        vstd::utf8::encode_utf8(r@) == src.spec_bytes().take(n.start as int) + new.spec_bytes().take(
            new.spec_bytes().len() - trailing_newlines(new.spec_bytes()),
        ) + src.spec_bytes().skip(n.end as int),
{
    let nb = new.as_bytes();
    let mut k = nb.len();
    assert(nb@.take(k as int) == nb@);
    while k > 0 && nb[k - 1] == 10u8
        invariant
            nb@ == new.spec_bytes(),
            k <= nb@.len(),
            trailing_newlines(nb@) == (nb@.len() - k) + trailing_newlines(nb@.take(k as int)),
            forall|j: int| k <= j < nb@.len() ==> nb@[j] == 10,
        decreases k,
    {
        assert(nb@.take(k as int).drop_last() == nb@.take(k - 1));
        k -= 1;
    }
    proof {
        assert(nb@.take(nb@.len() as int) == nb@);
        lemma_ends_are_boundaries(new);
        lemma_ends_are_boundaries(src);
        if k < nb@.len() {
            lemma_ascii_boundary(new, k as int);
        }
    }
    let head = byte_slice(src, 0, n.start);
    let mid = byte_slice(new, 0, k);
    let tail = byte_slice(src, n.end, src.as_bytes().len());
    let mut out = owned(head);
    push_str(&mut out, mid);
    push_str(&mut out, tail);
    proof {
        lemma_encode_concat(head@, mid@);
        lemma_encode_concat(head@ + mid@, tail@);
        assert(out@ == head@ + mid@ + tail@);
    }
    out
}

// ------------------------------------------------------------------ deps

/// How a callee is named in `deps`: qualified names as they are, the rest
/// qualified with the module's own name.
pub open spec fn qualified_in(m: Seq<char>, n: Seq<char>) -> Seq<char> {
    if n.contains('.') {
        n
    } else {
        m + "."@ + n
    }
}

/// The names joined by spaces, each qualified, or `-` when there are none.
pub open spec fn joined_names(names: Seq<Seq<char>>, m: Seq<char>) -> Seq<char> {
    if names.len() == 0 {
        "-"@
    } else {
        join(names.map_values(|n: Seq<char>| qualified_in(m, n)), " "@)
    }
}

pub(crate) fn has_dot(s: &str) -> (r: bool)
    ensures
        r == s@.contains('.'),
{
    let cs = chars_of(s);
    for i in 0..cs.len()
        invariant
            cs@ == s@,
            forall|j: int| 0 <= j < i ==> cs@[j] != '.',
    {
        if cs[i] == '.' {
            return true;
        }
    }
    false
}

pub fn join_names(names: &[String], m: &str) -> (r: String)
    ensures
        r@ == joined_names(names@.map_values(|n: String| n@), m@),
{
    let mut out = String::new();
    if names.len() == 0 {
        push_str(&mut out, "-");
        return out;
    }
    let mut parts: Vec<String> = Vec::new();
    for i in 0..names.len()
        invariant
            parts@.len() == i,
            forall|j: int| 0 <= j < i ==> #[trigger] parts@[j]@ == qualified_in(m@, names@[j]@),
    {
        let n = names[i].as_str();
        let q = if has_dot(n) {
            owned(n)
        } else {
            let mut q = owned(m);
            push_str(&mut q, ".");
            push_str(&mut q, n);
            q
        };
        parts.push(q);
    }
    push_joined(&mut out, parts.as_slice(), " ");
    assert(parts@.map_values(|p: String| p@) =~= names@.map_values(|n: String| n@).map_values(
        |n: Seq<char>| qualified_in(m@, n),
    ));
    out
}


// ------------------------------------------------------------------ nodes

/// Every offset in `breaks(b)` lies inside `b`.
pub proof fn lemma_breaks_bounded(b: Seq<u8>)
    ensures
        forall|j: int| 0 <= j < breaks(b).len() ==> 0 <= #[trigger] breaks(b)[j] <= b.len(),
    decreases b.len(),
{
    if b.len() > 0 {
        lemma_breaks_bounded(b.drop_last());
        let p = breaks(b.drop_last());
        if b.last() == 10 {
            assert(breaks(b) == p.push(b.len() as int));
        } else {
            assert(breaks(b) == p);
        }
    }
}

/// Moving back over newlines stays inside `[0, e]`.
pub proof fn lemma_before_newlines_within(b: Seq<u8>, e: int)
    requires
        0 <= e <= b.len(),
    ensures
        0 <= before_newlines(b, e) <= e,
    decreases e,
{
    if e > 0 && b[e - 1] == 10 {
        lemma_before_newlines_within(b, e - 1);
    }
}

/// Where a declaration starts.
pub open spec fn decl_span_of(d: Decl) -> Span {
    match d {
        Decl::Type(t) => t.span,
        Decl::Fun(f) => f.span,
        Decl::Ext(x) => x.span,
        Decl::Exp(_, s) => s,
    }
}

/// The byte offset of a span's first character, 0 for a line that is not
/// there.
pub open spec fn offset_of(starts: Seq<int>, s: Span) -> int {
    if s.line - 1 < starts.len() {
        starts[s.line - 1] + s.col
    } else {
        0
    }
}

/// Where a declaration ends whose successor starts on line `next`.
pub open spec fn end_of(b: Seq<u8>, starts: Seq<int>, next: Option<int>) -> int {
    before_newlines(
        b,
        match next {
            Some(l) => if l - 1 < starts.len() {
                starts[l - 1]
            } else {
                b.len() as int
            },
            None => b.len() as int,
        },
    )
}

/// The semantic path of a declaration of the module `m`.
pub open spec fn node_base(m: Module, d: Decl) -> Seq<char> {
    match d {
        Decl::Type(t) => t.home@ + "."@ + t.name@,
        Decl::Fun(f) => f.home@ + "."@ + f.name@,
        Decl::Ext(x) => m.name@ + ".ext."@ + strip_dot_h(x.header@).map_values(|c: char| underscored(c)),
        Decl::Exp(_, _) => m.name@ + ".exp"@,
    }
}

/// The nodes the `i`-th declaration of `m` contributes: none where its
/// extent is empty; for a function its signature and its body, when the
/// head splits; then the whole declaration.
pub open spec fn decl_nodes(m: Module, b: Seq<u8>, i: int) -> Seq<(Seq<char>, int, int)> {
    let starts = line_starts_of(b);
    let d = m.decls@[i];
    let start = offset_of(starts, decl_span_of(d));
    let next: Option<int> = if i + 1 < m.decls@.len() {
        Some(decl_span_of(m.decls@[i + 1]).line as int)
    } else {
        None
    };
    let end = end_of(b, starts, next);
    let base = node_base(m, d);
    if end <= start {
        Seq::empty()
    } else if d is Fun {
        match head_split(b.subrange(start, end), start) {
            Some((sig, body)) => seq![(base + ".sig"@, start, sig), (base + ".body"@, body, end), (base, start, end)],
            None => seq![(base, start, end)],
        }
    } else {
        seq![(base, start, end)]
    }
}

/// The nodes of the first `n` declarations of `m`.
pub open spec fn nodes_upto(m: Module, b: Seq<u8>, n: int) -> Seq<(Seq<char>, int, int)>
    decreases n,
{
    if n <= 0 {
        Seq::empty()
    } else {
        nodes_upto(m, b, n - 1) + decl_nodes(m, b, n - 1)
    }
}

pub open spec fn node_view(n: Node) -> (Seq<char>, int, int) {
    (n.path@, n.start as int, n.end as int)
}

pub(crate) fn decl_span(d: &Decl) -> (r: Span)
    ensures
        r == decl_span_of(*d),
{
    match d {
        Decl::Type(t) => t.span,
        Decl::Fun(f) => f.span,
        Decl::Ext(e) => e.span,
        Decl::Exp(_, s) => *s,
    }
}

/// The semantic path of a declaration of `m`.
fn base_path(m: &Module, d: &Decl) -> (r: String)
    ensures
        r@ == node_base(*m, *d),
{
    match d {
        Decl::Type(t) => {
            let mut s = t.home.clone();
            push_str(&mut s, ".");
            push_str(&mut s, t.name.as_str());
            s
        },
        Decl::Fun(f) => {
            let mut s = f.home.clone();
            push_str(&mut s, ".");
            push_str(&mut s, f.name.as_str());
            s
        },
        Decl::Ext(x) => {
            let mut s = m.name.clone();
            push_str(&mut s, ".ext.");
            let k = ext_key(x.header.as_str());
            push_str(&mut s, k.as_str());
            s
        },
        Decl::Exp(_, _) => {
            let mut s = m.name.clone();
            push_str(&mut s, ".exp");
            s
        },
    }
}

/// `base` followed by `suffix`.
fn suffixed(base: &String, suffix: &str) -> (r: String)
    ensures
        r@ == base@ + suffix@,
{
    let mut s = base.clone();
    push_str(&mut s, suffix);
    s
}

/// Appends the nodes of the `i`-th declaration of `m` to `out`.
#[verifier::spinoff_prover]
#[verifier::rlimit(40)]
fn push_decl_nodes(out: &mut Vec<Node>, m: &Module, src: &str, starts: &Vec<usize>, i: usize)
    requires
        i < m.decls@.len(),
        starts@.map_values(|x: usize| x as int) == line_starts_of(src.spec_bytes()),
        forall|j: int| 0 <= j < starts@.len() ==> #[trigger] starts@[j] <= src.spec_bytes().len(),
        forall|j: int| 0 <= j < m.decls@.len() ==> (#[trigger] decl_span_of(m.decls@[j])).line >= 1,
        forall|j: int|
            0 <= j < m.decls@.len() ==> (#[trigger] decl_span_of(m.decls@[j])).col + src.spec_bytes().len()
                <= usize::MAX,
    ensures
        final(out)@.map_values(|n: Node| node_view(n)) == old(out)@.map_values(|n: Node| node_view(n)) + decl_nodes(
            *m,
            src.spec_bytes(),
            i as int,
        ),
{
    let ghost b = src.spec_bytes();
    let ghost mv = *m;
    let ghost ss = starts@.map_values(|x: usize| x as int);
    let n = m.decls.len();
    let d = &m.decls[i];
    assert(mv.decls@[i as int] == *d);
    let sp = decl_span(d);
    assert(decl_span_of(m.decls@[i as int]).line >= 1);
    assert(decl_span_of(m.decls@[i as int]).col + b.len() <= usize::MAX);
    if sp.line - 1 < starts.len() {
        assert(starts@[sp.line - 1] <= b.len());
    }
    let start = offset(starts.as_slice(), sp);
    let next: Option<usize> = if i + 1 < n {
        let nsp = decl_span(&m.decls[i + 1]);
        assert(decl_span_of(m.decls@[i + 1]).line >= 1);
        if nsp.line - 1 < starts.len() {
            assert(starts@[nsp.line - 1] <= b.len());
        }
        Some(nsp.line)
    } else {
        None
    };
    let end = decl_end(src, starts.as_slice(), next);
    proof {
        let e0: int = match next {
            Some(l) => if l - 1 < starts@.len() {
                starts@[l - 1] as int
            } else {
                b.len() as int
            },
            None => b.len() as int,
        };
        lemma_before_newlines_within(b, e0);
        if sp.line - 1 < starts@.len() {
            assert(ss[sp.line - 1] == starts@[sp.line - 1] as int);
        }
        if next is Some {
            let l = next->Some_0;
            if l - 1 < starts@.len() {
                assert(ss[l - 1] == starts@[l - 1] as int);
            }
        }
        assert(start as int == offset_of(line_starts_of(b), decl_span_of(mv.decls@[i as int])));
    }
    let ghost before = out@.map_values(|n: Node| node_view(n));
    let ghost dn = decl_nodes(mv, b, i as int);
    let ghost next_i: Option<int> = match next {
        Some(l) => Some(l as int),
        None => None,
    };
    assert(end as int == end_of(b, line_starts_of(b), next_i));
    if end > start {
        let base = base_path(m, d);
        let is_fun = match d {
            Decl::Fun(_) => true,
            _ => false,
        };
        let ghost bv = base@;
        assert(bv == node_base(mv, mv.decls@[i as int]));
        if is_fun {
            match split_head(src, start, end) {
                Some((sig_end, body)) => {
                    assert(dn == seq![(bv + ".sig"@, start as int, sig_end as int), (bv + ".body"@, body as int, end as int), (bv, start as int, end as int)]);
                    out.push(Node { path: suffixed(&base, ".sig"), start, end: sig_end });
                    out.push(Node { path: suffixed(&base, ".body"), start: body, end });
                },
                None => {
                    assert(dn == seq![(bv, start as int, end as int)]);
                },
            }
        } else {
            assert(dn == seq![(bv, start as int, end as int)]);
        }
        out.push(Node { path: base, start, end });
    } else {
        assert(dn == Seq::<(Seq<char>, int, int)>::empty());
    }
    assert(out@.map_values(|n: Node| node_view(n)) =~= before + dn);
}

/// Every addressable node of a module, in declaration order. A function
/// contributes three: the whole declaration, its signature, and its body.
pub fn nodes(m: &Module, src: &str) -> (r: Vec<Node>)
    requires
        forall|i: int| 0 <= i < m.decls@.len() ==> (#[trigger] decl_span_of(m.decls@[i])).line >= 1,
        forall|i: int|
            0 <= i < m.decls@.len() ==> (#[trigger] decl_span_of(m.decls@[i])).col + src.spec_bytes().len()
                <= usize::MAX,
    ensures
        r@.map_values(|n: Node| node_view(n)) == nodes_upto(*m, src.spec_bytes(), m.decls@.len() as int),
{
    let ghost b = src.spec_bytes();
    let ghost mv = *m;
    let starts = line_starts(src);
    proof {
        let ss = starts@.map_values(|x: usize| x as int);
        let ls = line_starts_of(b);
        lemma_breaks_bounded(b);
        assert forall|j: int| 0 <= j < starts@.len() implies #[trigger] starts@[j] <= b.len() by {
            assert(ss[j] == starts@[j] as int);
            assert(ls.len() == breaks(b).len() + 2);
            if j == 0 {
            } else if j <= breaks(b).len() {
                assert(ls[j] == breaks(b)[j - 1]);
            } else {
                assert(ls[j] == b.len());
            }
        }
    }
    let mut out: Vec<Node> = Vec::new();
    let n = m.decls.len();
    assert(out@.map_values(|n: Node| node_view(n)) =~= nodes_upto(mv, b, 0));
    for i in 0..n
        invariant
            n == m.decls@.len(),
            mv == *m,
            b == src.spec_bytes(),
            starts@.map_values(|x: usize| x as int) == line_starts_of(b),
            forall|j: int| 0 <= j < starts@.len() ==> #[trigger] starts@[j] <= b.len(),
            forall|j: int| 0 <= j < m.decls@.len() ==> (#[trigger] decl_span_of(m.decls@[j])).line >= 1,
            forall|j: int|
                0 <= j < m.decls@.len() ==> (#[trigger] decl_span_of(m.decls@[j])).col + src.spec_bytes().len()
                    <= usize::MAX,
            out@.map_values(|n: Node| node_view(n)) == nodes_upto(mv, b, i as int),
    {
        push_decl_nodes(&mut out, m, src, &starts, i);
    }
    out
}

} // verus!
