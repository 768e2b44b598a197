//! What `vibe patch` decides for one file: read a node back with its hash,
//! or replace it, but only when the caller read the node as it stands and the
//! file still parses afterwards.

use vstd::prelude::*;
use vstd::string::StringSliceAdditionalSpecFns;
use crate::ast::Module;
use crate::decl::{module_from, parse};
use crate::diag::Diag;
use crate::expr::reports_failure;
use crate::lexer::{Token, lex, lexed, lemma_lexed_ends, token_view};
use crate::parser::kinds;
use crate::patch::{Node, apply, decl_span, decl_span_of, fnv, hash, hex16, node_view, nodes, nodes_upto, trailing_newlines};
use crate::text::{byte_slice, lemma_ascii_boundary, lemma_ends_are_boundaries};

verus! {

/// Why a patch is not made.
pub enum PatchError {
    /// No semantic path was given.
    NoPath,
    /// A position of the file, or of the result, cannot be addressed.
    OutOfRange,
    /// No node has the path; these are the paths the file has, in order.
    NoNode(Vec<String>),
    /// A hash was given without a new node.
    NeedBoth,
    /// The node hashes `got` now, not the `want` it was read with.
    Stale { got: String, want: String },
    /// The file, patched into `text`, would no longer read as a module, for
    /// the reason `diag`.
    Refused { diag: Diag, text: String },
}

/// What to do for a patch that is not refused.
pub enum PatchStep {
    /// Print the node: its path and hash, then its text.
    Show { path: String, hash: String, text: String },
    /// Write `text` over the file, then print the path and the new node's hash.
    Write { text: String, path: String, hash: String },
}

/// Every declaration has a span a node can be found from.
pub open spec fn spans_ok(m: Module, b: Seq<u8>) -> bool {
    forall|i: int|
        0 <= i < m.decls@.len() ==> (#[trigger] decl_span_of(m.decls@[i])).line >= 1 && decl_span_of(
            m.decls@[i],
        ).col + b.len() <= usize::MAX
}

/// The nodes of a file.
pub open spec fn file_nodes(m: Module, b: Seq<u8>) -> Seq<(Seq<char>, int, int)> {
    nodes_upto(m, b, m.decls@.len() as int)
}

/// Node `i` is the first with path `p`.
pub open spec fn first_with(ns: Seq<(Seq<char>, int, int)>, p: Seq<char>, i: int) -> bool {
    &&& 0 <= i < ns.len()
    &&& ns[i].0 == p
    &&& forall|j: int| 0 <= j < i ==> ns[j].0 != p
}

/// The first node with path `p`, if any.
pub open spec fn node_named(ns: Seq<(Seq<char>, int, int)>, p: Seq<char>) -> Option<(Seq<char>, int, int)> {
    if exists|i: int| first_with(ns, p, i) {
        Some(ns[choose|i: int| first_with(ns, p, i)])
    } else {
        None
    }
}

/// The node's range holds a whole text of the file.
pub open spec fn in_text(b: Seq<u8>, s: int, e: int) -> bool {
    &&& 0 <= s <= e <= b.len()
    &&& vstd::utf8::is_char_boundary(b, s)
    &&& vstd::utf8::is_char_boundary(b, e)
}

/// The new node as it goes in: less its trailing newlines.
pub open spec fn trimmed(nb: Seq<u8>) -> Seq<u8> {
    nb.take(nb.len() - trailing_newlines(nb))
}

/// The file once the bytes `s..e` are replaced by the trimmed new node.
pub open spec fn patched(b: Seq<u8>, s: int, e: int, nb: Seq<u8>) -> Seq<u8> {
    b.take(s) + trimmed(nb) + b.skip(e)
}

/// Tokens with the views the lexer gave `pb`.
pub open spec fn reads_as(pb: Seq<u8>, file: usize, ts: Seq<Token>) -> bool {
    lexed(pb, file) matches Ok((a, _)) && ts.map_values(|t: Token| token_view(t)) == a
}

/// Why the patched bytes `pb` do not read as a module: `d` reports the
/// lexer's error, or the parser's on the tokens the lexer gave.
pub open spec fn refusal_of(pb: Seq<u8>, file: usize, d: Diag) -> bool {
    ||| lexed(pb, file) matches Err(x) && d.span == x.span && d.code@ == x.code && d.msg@ == x.msg
    ||| exists|ts: Seq<Token>| reads_as(pb, file, ts) && (module_from(ts) matches Err(f) && reports_failure(d, ts, f))
}

proof fn lemma_first_unique(ns: Seq<(Seq<char>, int, int)>, p: Seq<char>, i: int, j: int)
    requires
        first_with(ns, p, i),
        first_with(ns, p, j),
    ensures
        i == j,
{
    if i < j {
        assert(ns[i].0 != p);
    } else if j < i {
        assert(ns[j].0 != p);
    }
}

fn spans_fit(m: &Module, src: &str) -> (r: bool)
    ensures
        r == spans_ok(*m, src.spec_bytes()),
{
    let n = src.as_bytes().len();
    for i in 0..m.decls.len()
        invariant
            n == src.spec_bytes().len(),
            forall|j: int| 0 <= j < i ==> (#[trigger] decl_span_of(m.decls@[j])).line >= 1 && decl_span_of(
                m.decls@[j],
            ).col + src.spec_bytes().len() <= usize::MAX,
    {
        let s = decl_span(&m.decls[i]);
        if s.line < 1 || s.col > usize::MAX - n {
            return false;
        }
    }
    true
}

fn at_boundary(s: &str, i: usize) -> (r: bool)
    requires
        i <= s.spec_bytes().len(),
    ensures
        r == vstd::utf8::is_char_boundary(s.spec_bytes(), i as int),
{
    let b = s.as_bytes();
    proof {
        lemma_ends_are_boundaries(s);
        vstd::utf8::encode_utf8_valid_utf8(s@);
    }
    if i == b.len() {
        return true;
    }
    proof {
        vstd::utf8::is_char_boundary_iff_not_is_continuation_byte(s.spec_bytes(), i as int);
    }
    let x = b[i];
    !(0x80 <= x && x <= 0xbf)
}

fn paths_of(ns: &Vec<Node>) -> (r: Vec<String>)
    ensures
        r@.map_values(|s: String| s@) == ns@.map_values(|n: Node| node_view(n).0),
{
    let mut out: Vec<String> = Vec::new();
    for i in 0..ns.len()
        invariant
            out@.map_values(|s: String| s@) == ns@.map_values(|n: Node| node_view(n).0).take(i as int),
    {
        let ghost prev = out@.map_values(|s: String| s@);
        let p = ns[i].path.clone();
        out.push(p);
        assert(ns@.map_values(|n: Node| node_view(n).0)[i as int] == ns@[i as int].path@);
        assert(out@.map_values(|s: String| s@) =~= prev.push(p@));
        assert(ns@.map_values(|n: Node| node_view(n).0).take(i + 1) =~= ns@.map_values(|n: Node| node_view(n).0).take(
            i as int,
        ).push(ns@[i as int].path@));
    }
    assert(ns@.map_values(|n: Node| node_view(n).0).take(ns@.len() as int) =~= ns@.map_values(
        |n: Node| node_view(n).0,
    ));
    out
}

fn index_of(ns: &Vec<Node>, p: &str) -> (r: Option<usize>)
    ensures
        match r {
            Some(i) => first_with(ns@.map_values(|n: Node| node_view(n)), p@, i as int),
            None => forall|j: int| 0 <= j < ns@.len() ==> ns@[j].path@ != p@,
        },
{
    for i in 0..ns.len()
        invariant
            forall|j: int| 0 <= j < i ==> ns@[j].path@ != p@,
    {
        if crate::text::str_eq(ns[i].path.as_str(), p) {
            let ghost nv = ns@.map_values(|n: Node| node_view(n));
            assert forall|j: int| 0 <= j < i implies nv[j].0 != p@ by {
                assert(nv[j] == node_view(ns@[j]));
            }
            return Some(i);
        }
    }
    None
}

/// The new node less its trailing newlines.
fn trim_newlines(s: &str) -> (r: &str)
    ensures
        r.spec_bytes() == trimmed(s.spec_bytes()),
{
    let b = s.as_bytes();
    let mut k = b.len();
    proof {
        assert(s.spec_bytes().take(k as int) =~= s.spec_bytes());
    }
    while k > 0 && b[k - 1] == 10
        invariant
            k <= s.spec_bytes().len(),
            b@ == s.spec_bytes(),
            forall|j: int| k <= j < s.spec_bytes().len() ==> s.spec_bytes()[j] == 10,
            trailing_newlines(s.spec_bytes()) == (s.spec_bytes().len() - k) + trailing_newlines(
                s.spec_bytes().take(k as int),
            ),
        decreases k,
    {
        assert(s.spec_bytes().take(k as int).drop_last() =~= s.spec_bytes().take(k - 1));
        k -= 1;
    }
    proof {
        lemma_ends_are_boundaries(s);
        if k < s.spec_bytes().len() {
            lemma_ascii_boundary(s, k as int);
        }
    }
    byte_slice(s, 0, k)
}

/// Decides `vibe patch` on the file `src`, read as the module `m`, with the
/// arguments after the file: a semantic path; then, to replace the node, the
/// hash it was read with and the new node. With the path alone the node is
/// shown with its hash. A replacement is refused when the hash is not the
/// node's as it stands, or when the file would no longer read as a module;
/// else the patched file is handed back to be written.
pub fn patch_step(m: &Module, src: &str, file: usize, rest: &[String]) -> (r: Result<PatchStep, PatchError>)
    ensures
        ({
            let b = src.spec_bytes();
            let ns = file_nodes(*m, b);
            if rest@.len() == 0 {
                r matches Err(PatchError::NoPath)
            } else if !spans_ok(*m, b) {
                r matches Err(PatchError::OutOfRange)
            } else {
                let p = rest@[0]@;
                match node_named(ns, p) {
                    None => r matches Err(PatchError::NoNode(v)) && v@.map_values(|s: String| s@)
                        == ns.map_values(|n: (Seq<char>, int, int)| n.0),
                    Some((_, s, e)) => if !in_text(b, s, e) {
                        r matches Err(PatchError::OutOfRange)
                    } else {
                        let h = hex16(fnv(b.subrange(s, e)));
                        if rest@.len() == 1 {
                            r matches Ok(PatchStep::Show { path, hash, text }) && path@ == p && hash@ == h
                                && vstd::utf8::encode_utf8(text@) == b.subrange(s, e)
                        } else if rest@.len() == 2 {
                            r matches Err(PatchError::NeedBoth)
                        } else if rest@[1]@ != h {
                            r matches Err(PatchError::Stale { got, want }) && got@ == h && want@ == rest@[1]@
                        } else {
                            let nb = vstd::utf8::encode_utf8(rest@[2]@);
                            let pb = patched(b, s, e, nb);
                            if pb.len() >= usize::MAX {
                                r matches Err(PatchError::OutOfRange)
                            } else {
                                match r {
                                    Ok(PatchStep::Write { text, path, hash }) => vstd::utf8::encode_utf8(text@)
                                        == pb && path@ == p && hash@ == hex16(fnv(trimmed(nb)))
                                        && exists|ts: Seq<Token>| reads_as(pb, file, ts) && module_from(ts) is Ok,
                                    Err(PatchError::Refused { diag: d, text }) => vstd::utf8::encode_utf8(text@)
                                        == pb && refusal_of(pb, file, d),
                                    _ => false,
                                }
                            }
                        }
                    },
                }
            }
        }),
{
    if rest.len() == 0 {
        return Err(PatchError::NoPath);
    }
    if !spans_fit(m, src) {
        return Err(PatchError::OutOfRange);
    }
    let ghost b = src.spec_bytes();
    let ns = nodes(m, src);
    let ghost nv = ns@.map_values(|n: Node| node_view(n));
    let p = rest[0].as_str();
    let k = match index_of(&ns, p) {
        Some(k) => k,
        None => {
            proof {
                if exists|i: int| first_with(nv, p@, i) {
                    let i = choose|i: int| first_with(nv, p@, i);
                    assert(nv[i] == node_view(ns@[i]));
                }
            }
            let v = paths_of(&ns);
            assert(ns@.map_values(|n: Node| node_view(n).0) =~= nv.map_values(|n: (Seq<char>, int, int)| n.0));
            return Err(PatchError::NoNode(v));
        },
    };
    proof {
        let i = choose|i: int| first_with(nv, p@, i);
        lemma_first_unique(nv, p@, i, k as int);
        assert(nv[k as int] == node_view(ns@[k as int]));
    }
    let node = &ns[k];
    let len = src.as_bytes().len();
    if !(node.start <= node.end && node.end <= len) {
        return Err(PatchError::OutOfRange);
    }
    if !at_boundary(src, node.start) || !at_boundary(src, node.end) {
        return Err(PatchError::OutOfRange);
    }
    let text = node.text(src);
    let h = hash(text);
    if rest.len() == 1 {
        return Ok(PatchStep::Show { path: rest[0].clone(), hash: h, text: crate::text::owned(text) });
    }
    if rest.len() == 2 {
        return Err(PatchError::NeedBoth);
    }
    if !crate::text::str_eq(rest[1].as_str(), h.as_str()) {
        return Err(PatchError::Stale { got: h, want: rest[1].clone() });
    }
    let new = rest[2].as_str();
    let out = apply(src, node, new);
    if out.as_str().as_bytes().len() == usize::MAX {
        return Err(PatchError::OutOfRange);
    }
    let trimmed_new = trim_newlines(new);
    let nh = hash(trimmed_new);
    match lex(out.as_str(), file) {
        Err(d) => Err(PatchError::Refused { diag: d, text: out }),
        Ok(toks) => {
            proof {
                lemma_lexed_ends(vstd::utf8::encode_utf8(out@), file);
                let a = toks@.map_values(|t: Token| token_view(t));
                assert(a.last() == token_view(toks@[toks@.len() - 1]));
                assert(kinds(toks@).last() == toks@[toks@.len() - 1].tok@);
                assert(reads_as(vstd::utf8::encode_utf8(out@), file, toks@));
            }
            let ghost ts = toks@;
            match parse(toks) {
                Ok(_) => Ok(PatchStep::Write { text: out, path: rest[0].clone(), hash: nh }),
                Err(d) => Err(PatchError::Refused { diag: d, text: out }),
            }
        },
    }
}

} // verus!
