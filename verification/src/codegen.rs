//! The C back end's small pieces: names and literals in C, the runtime's
//! builtins, and how values cross the boundary to and from C.

use vstd::prelude::*;
use vstd::string::StringSliceAdditionalSpecFns;
use crate::ast::{Expr, ExprKind, Ty, TyV, copy_ty, tys_view, lemma_tys_view, Pat, pats_view, lemma_pats_view, pat_names_of, pats_names_of};
use crate::types::{T, TV, copy_t, normalise_type_name, normalised, ts_view};
use crate::text::{
    chars_of, hex_digit, join, lines, lines_of, owned, push_char, push_hex_digit, push_joined,
    push_repeat, push_str, repeat, str_eq,
};

verus! {

// ------------------------------------------------------------------ names

/// std's `u8::is_ascii_alphanumeric` on a character.
pub open spec fn ascii_alnum(c: char) -> bool {
    ('0' <= c && c <= '9') || ('a' <= c && c <= 'z') || ('A' <= c && c <= 'Z')
}

pub open spec fn cname_char(c: char) -> char {
    if ascii_alnum(c) || c == '_' {
        c
    } else {
        '_'
    }
}

/// A name as a C identifier: every character that cannot stand in one
/// becomes `_`.
pub open spec fn cname_text(n: Seq<char>) -> Seq<char> {
    n.map_values(|c: char| cname_char(c))
}

pub fn cname(n: &str) -> (r: String)
    ensures
        r@ == cname_text(n@),
{
    let cs = chars_of(n);
    let mut out = String::new();
    for i in 0..cs.len()
        invariant
            cs@ == n@,
            out@ == cname_text(cs@.take(i as int)),
    {
        let c = cs[i];
        let k = if ('0' <= c && c <= '9') || ('a' <= c && c <= 'z') || ('A' <= c && c <= 'Z') || c
            == '_' {
            c
        } else {
            '_'
        };
        push_char(&mut out, k);
        assert(out@ =~= cname_text(cs@.take(i + 1)));
    }
    assert(cs@.take(cs@.len() as int) == cs@);
    out
}

/// How one byte of a string is written inside a C string literal. A byte
/// outside printable ASCII becomes a hex escape, closed off by `""` so that a
/// hex digit after it is not read as part of it.
pub open spec fn cbyte_text(b: u8) -> Seq<char> {
    if b == 0x22 {
        "\\\""@
    } else if b == 0x5c {
        "\\\\"@
    } else if b == 0x0a {
        "\\n"@
    } else if b == 0x09 {
        "\\t"@
    } else if b == 0x0d {
        "\\r"@
    } else if 0x20 <= b && b <= 0x7e {
        seq![b as char]
    } else {
        "\\x"@ + seq![hex_digit((b / 16) as nat), hex_digit((b % 16) as nat)] + "\"\""@
    }
}

pub open spec fn cbytes_text(bs: Seq<u8>) -> Seq<char>
    decreases bs.len(),
{
    if bs.len() == 0 {
        Seq::empty()
    } else {
        cbytes_text(bs.drop_last()) + cbyte_text(bs.last())
    }
}

/// A C string literal holding the bytes of `s`.
pub open spec fn cstring_text(s: Seq<char>) -> Seq<char> {
    "\""@ + cbytes_text(vstd::utf8::encode_utf8(s)) + "\""@
}

/// A name made a C identifier is one: as long as the name, and only ASCII
/// letters, digits and `_`.
pub proof fn lemma_cname_is_identifier(n: Seq<char>)
    ensures
        cname_text(n).len() == n.len(),
        forall|i: int| 0 <= i < n.len() ==> ascii_alnum(#[trigger] cname_text(n)[i]) || cname_text(
            n,
        )[i] == '_',
{
}

/// Printable ASCII, the only characters a generated C literal holds.
pub open spec fn printable(s: Seq<char>) -> bool {
    forall|i: int| 0 <= i < s.len() ==> ' ' <= #[trigger] s[i] && s[i] <= '~'
}

proof fn lemma_cbyte_printable(b: u8)
    ensures
        printable(cbyte_text(b)),
{
    reveal_strlit("\\\"");
    reveal_strlit("\\\\");
    reveal_strlit("\\n");
    reveal_strlit("\\t");
    reveal_strlit("\\r");
    reveal_strlit("\\x");
    reveal_strlit("\"\"");
    assert((b / 16) < 16 && (b % 16) < 16);
    if !(b == 0x22 || b == 0x5c || b == 0x0a || b == 0x09 || b == 0x0d || (0x20 <= b && b <= 0x7e)) {
        let t = cbyte_text(b);
        assert(t == "\\x"@ + seq![hex_digit((b / 16) as nat), hex_digit((b % 16) as nat)] + "\"\""@);
        assert(t[2] == hex_digit((b / 16) as nat));
        assert(t[3] == hex_digit((b % 16) as nat));
    }
}

proof fn lemma_cbytes_printable(bs: Seq<u8>)
    ensures
        printable(cbytes_text(bs)),
    decreases bs.len(),
{
    if bs.len() > 0 {
        lemma_cbytes_printable(bs.drop_last());
        lemma_cbyte_printable(bs.last());
        let a = cbytes_text(bs.drop_last());
        let b = cbyte_text(bs.last());
        assert forall|i: int| 0 <= i < (a + b).len() implies ' ' <= #[trigger] (a + b)[i] && (a + b)[i]
            <= '~' by {
            if i < a.len() {
                assert((a + b)[i] == a[i]);
            } else {
                assert((a + b)[i] == b[i - a.len()]);
            }
        }
    }
}

/// A C string literal holds printable ASCII only: every other byte of the
/// string is written as an escape.
pub proof fn lemma_cstring_printable(s: Seq<char>)
    ensures
        printable(cstring_text(s)),
{
    reveal_strlit("\"");
    let mid = cbytes_text(vstd::utf8::encode_utf8(s));
    lemma_cbytes_printable(vstd::utf8::encode_utf8(s));
    let t = cstring_text(s);
    assert forall|i: int| 0 <= i < t.len() implies ' ' <= #[trigger] t[i] && t[i] <= '~' by {
        if i == 0 || i == t.len() - 1 {
        } else {
            assert(t[i] == mid[i - 1]);
        }
    }
}

pub fn cstring(s: &str) -> (r: String)
    ensures
        r@ == cstring_text(s@),
{
    let bs = s.as_bytes();
    let mut o = owned("\"");
    for i in 0..bs.len()
        invariant
            bs@ == s.spec_bytes(),
            o@ == "\""@ + cbytes_text(bs@.take(i as int)),
    {
        let b = bs[i];
        assert(bs@.take(i + 1).drop_last() == bs@.take(i as int));
        if b == 0x22 {
            push_str(&mut o, "\\\"");
        } else if b == 0x5c {
            push_str(&mut o, "\\\\");
        } else if b == 0x0a {
            push_str(&mut o, "\\n");
        } else if b == 0x09 {
            push_str(&mut o, "\\t");
        } else if b == 0x0d {
            push_str(&mut o, "\\r");
        } else if 0x20 <= b && b <= 0x7e {
            push_char(&mut o, b as char);
        } else {
            push_str(&mut o, "\\x");
            push_hex_digit(&mut o, (b / 16) as u32);
            push_hex_digit(&mut o, (b % 16) as u32);
            push_str(&mut o, "\"\"");
        }
        assert(o@ =~= "\""@ + cbytes_text(bs@.take(i + 1)));
    }
    assert(bs@.take(bs@.len() as int) == bs@);
    push_str(&mut o, "\"");
    o
}

/// Each line of a text, indented by `n` spaces and ended by a newline; an
/// empty line stays empty.
pub open spec fn indented(ls: Seq<Seq<char>>, n: nat) -> Seq<char>
    decreases ls.len(),
{
    if ls.len() == 0 {
        Seq::empty()
    } else {
        indented(ls.drop_last(), n) + if ls.last().len() == 0 {
            "\n"@
        } else {
            repeat(' ', n) + ls.last() + "\n"@
        }
    }
}

pub fn indent(s: &str, n: usize) -> (r: String)
    ensures
        r@ == indented(lines(s@), n as nat),
{
    let ls = lines_of(s);
    let ghost lv = ls@.map_values(|l: String| l@);
    let mut out = String::new();
    for i in 0..ls.len()
        invariant
            lv == ls@.map_values(|l: String| l@),
            out@ == indented(lv.take(i as int), n as nat),
    {
        assert(lv.take(i + 1).drop_last() == lv.take(i as int));
        assert(lv[i as int] == ls@[i as int]@);
        let l = ls[i].as_str();
        if l.is_empty() {
            push_str(&mut out, "\n");
        } else {
            push_repeat(&mut out, ' ', n);
            push_str(&mut out, l);
            push_str(&mut out, "\n");
        }
        assert(out@ =~= indented(lv.take(i + 1), n as nat));
    }
    assert(lv.take(ls@.len() as int) == lv);
    out
}

// ------------------------------------------------------------------ types

/// How many arguments a written function type takes.
pub open spec fn arity(t: TyV) -> nat
    decreases t,
{
    match t {
        TyV::Fun(_, r) => 1 + arity(*r),
        _ => 0,
    }
}

pub fn fn_arity(t: &Ty) -> (r: usize)
    requires
        arity(t@) <= usize::MAX,
    ensures
        r == arity(t@),
    decreases t,
{
    match t {
        Ty::Fun(_, r) => 1 + fn_arity(r),
        _ => 0,
    }
}

/// The parameter types of a written function type, outermost first.
pub open spec fn params_of(t: TyV) -> Seq<TyV>
    decreases t,
{
    match t {
        TyV::Fun(a, r) => seq![*a] + params_of(*r),
        _ => Seq::empty(),
    }
}

/// What a written function type finally returns.
pub open spec fn result_of(t: TyV) -> TyV
    decreases t,
{
    match t {
        TyV::Fun(_, r) => result_of(*r),
        _ => t,
    }
}

pub fn flatten_fn(t: &Ty) -> (r: (Vec<Ty>, Ty))
    ensures
        tys_view(r.0@) == params_of(t@),
        r.1@ == result_of(t@),
    decreases t,
{
    match t {
        Ty::Fun(a, r) => {
            let (mut ps, ret) = flatten_fn(r);
            let ghost before = ps@;
            proof {
                lemma_tys_view(before);
            }
            ps.insert(0, copy_ty(a));
            proof {
                lemma_tys_view(ps@);
                assert(tys_view(ps@) =~= seq![a@] + tys_view(before));
            }
            (ps, ret)
        },
        _ => {
            let v: Vec<Ty> = Vec::new();
            assert(tys_view(v@) =~= Seq::<TyV>::empty());
            (v, copy_ty(t))
        },
    }
}

/// A type without the `E!` and `&` around it.
pub open spec fn stripped(t: TyV) -> TyV
    decreases t,
{
    match t {
        TyV::Eff(x) => stripped(*x),
        TyV::Ref(x) => stripped(*x),
        _ => t,
    }
}

pub fn strip_eff(t: &Ty) -> (r: Ty)
    ensures
        r@ == stripped(t@),
    decreases t,
{
    match t {
        Ty::Eff(x) => strip_eff(x),
        Ty::Ref(x) => strip_eff(x),
        _ => copy_ty(t),
    }
}

pub fn is_unit(t: &Ty) -> (r: bool)
    ensures
        r == (t@ matches TyV::Con(n, _) && n == "Unit"@),
{
    match t {
        Ty::Con(n, _) => str_eq(n.as_str(), "Unit"),
        _ => false,
    }
}

/// A written type as it reads in a generated comment: every argument
/// written out in full.
pub open spec fn ty_show_text(t: TyV) -> Seq<char>
    decreases t, 0int,
{
    match t {
        TyV::Con(n, a) => if a.len() == 0 {
            n
        } else {
            n + " "@ + join(ty_shows_text(a), " "@)
        },
        TyV::Var(n) => n,
        TyV::Ref(x) => "&"@ + ty_show_text(*x),
        TyV::Eff(x) => "E! "@ + ty_show_text(*x),
        TyV::Fun(a, b) => ty_show_text(*a) + " -> "@ + ty_show_text(*b),
        TyV::Tuple(ts) => "("@ + join(ty_shows_text(ts), ", "@) + ")"@,
    }
}

pub open spec fn ty_shows_text(ts: Seq<TyV>) -> Seq<Seq<char>>
    decreases ts, 1int,
{
    if ts.len() == 0 {
        Seq::empty()
    } else {
        ty_shows_text(ts.drop_last()).push(ty_show_text(ts.last()))
    }
}

pub fn ty_show(t: &Ty) -> (r: String)
    ensures
        r@ == ty_show_text(t@),
    decreases t, 0int,
{
    match t {
        Ty::Con(n, a) => {
            proof {
                lemma_tys_view(a@);
            }
            if a.len() == 0 {
                return n.clone();
            }
            let parts = ty_shows(a);
            let mut s = n.clone();
            push_str(&mut s, " ");
            push_joined(&mut s, parts.as_slice(), " ");
            s
        },
        Ty::Var(n) => n.clone(),
        Ty::Ref(x) => {
            let mut s = owned("&");
            let rx = ty_show(x);
            push_str(&mut s, rx.as_str());
            s
        },
        Ty::Eff(x) => {
            let mut s = owned("E! ");
            let rx = ty_show(x);
            push_str(&mut s, rx.as_str());
            s
        },
        Ty::Fun(a, b) => {
            let mut s = ty_show(a);
            push_str(&mut s, " -> ");
            let rb = ty_show(b);
            push_str(&mut s, rb.as_str());
            s
        },
        Ty::Tuple(ts) => {
            let parts = ty_shows(ts);
            let mut s = owned("(");
            push_joined(&mut s, parts.as_slice(), ", ");
            push_str(&mut s, ")");
            s
        },
    }
}

fn ty_shows(ts: &Vec<Ty>) -> (r: Vec<String>)
    ensures
        r@.map_values(|s: String| s@) == ty_shows_text(tys_view(ts@)),
    decreases ts, 1int,
{
    let mut out: Vec<String> = Vec::new();
    for i in 0..ts.len()
        invariant
            out@.map_values(|s: String| s@) == ty_shows_text(tys_view(ts@.take(i as int))),
    {
        proof {
            assert(decreases_to!(ts => ts@[i as int]));
        }
        let ghost prev = out@;
        let a = ty_show(&ts[i]);
        out.push(a);
        proof {
            assert(ts@.take(i + 1).drop_last() == ts@.take(i as int));
            let v1 = tys_view(ts@.take(i + 1));
            assert(v1.drop_last() == tys_view(ts@.take(i as int)));
            assert(v1.last() == ts@[i as int]@);
            assert(out@.drop_last() == prev);
        }
        assert(out@.map_values(|s: String| s@) =~= prev.map_values(|s: String| s@).push(a@));
    }
    assert(ts@.take(ts@.len() as int) == ts@);
    out
}

// ------------------------------------------------------------ the boundary

/// What goes before a value being handed to a C function, by the value's
/// (normalised) type name; after it comes `)`.
pub open spec fn unbox_prefix(n: Seq<char>) -> Option<Seq<char>> {
    if n == "U8"@ {
        Some("(uint8_t)vb_as_uint("@)
    } else if n == "U16"@ {
        Some("(uint16_t)vb_as_uint("@)
    } else if n == "U32"@ {
        Some("(uint32_t)vb_as_uint("@)
    } else if n == "U64"@ {
        Some("(uint64_t)vb_as_uint("@)
    } else if n == "I8"@ {
        Some("(int8_t)vb_as_int("@)
    } else if n == "I16"@ {
        Some("(int16_t)vb_as_int("@)
    } else if n == "I32"@ {
        Some("(int32_t)vb_as_int("@)
    } else if n == "I64"@ {
        Some("(int64_t)vb_as_int("@)
    } else if n == "F32"@ {
        Some("(float)vb_as_float("@)
    } else if n == "F64"@ {
        Some("(double)vb_as_float("@)
    } else if n == "Bool"@ {
        Some("vb_as_bool("@)
    } else if n == "Char"@ {
        Some("(char)vb_as_int("@)
    } else if n == "CStr"@ || n == "Str"@ {
        Some("vb_as_cstr("@)
    } else if n == "Ptr"@ {
        Some("vb_as_ptr("@)
    } else {
        None
    }
}

fn unbox_prefix_of(n: &str) -> (r: Option<&'static str>)
    ensures
        match r {
            Some(p) => unbox_prefix(n@) == Some(p@),
            None => unbox_prefix(n@) is None,
        },
{
    if str_eq(n, "U8") {
        Some("(uint8_t)vb_as_uint(")
    } else if str_eq(n, "U16") {
        Some("(uint16_t)vb_as_uint(")
    } else if str_eq(n, "U32") {
        Some("(uint32_t)vb_as_uint(")
    } else if str_eq(n, "U64") {
        Some("(uint64_t)vb_as_uint(")
    } else if str_eq(n, "I8") {
        Some("(int8_t)vb_as_int(")
    } else if str_eq(n, "I16") {
        Some("(int16_t)vb_as_int(")
    } else if str_eq(n, "I32") {
        Some("(int32_t)vb_as_int(")
    } else if str_eq(n, "I64") {
        Some("(int64_t)vb_as_int(")
    } else if str_eq(n, "F32") {
        Some("(float)vb_as_float(")
    } else if str_eq(n, "F64") {
        Some("(double)vb_as_float(")
    } else if str_eq(n, "Bool") {
        Some("vb_as_bool(")
    } else if str_eq(n, "Char") {
        Some("(char)vb_as_int(")
    } else if str_eq(n, "CStr") || str_eq(n, "Str") {
        Some("vb_as_cstr(")
    } else if str_eq(n, "Ptr") {
        Some("vb_as_ptr(")
    } else {
        None
    }
}

/// A runtime value `v` converted for a C parameter of type `t`; `None` for
/// a type that has no C form.
pub open spec fn c_unbox_text(t: TyV, v: Seq<char>) -> Option<Seq<char>> {
    match stripped(t) {
        TyV::Con(n, _) => match unbox_prefix(normalised(n)) {
            Some(p) => Some(p + v + ")"@),
            None => None,
        },
        _ => None,
    }
}

pub fn c_unbox(t: &Ty, v: &str) -> (r: Option<String>)
    ensures
        match r {
            Some(s) => c_unbox_text(t@, v@) == Some(s@),
            None => c_unbox_text(t@, v@) is None,
        },
{
    let t = strip_eff(t);
    match &t {
        Ty::Con(n, _) => {
            let n = normalise_type_name(n.as_str());
            match unbox_prefix_of(n.as_str()) {
                Some(p) => {
                    let mut s = owned(p);
                    push_str(&mut s, v);
                    push_str(&mut s, ")");
                    Some(s)
                },
                None => None,
            }
        },
        _ => None,
    }
}

/// What goes around a C expression of a given (normalised) type name to make
/// it a runtime value.
pub open spec fn box_parts(n: Seq<char>) -> Option<(Seq<char>, Seq<char>)> {
    if n == "U8"@ || n == "U16"@ || n == "U32"@ || n == "U64"@ {
        Some(("vb_uint((uint64_t)("@, "))"@))
    } else if n == "I8"@ || n == "I16"@ || n == "I32"@ || n == "I64"@ {
        Some(("vb_int((int64_t)("@, "))"@))
    } else if n == "F32"@ || n == "F64"@ {
        Some(("vb_float((double)("@, "))"@))
    } else if n == "Bool"@ {
        Some(("vb_bool(("@, ") ? true : false)"@))
    } else if n == "Char"@ {
        Some(("vb_char((uint32_t)("@, "))"@))
    } else if n == "CStr"@ {
        Some(("vb_cstr_val((const char *)("@, "))"@))
    } else if n == "Str"@ {
        Some(("vb_strz((const char *)("@, "))"@))
    } else if n == "Ptr"@ {
        Some(("vb_ptr((void *)("@, "))"@))
    } else {
        None
    }
}

fn box_parts_of(n: &str) -> (r: Option<(&'static str, &'static str)>)
    ensures
        match r {
            Some((a, b)) => box_parts(n@) == Some((a@, b@)),
            None => box_parts(n@) is None,
        },
{
    if str_eq(n, "U8") || str_eq(n, "U16") || str_eq(n, "U32") || str_eq(n, "U64") {
        Some(("vb_uint((uint64_t)(", "))"))
    } else if str_eq(n, "I8") || str_eq(n, "I16") || str_eq(n, "I32") || str_eq(n, "I64") {
        Some(("vb_int((int64_t)(", "))"))
    } else if str_eq(n, "F32") || str_eq(n, "F64") {
        Some(("vb_float((double)(", "))"))
    } else if str_eq(n, "Bool") {
        Some(("vb_bool((", ") ? true : false)"))
    } else if str_eq(n, "Char") {
        Some(("vb_char((uint32_t)(", "))"))
    } else if str_eq(n, "CStr") {
        Some(("vb_cstr_val((const char *)(", "))"))
    } else if str_eq(n, "Str") {
        Some(("vb_strz((const char *)(", "))"))
    } else if str_eq(n, "Ptr") {
        Some(("vb_ptr((void *)(", "))"))
    } else {
        None
    }
}

/// A C expression of type `t` converted back to a runtime value; `None` for
/// a type that has no C form.
pub open spec fn c_box_text(t: TyV, e: Seq<char>) -> Option<Seq<char>> {
    match stripped(t) {
        TyV::Con(n, _) => match box_parts(normalised(n)) {
            Some((a, b)) => Some(a + e + b),
            None => None,
        },
        _ => None,
    }
}

pub fn c_box(t: &Ty, expr: &str) -> (r: Option<String>)
    ensures
        match r {
            Some(s) => c_box_text(t@, expr@) == Some(s@),
            None => c_box_text(t@, expr@) is None,
        },
{
    let t = strip_eff(t);
    match &t {
        Ty::Con(n, _) => {
            let n = normalise_type_name(n.as_str());
            match box_parts_of(n.as_str()) {
                Some((a, b)) => {
                    let mut s = owned(a);
                    push_str(&mut s, expr);
                    push_str(&mut s, b);
                    Some(s)
                },
                None => None,
            }
        },
        _ => None,
    }
}

/// The C type an exported function uses for a scalar type name; anything
/// else stays a runtime value.
pub open spec fn c_scalar(n: Seq<char>) -> Seq<char> {
    if n == "U8"@ {
        "uint8_t"@
    } else if n == "U16"@ {
        "uint16_t"@
    } else if n == "U32"@ {
        "uint32_t"@
    } else if n == "U64"@ {
        "uint64_t"@
    } else if n == "I8"@ {
        "int8_t"@
    } else if n == "I16"@ {
        "int16_t"@
    } else if n == "I32"@ {
        "int32_t"@
    } else if n == "I64"@ {
        "int64_t"@
    } else if n == "F32"@ {
        "float"@
    } else if n == "F64"@ {
        "double"@
    } else if n == "Bool"@ {
        "bool"@
    } else if n == "Char"@ {
        "char"@
    } else if n == "CStr"@ {
        "const char *"@
    } else if n == "Unit"@ {
        "void"@
    } else {
        "VbVal"@
    }
}

fn c_scalar_of(n: &str) -> (r: &'static str)
    ensures
        r@ == c_scalar(n@),
{
    if str_eq(n, "U8") {
        "uint8_t"
    } else if str_eq(n, "U16") {
        "uint16_t"
    } else if str_eq(n, "U32") {
        "uint32_t"
    } else if str_eq(n, "U64") {
        "uint64_t"
    } else if str_eq(n, "I8") {
        "int8_t"
    } else if str_eq(n, "I16") {
        "int16_t"
    } else if str_eq(n, "I32") {
        "int32_t"
    } else if str_eq(n, "I64") {
        "int64_t"
    } else if str_eq(n, "F32") {
        "float"
    } else if str_eq(n, "F64") {
        "double"
    } else if str_eq(n, "Bool") {
        "bool"
    } else if str_eq(n, "Char") {
        "char"
    } else if str_eq(n, "CStr") {
        "const char *"
    } else if str_eq(n, "Unit") {
        "void"
    } else {
        "VbVal"
    }
}

/// The C type of an inferred type at the exported ABI.
pub open spec fn c_type_text(t: TV) -> Seq<char>
    decreases t,
{
    match t {
        TV::Con(n, _) => c_scalar(n),
        TV::Eff(x) => c_type_text(*x),
        _ => "VbVal"@,
    }
}

pub fn c_type(t: &T) -> (r: String)
    ensures
        r@ == c_type_text(t@),
    decreases t,
{
    match t {
        T::Con(n, _) => owned(c_scalar_of(n.as_str())),
        T::Eff(x) => c_type(x),
        _ => owned("VbVal"),
    }
}

/// What goes around an exported function's C argument of a scalar type
/// name to make it a runtime value.
pub open spec fn arg_box_parts(n: Seq<char>) -> Option<(Seq<char>, Seq<char>)> {
    if n == "U8"@ || n == "U16"@ || n == "U32"@ || n == "U64"@ {
        Some(("vb_uint((uint64_t)"@, ")"@))
    } else if n == "I8"@ || n == "I16"@ || n == "I32"@ || n == "I64"@ {
        Some(("vb_int((int64_t)"@, ")"@))
    } else if n == "F32"@ || n == "F64"@ {
        Some(("vb_float((double)"@, ")"@))
    } else if n == "Bool"@ {
        Some(("vb_bool("@, ")"@))
    } else if n == "Char"@ {
        Some(("vb_char((uint32_t)"@, ")"@))
    } else if n == "CStr"@ {
        Some(("vb_cstr_val("@, ")"@))
    } else {
        None
    }
}

fn arg_box_parts_of(n: &str) -> (r: Option<(&'static str, &'static str)>)
    ensures
        match r {
            Some((a, b)) => arg_box_parts(n@) == Some((a@, b@)),
            None => arg_box_parts(n@) is None,
        },
{
    if str_eq(n, "U8") || str_eq(n, "U16") || str_eq(n, "U32") || str_eq(n, "U64") {
        Some(("vb_uint((uint64_t)", ")"))
    } else if str_eq(n, "I8") || str_eq(n, "I16") || str_eq(n, "I32") || str_eq(n, "I64") {
        Some(("vb_int((int64_t)", ")"))
    } else if str_eq(n, "F32") || str_eq(n, "F64") {
        Some(("vb_float((double)", ")"))
    } else if str_eq(n, "Bool") {
        Some(("vb_bool(", ")"))
    } else if str_eq(n, "Char") {
        Some(("vb_char((uint32_t)", ")"))
    } else if str_eq(n, "CStr") {
        Some(("vb_cstr_val(", ")"))
    } else {
        None
    }
}

/// An exported function's C argument `v` of type `t` as a runtime value.
pub open spec fn box_expr_text(t: TV, v: Seq<char>) -> Seq<char>
    decreases t,
{
    match t {
        TV::Con(n, _) => match arg_box_parts(n) {
            Some((a, b)) => a + v + b,
            None => v,
        },
        TV::Eff(x) => box_expr_text(*x, v),
        _ => v,
    }
}

pub fn box_expr(t: &T, v: &str) -> (r: String)
    ensures
        r@ == box_expr_text(t@, v@),
    decreases t,
{
    match t {
        T::Con(n, _) => match arg_box_parts_of(n.as_str()) {
            Some((a, b)) => {
                let mut s = owned(a);
                push_str(&mut s, v);
                push_str(&mut s, b);
                s
            },
            None => owned(v),
        },
        T::Eff(x) => box_expr(x, v),
        _ => owned(v),
    }
}

pub open spec fn unsigned_name(n: Seq<char>) -> bool {
    n == "U8"@ || n == "U16"@ || n == "U32"@ || n == "U64"@
}

pub open spec fn signed_name(n: Seq<char>) -> bool {
    n == "I8"@ || n == "I16"@ || n == "I32"@ || n == "I64"@ || n == "Char"@
}

/// How an exported function hands its result `r` back to C.
pub open spec fn unbox_return_text(t: TV) -> Seq<char>
    decreases t,
{
    match t {
        TV::Eff(x) => unbox_return_text(*x),
        TV::Con(n, _) => if n == "Unit"@ {
            "(void)r;"@
        } else if unsigned_name(n) {
            "return ("@ + c_scalar(n) + ")vb_as_uint(r);"@
        } else if signed_name(n) {
            "return ("@ + c_scalar(n) + ")vb_as_int(r);"@
        } else if n == "F32"@ || n == "F64"@ {
            "return ("@ + c_scalar(n) + ")vb_as_float(r);"@
        } else if n == "Bool"@ {
            "return vb_as_bool(r);"@
        } else if n == "CStr"@ {
            "return vb_as_cstr(r);"@
        } else {
            "return r;"@
        },
        _ => "return r;"@,
    }
}

pub fn unbox_return(t: &T) -> (r: String)
    ensures
        r@ == unbox_return_text(t@),
    decreases t,
{
    match t {
        T::Eff(x) => unbox_return(x),
        T::Con(n, _) => {
            let n = n.as_str();
            let cast = |conv: &str| -> (s: String)
                ensures
                    s@ == "return ("@ + c_scalar(n@) + ")"@ + conv@ + "(r);"@,
                {
                    let mut s = owned("return (");
                    push_str(&mut s, c_scalar_of(n));
                    push_str(&mut s, ")");
                    push_str(&mut s, conv);
                    push_str(&mut s, "(r);");
                    s
                };
            if str_eq(n, "Unit") {
                owned("(void)r;")
            } else if str_eq(n, "U8") || str_eq(n, "U16") || str_eq(n, "U32") || str_eq(n, "U64") {
                let s = cast("vb_as_uint");
                proof {
                    reveal_strlit("vb_as_uint");
                    reveal_strlit("(r);");
                    reveal_strlit(")vb_as_uint(r);");
                    reveal_strlit(")");
                }
                assert(s@ =~= "return ("@ + c_scalar(n@) + ")vb_as_uint(r);"@);
                s
            } else if str_eq(n, "I8") || str_eq(n, "I16") || str_eq(n, "I32") || str_eq(n, "I64")
                || str_eq(n, "Char") {
                let s = cast("vb_as_int");
                proof {
                    reveal_strlit("vb_as_int");
                    reveal_strlit("(r);");
                    reveal_strlit(")vb_as_int(r);");
                    reveal_strlit(")");
                }
                assert(s@ =~= "return ("@ + c_scalar(n@) + ")vb_as_int(r);"@);
                s
            } else if str_eq(n, "F32") || str_eq(n, "F64") {
                let s = cast("vb_as_float");
                proof {
                    reveal_strlit("vb_as_float");
                    reveal_strlit("(r);");
                    reveal_strlit(")vb_as_float(r);");
                    reveal_strlit(")");
                }
                assert(s@ =~= "return ("@ + c_scalar(n@) + ")vb_as_float(r);"@);
                s
            } else if str_eq(n, "Bool") {
                owned("return vb_as_bool(r);")
            } else if str_eq(n, "CStr") {
                owned("return vb_as_cstr(r);")
            } else {
                owned("return r;")
            }
        },
        _ => owned("return r;"),
    }
}

/// The first `n` parameter types of an inferred function type, as far as it
/// has them, and what is left after them.
pub open spec fn split_params(t: TV, n: nat) -> Seq<TV>
    decreases n,
{
    if n == 0 {
        Seq::empty()
    } else {
        match t {
            TV::Fun(a, r) => seq![*a] + split_params(*r, (n - 1) as nat),
            _ => Seq::empty(),
        }
    }
}

pub open spec fn split_rest(t: TV, n: nat) -> TV
    decreases n,
{
    if n == 0 {
        t
    } else {
        match t {
            TV::Fun(_, r) => split_rest(*r, (n - 1) as nat),
            _ => t,
        }
    }
}

pub fn split_fn(t: &T, n: usize) -> (r: (Vec<T>, T))
    ensures
        ts_view(r.0@) == split_params(t@, n as nat),
        r.1@ == split_rest(t@, n as nat),
{
    let mut ps: Vec<T> = Vec::new();
    let mut cur = copy_t(t);
    let mut i: usize = 0;
    assert(ts_view(ps@) =~= Seq::<TV>::empty());
    while i < n
        invariant
            i <= n,
            ts_view(ps@) + split_params(cur@, (n - i) as nat) == split_params(t@, n as nat),
            split_rest(cur@, (n - i) as nat) == split_rest(t@, n as nat),
        decreases n - i,
    {
        match cur {
            T::Fun(a, r) => {
                let ghost before = ts_view(ps@);
                let ghost prev = ps@;
                ps.push(*a);
                assert(ps@.drop_last() == prev);
                assert(ts_view(ps@) == before.push(a@));
                cur = *r;
                assert(before.push(a@) + split_params(cur@, (n - i - 1) as nat) =~= before + (seq![a@]
                    + split_params(cur@, (n - i - 1) as nat)));
                i += 1;
            },
            other => {
                cur = other;
                assert(split_params(cur@, (n - i) as nat) == Seq::<TV>::empty());
                assert(ts_view(ps@) + Seq::<TV>::empty() == ts_view(ps@));
                return (ps, cur);
            },
        }
    }
    assert(ts_view(ps@) + Seq::<TV>::empty() == ts_view(ps@));
    (ps, cur)
}

// ------------------------------------------------------------------ builtins

/// The runtime builtins: a name's arity and the C call it becomes. `$0`..
/// `$n` stand for the arguments, `$P` for the semantic path that run-time
/// obligation messages name.
pub open spec fn builtin_of(name: Seq<char>) -> Option<(nat, Seq<char>)> {
    if name == "empty"@ {
        Some((0, "vb_vec_new()"@))
    } else if name == "single"@ {
        Some((1, "vb_single($0)"@))
    } else if name == "push"@ {
        Some((2, "vb_push($0, $1)"@))
    } else if name == "get"@ {
        Some((2, "vb_get($0, $1, $P)"@))
    } else if name == "set"@ {
        Some((3, "vb_set($0, $1, $2, $P)"@))
    } else if name == "map"@ {
        Some((2, "vb_map($0, $1)"@))
    } else if name == "filter"@ {
        Some((2, "vb_filter($0, $1)"@))
    } else if name == "fold"@ {
        Some((3, "vb_fold($0, $1, $2)"@))
    } else if name == "each"@ {
        Some((2, "vb_each($0, $1)"@))
    } else if name == "sum"@ {
        Some((1, "vb_sum($0)"@))
    } else if name == "max_by"@ {
        Some((2, "vb_max_by($0, $1, $P)"@))
    } else if name == "min_by"@ {
        Some((2, "vb_min_by($0, $1, $P)"@))
    } else if name == "sort_by"@ {
        Some((2, "vb_sort_by($0, $1)"@))
    } else if name == "rev"@ {
        Some((1, "vb_rev($0)"@))
    } else if name == "concat_vec"@ {
        Some((2, "vb_concat_vec($0, $1)"@))
    } else if name == "seq"@ {
        Some((1, "vb_seq($0)"@))
    } else if name == "range"@ {
        Some((2, "vb_range($0, $1)"@))
    } else if name == "split"@ {
        Some((2, "vb_split($0, $1)"@))
    } else if name == "lines"@ {
        Some((1, "vb_lines($0)"@))
    } else if name == "dup"@ {
        Some((1, "vb_dup($0)"@))
    } else if name == "concat"@ {
        Some((2, "vb_concat($0, $1)"@))
    } else if name == "trim"@ {
        Some((1, "vb_trim($0)"@))
    } else if name == "starts_with"@ {
        Some((2, "vb_starts_with($0, $1)"@))
    } else if name == "contains"@ {
        Some((2, "vb_contains($0, $1)"@))
    } else if name == "to_cstr"@ {
        Some((1, "vb_to_cstr($0)"@))
    } else if name == "from_cstr"@ {
        Some((1, "vb_from_cstr($0)"@))
    } else if name == "chr"@ {
        Some((1, "vb_chr($0)"@))
    } else if name == "f32"@ {
        Some((1, "vb_to_f32($0)"@))
    } else if name == "f64"@ {
        Some((1, "vb_to_f64($0)"@))
    } else if name == "i8"@ {
        Some((1, "vb_to_signed($0, 8)"@))
    } else if name == "i16"@ {
        Some((1, "vb_to_signed($0, 16)"@))
    } else if name == "i32"@ {
        Some((1, "vb_to_signed($0, 32)"@))
    } else if name == "i64"@ {
        Some((1, "vb_to_signed($0, 64)"@))
    } else if name == "u8"@ {
        Some((1, "vb_to_unsigned($0, 8)"@))
    } else if name == "u16"@ {
        Some((1, "vb_to_unsigned($0, 16)"@))
    } else if name == "u32"@ {
        Some((1, "vb_to_unsigned($0, 32)"@))
    } else if name == "u64"@ || name == "size"@ {
        Some((1, "vb_to_unsigned($0, 64)"@))
    } else if name == "parse_i64"@ {
        Some((1, "vb_parse_int($0, 1)"@))
    } else if name == "parse_u32"@ || name == "parse_u64"@ {
        Some((1, "vb_parse_int($0, 0)"@))
    } else if name == "parse_f64"@ {
        Some((1, "vb_parse_f64($0)"@))
    } else if name == "abs"@ {
        Some((1, "vb_abs($0)"@))
    } else if name == "min"@ {
        Some((2, "vb_min($0, $1)"@))
    } else if name == "max"@ {
        Some((2, "vb_max($0, $1)"@))
    } else if name == "sqrt"@ {
        Some((1, "vb_sqrt($0)"@))
    } else if name == "pow"@ {
        Some((2, "vb_pow($0, $1)"@))
    } else if name == "floor"@ {
        Some((1, "vb_floor($0)"@))
    } else if name == "read"@ {
        Some((1, "vb_read($0)"@))
    } else if name == "write"@ {
        Some((2, "vb_write($0, $1)"@))
    } else if name == "out"@ {
        Some((1, "vb_out($0)"@))
    } else if name == "warn"@ {
        Some((1, "vb_warn($0)"@))
    } else if name == "argv"@ {
        Some((0, "vb_argv()"@))
    } else if name == "exit"@ {
        Some((1, "vb_exit($0)"@))
    } else if name == "add_checked"@ {
        Some((2, "vb_add_checked($0, $1)"@))
    } else if name == "sub_checked"@ {
        Some((2, "vb_sub_checked($0, $1)"@))
    } else if name == "mul_checked"@ {
        Some((2, "vb_mul_checked($0, $1)"@))
    } else if name == "div_checked"@ {
        Some((2, "vb_div_checked($0, $1)"@))
    } else if name == "get_checked"@ {
        Some((2, "vb_get_checked($0, $1)"@))
    } else if name == "len"@ {
        Some((1, "vb_len($0)"@))
    } else if name == "show"@ {
        Some((1, "vb_show($0)"@))
    } else {
        None
    }
}

pub open spec fn builtin_view(r: Option<(usize, String)>) -> Option<(nat, Seq<char>)> {
    match r {
        Some((n, s)) => Some((n as nat, s@)),
        None => None,
    }
}

#[verifier::rlimit(40)]
pub fn builtin(name: &str) -> (r: Option<(usize, String)>)
    ensures
        builtin_view(r) == builtin_of(name@),
{
    if str_eq(name, "empty") {
        Some((0, owned("vb_vec_new()")))
    } else if str_eq(name, "single") {
        Some((1, owned("vb_single($0)")))
    } else if str_eq(name, "push") {
        Some((2, owned("vb_push($0, $1)")))
    } else if str_eq(name, "get") {
        Some((2, owned("vb_get($0, $1, $P)")))
    } else if str_eq(name, "set") {
        Some((3, owned("vb_set($0, $1, $2, $P)")))
    } else if str_eq(name, "map") {
        Some((2, owned("vb_map($0, $1)")))
    } else if str_eq(name, "filter") {
        Some((2, owned("vb_filter($0, $1)")))
    } else if str_eq(name, "fold") {
        Some((3, owned("vb_fold($0, $1, $2)")))
    } else if str_eq(name, "each") {
        Some((2, owned("vb_each($0, $1)")))
    } else if str_eq(name, "sum") {
        Some((1, owned("vb_sum($0)")))
    } else if str_eq(name, "max_by") {
        Some((2, owned("vb_max_by($0, $1, $P)")))
    } else if str_eq(name, "min_by") {
        Some((2, owned("vb_min_by($0, $1, $P)")))
    } else if str_eq(name, "sort_by") {
        Some((2, owned("vb_sort_by($0, $1)")))
    } else if str_eq(name, "rev") {
        Some((1, owned("vb_rev($0)")))
    } else if str_eq(name, "concat_vec") {
        Some((2, owned("vb_concat_vec($0, $1)")))
    } else if str_eq(name, "seq") {
        Some((1, owned("vb_seq($0)")))
    } else if str_eq(name, "range") {
        Some((2, owned("vb_range($0, $1)")))
    } else if str_eq(name, "split") {
        Some((2, owned("vb_split($0, $1)")))
    } else if str_eq(name, "lines") {
        Some((1, owned("vb_lines($0)")))
    } else if str_eq(name, "dup") {
        Some((1, owned("vb_dup($0)")))
    } else if str_eq(name, "concat") {
        Some((2, owned("vb_concat($0, $1)")))
    } else if str_eq(name, "trim") {
        Some((1, owned("vb_trim($0)")))
    } else if str_eq(name, "starts_with") {
        Some((2, owned("vb_starts_with($0, $1)")))
    } else if str_eq(name, "contains") {
        Some((2, owned("vb_contains($0, $1)")))
    } else if str_eq(name, "to_cstr") {
        Some((1, owned("vb_to_cstr($0)")))
    } else if str_eq(name, "from_cstr") {
        Some((1, owned("vb_from_cstr($0)")))
    } else if str_eq(name, "chr") {
        Some((1, owned("vb_chr($0)")))
    } else if str_eq(name, "f32") {
        Some((1, owned("vb_to_f32($0)")))
    } else if str_eq(name, "f64") {
        Some((1, owned("vb_to_f64($0)")))
    } else if str_eq(name, "i8") {
        Some((1, owned("vb_to_signed($0, 8)")))
    } else if str_eq(name, "i16") {
        Some((1, owned("vb_to_signed($0, 16)")))
    } else if str_eq(name, "i32") {
        Some((1, owned("vb_to_signed($0, 32)")))
    } else if str_eq(name, "i64") {
        Some((1, owned("vb_to_signed($0, 64)")))
    } else if str_eq(name, "u8") {
        Some((1, owned("vb_to_unsigned($0, 8)")))
    } else if str_eq(name, "u16") {
        Some((1, owned("vb_to_unsigned($0, 16)")))
    } else if str_eq(name, "u32") {
        Some((1, owned("vb_to_unsigned($0, 32)")))
    } else if str_eq(name, "u64") || str_eq(name, "size") {
        Some((1, owned("vb_to_unsigned($0, 64)")))
    } else if str_eq(name, "parse_i64") {
        Some((1, owned("vb_parse_int($0, 1)")))
    } else if str_eq(name, "parse_u32") || str_eq(name, "parse_u64") {
        Some((1, owned("vb_parse_int($0, 0)")))
    } else if str_eq(name, "parse_f64") {
        Some((1, owned("vb_parse_f64($0)")))
    } else if str_eq(name, "abs") {
        Some((1, owned("vb_abs($0)")))
    } else if str_eq(name, "min") {
        Some((2, owned("vb_min($0, $1)")))
    } else if str_eq(name, "max") {
        Some((2, owned("vb_max($0, $1)")))
    } else if str_eq(name, "sqrt") {
        Some((1, owned("vb_sqrt($0)")))
    } else if str_eq(name, "pow") {
        Some((2, owned("vb_pow($0, $1)")))
    } else if str_eq(name, "floor") {
        Some((1, owned("vb_floor($0)")))
    } else if str_eq(name, "read") {
        Some((1, owned("vb_read($0)")))
    } else if str_eq(name, "write") {
        Some((2, owned("vb_write($0, $1)")))
    } else if str_eq(name, "out") {
        Some((1, owned("vb_out($0)")))
    } else if str_eq(name, "warn") {
        Some((1, owned("vb_warn($0)")))
    } else if str_eq(name, "argv") {
        Some((0, owned("vb_argv()")))
    } else if str_eq(name, "exit") {
        Some((1, owned("vb_exit($0)")))
    } else if str_eq(name, "add_checked") {
        Some((2, owned("vb_add_checked($0, $1)")))
    } else if str_eq(name, "sub_checked") {
        Some((2, owned("vb_sub_checked($0, $1)")))
    } else if str_eq(name, "mul_checked") {
        Some((2, owned("vb_mul_checked($0, $1)")))
    } else if str_eq(name, "div_checked") {
        Some((2, owned("vb_div_checked($0, $1)")))
    } else if str_eq(name, "get_checked") {
        Some((2, owned("vb_get_checked($0, $1)")))
    } else if str_eq(name, "len") {
        Some((1, owned("vb_len($0)")))
    } else if str_eq(name, "show") {
        Some((1, owned("vb_show($0)")))
    } else {
        None
    }
}


/// Appends the names `p` binds, left to right.
pub fn pat_vars(p: &Pat, out: &mut Vec<String>)
    ensures
        final(out)@.map_values(|s: String| s@) == old(out)@.map_values(|s: String| s@) + pat_names_of(p@),
    decreases p, 0int,
{
    match p {
        Pat::Var(n) => {
            let ghost before = out@;
            out.push(n.clone());
            assert(out@.map_values(|s: String| s@) =~= before.map_values(|s: String| s@) + seq![n@]);
        },
        Pat::Ctor(_, ps) => pats_vars(ps, out),
        Pat::List(ps) => pats_vars(ps, out),
        Pat::Tuple(ps) => pats_vars(ps, out),
        _ => {
            assert(out@.map_values(|s: String| s@) =~= old(out)@.map_values(|s: String| s@) + Seq::<Seq<char>>::empty());
        },
    }
}

fn pats_vars(ps: &Vec<Pat>, out: &mut Vec<String>)
    ensures
        final(out)@.map_values(|s: String| s@) == old(out)@.map_values(|s: String| s@) + pats_names_of(
            pats_view(ps@),
        ),
    decreases ps, 1int,
{
    let ghost start = out@.map_values(|s: String| s@);
    proof {
        lemma_pats_view(ps@);
        assert(start + pats_names_of(pats_view(ps@).take(0)) =~= start);
    }
    for i in 0..ps.len()
        invariant
            start == old(out)@.map_values(|s: String| s@),
            pats_view(ps@).len() == ps@.len(),
            forall|k: int| 0 <= k < ps@.len() ==> #[trigger] pats_view(ps@)[k] == ps@[k]@,
            out@.map_values(|s: String| s@) == start + pats_names_of(pats_view(ps@).take(i as int)),
    {
        proof {
            assert(decreases_to!(ps => ps@[i as int]));
            assert(pats_view(ps@).take(i + 1).drop_last() =~= pats_view(ps@).take(i as int));
            assert(pats_view(ps@).take(i + 1).last() == ps@[i as int]@);
        }
        let ghost mid = out@.map_values(|s: String| s@);
        pat_vars(&ps[i], out);
        proof {
            assert(start + pats_names_of(pats_view(ps@).take(i + 1)) =~= mid + pat_names_of(ps@[i as int]@));
        }
    }
    assert(pats_view(ps@).take(ps@.len() as int) =~= pats_view(ps@));
}


// ------------------------------------------------------------ free variables

pub open spec fn names_view(v: Seq<String>) -> Seq<Seq<char>> {
    v.map_values(|s: String| s@)
}

/// `out` with the variables of `e` that `bound` does not hold appended, in
/// order of appearance, each once. A lambda binds its parameters, a `let`
/// or `<-` its name in what follows it, a match arm what its pattern binds;
/// an `arena` block is not looked into.
pub open spec fn fv(e: Expr, bound: Seq<Seq<char>>, out: Seq<Seq<char>>) -> Seq<Seq<char>>
    decreases e, 0int,
{
    match e.kind {
        ExprKind::Var(n) => if !bound.contains(n@) && !out.contains(n@) {
            out.push(n@)
        } else {
            out
        },
        ExprKind::App(h, args) => fv_list(args@, bound, fv(*h, bound, out)),
        ExprKind::Binop(_, a, b) => fv(*b, bound, fv(*a, bound, out)),
        ExprKind::Neg(x) => fv(*x, bound, out),
        ExprKind::Not(x) => fv(*x, bound, out),
        ExprKind::Borrow(x) => fv(*x, bound, out),
        ExprKind::Field(x, _) => fv(*x, bound, out),
        ExprKind::Tuple(xs) => fv_list(xs@, bound, out),
        ExprKind::List(xs) => fv_list(xs@, bound, out),
        ExprKind::Record(b, fs) => fv_fields(
            fs@,
            bound,
            match b {
                Some(x) => fv(*x, bound, out),
                None => out,
            },
        ),
        ExprKind::Lambda(ps, body) => fv(*body, bound + names_view(ps@), out),
        ExprKind::Let(n, v, b) => fv(*b, bound.push(n@), fv(*v, bound, out)),
        ExprKind::Bind(n, v, b) => fv(*b, bound.push(n@), fv(*v, bound, out)),
        ExprKind::Match(s, arms) => fv_arms(arms@, bound, fv(*s, bound, out)),
        _ => out,
    }
}

pub open spec fn fv_list(xs: Seq<Expr>, bound: Seq<Seq<char>>, out: Seq<Seq<char>>) -> Seq<Seq<char>>
    decreases xs, 1int,
{
    if xs.len() == 0 {
        out
    } else {
        fv(xs.last(), bound, fv_list(xs.drop_last(), bound, out))
    }
}

pub open spec fn fv_fields(xs: Seq<(String, Expr)>, bound: Seq<Seq<char>>, out: Seq<Seq<char>>) -> Seq<Seq<char>>
    decreases xs, 1int,
{
    if xs.len() == 0 {
        out
    } else {
        fv(xs.last().1, bound, fv_fields(xs.drop_last(), bound, out))
    }
}

pub open spec fn fv_arms(xs: Seq<(Pat, Expr)>, bound: Seq<Seq<char>>, out: Seq<Seq<char>>) -> Seq<Seq<char>>
    decreases xs, 1int,
{
    if xs.len() == 0 {
        out
    } else {
        fv(xs.last().1, bound + pat_names_of(xs.last().0@), fv_arms(xs.drop_last(), bound, out))
    }
}

/// What `fv` adds to `out` does not depend on `out`, but for what `out`
/// held already; and a closure never captures a name bound around it.
pub proof fn lemma_fv_acc(e: Expr, b: Seq<Seq<char>>, out: Seq<Seq<char>>)
    ensures
        forall|q: Seq<char>| #[trigger] fv(e, b, out).contains(q) <==> (out.contains(q) || fv(e, b, Seq::empty()).contains(q)),
        forall|q: Seq<char>| #[trigger] fv(e, b, Seq::empty()).contains(q) ==> !b.contains(q),
    decreases e, 0int,
{
    let z = Seq::<Seq<char>>::empty();
    match e.kind {
        ExprKind::Var(n) => {
            lemma_push_has(out, n@);
            lemma_push_has(z, n@);
        },
        ExprKind::App(h, xs) => {
            lemma_fv_acc(*h, b, out);
            lemma_fv_acc(*h, b, z);
            lemma_fv_list_acc(xs@, b, fv(*h, b, out));
            lemma_fv_list_acc(xs@, b, fv(*h, b, z));
            assert(fv(e, b, out) == fv_list(xs@, b, fv(*h, b, out)));
            assert(fv(e, b, z) == fv_list(xs@, b, fv(*h, b, z)));
            assert forall|q: Seq<char>| #[trigger] fv(e, b, out).contains(q) <==> (out.contains(q) || fv(e, b, z).contains(q)) by {
                assert(fv_list(xs@, b, fv(*h, b, out)).contains(q) <==> (fv(*h, b, out).contains(q) || fv_list(xs@, b, z).contains(q)));
                assert(fv_list(xs@, b, fv(*h, b, z)).contains(q) <==> (fv(*h, b, z).contains(q) || fv_list(xs@, b, z).contains(q)));
                assert(fv(*h, b, out).contains(q) <==> (out.contains(q) || fv(*h, b, z).contains(q)));
            }
            assert forall|q: Seq<char>| #[trigger] fv(e, b, z).contains(q) implies !b.contains(q) by {
                assert(fv_list(xs@, b, fv(*h, b, z)).contains(q) <==> (fv(*h, b, z).contains(q) || fv_list(xs@, b, z).contains(q)));
                if fv_list(xs@, b, z).contains(q) {
                    assert(!b.contains(q));
                }
            }
        },
        ExprKind::Binop(_, x, y) => {
            lemma_fv_acc(*x, b, out);
            lemma_fv_acc(*x, b, z);
            lemma_fv_acc(*y, b, fv(*x, b, out));
            lemma_fv_acc(*y, b, fv(*x, b, z));
            assert(fv(e, b, out) == fv(*y, b, fv(*x, b, out)));
            assert(fv(e, b, z) == fv(*y, b, fv(*x, b, z)));
            assert forall|q: Seq<char>| #[trigger] fv(e, b, out).contains(q) <==> (out.contains(q) || fv(e, b, z).contains(q)) by {
                assert(fv(*y, b, fv(*x, b, out)).contains(q) <==> (fv(*x, b, out).contains(q) || fv(*y, b, z).contains(q)));
                assert(fv(*y, b, fv(*x, b, z)).contains(q) <==> (fv(*x, b, z).contains(q) || fv(*y, b, z).contains(q)));
                assert(fv(*x, b, out).contains(q) <==> (out.contains(q) || fv(*x, b, z).contains(q)));
            }
            assert forall|q: Seq<char>| #[trigger] fv(e, b, z).contains(q) implies !b.contains(q) by {
                assert(fv(*y, b, fv(*x, b, z)).contains(q) <==> (fv(*x, b, z).contains(q) || fv(*y, b, z).contains(q)));
                if fv(*y, b, z).contains(q) {
                    assert(!b.contains(q));
                }
            }
        },
        ExprKind::Neg(x) => {
            lemma_fv_acc(*x, b, out);
            lemma_fv_acc(*x, b, z);
            assert(fv(e, b, out) == fv(*x, b, out));
            assert(fv(e, b, z) == fv(*x, b, z));
        },
        ExprKind::Not(x) => {
            lemma_fv_acc(*x, b, out);
            lemma_fv_acc(*x, b, z);
            assert(fv(e, b, out) == fv(*x, b, out));
            assert(fv(e, b, z) == fv(*x, b, z));
        },
        ExprKind::Borrow(x) => {
            lemma_fv_acc(*x, b, out);
            lemma_fv_acc(*x, b, z);
            assert(fv(e, b, out) == fv(*x, b, out));
            assert(fv(e, b, z) == fv(*x, b, z));
        },
        ExprKind::Field(x, _) => {
            lemma_fv_acc(*x, b, out);
            lemma_fv_acc(*x, b, z);
            assert(fv(e, b, out) == fv(*x, b, out));
            assert(fv(e, b, z) == fv(*x, b, z));
        },
        ExprKind::Tuple(xs) => {
            lemma_fv_list_acc(xs@, b, out);
            lemma_fv_list_acc(xs@, b, z);
            assert(fv(e, b, out) == fv_list(xs@, b, out));
            assert(fv(e, b, z) == fv_list(xs@, b, z));
        },
        ExprKind::List(xs) => {
            lemma_fv_list_acc(xs@, b, out);
            lemma_fv_list_acc(xs@, b, z);
            assert(fv(e, b, out) == fv_list(xs@, b, out));
            assert(fv(e, b, z) == fv_list(xs@, b, z));
        },
        ExprKind::Record(base, fs) => {
            match base {
                Some(x) => {
                    lemma_fv_acc(*x, b, out);
                    lemma_fv_acc(*x, b, z);
                    lemma_fv_fields_acc(fs@, b, fv(*x, b, out));
                    lemma_fv_fields_acc(fs@, b, fv(*x, b, z));
            assert(fv(e, b, out) == fv_fields(fs@, b, fv(*x, b, out)));
            assert(fv(e, b, z) == fv_fields(fs@, b, fv(*x, b, z)));
            assert forall|q: Seq<char>| #[trigger] fv(e, b, out).contains(q) <==> (out.contains(q) || fv(e, b, z).contains(q)) by {
                assert(fv_fields(fs@, b, fv(*x, b, out)).contains(q) <==> (fv(*x, b, out).contains(q) || fv_fields(fs@, b, z).contains(q)));
                assert(fv_fields(fs@, b, fv(*x, b, z)).contains(q) <==> (fv(*x, b, z).contains(q) || fv_fields(fs@, b, z).contains(q)));
                assert(fv(*x, b, out).contains(q) <==> (out.contains(q) || fv(*x, b, z).contains(q)));
            }
            assert forall|q: Seq<char>| #[trigger] fv(e, b, z).contains(q) implies !b.contains(q) by {
                assert(fv_fields(fs@, b, fv(*x, b, z)).contains(q) <==> (fv(*x, b, z).contains(q) || fv_fields(fs@, b, z).contains(q)));
                if fv_fields(fs@, b, z).contains(q) {
                    assert(!b.contains(q));
                }
            }
                },
                None => {
                    lemma_fv_fields_acc(fs@, b, out);
                    lemma_fv_fields_acc(fs@, b, z);
            assert(fv(e, b, out) == fv_fields(fs@, b, out));
            assert(fv(e, b, z) == fv_fields(fs@, b, z));
                },
            }
        },
        ExprKind::Lambda(ps, body) => {
            let nb = b + names_view(ps@);
            lemma_fv_acc(*body, nb, out);
            lemma_fv_acc(*body, nb, z);
            crate::ast::lemma_in_concat(b, names_view(ps@));
            assert(fv(e, b, out) == fv(*body, nb, out));
            assert(fv(e, b, z) == fv(*body, nb, z));
        },
        ExprKind::Let(n, v, body) => {
            lemma_push_has(b, n@);
            lemma_fv_acc(*v, b, out);
            lemma_fv_acc(*v, b, z);
            lemma_fv_acc(*body, b.push(n@), fv(*v, b, out));
            lemma_fv_acc(*body, b.push(n@), fv(*v, b, z));
            assert(fv(e, b, out) == fv(*body, b.push(n@), fv(*v, b, out)));
            assert(fv(e, b, z) == fv(*body, b.push(n@), fv(*v, b, z)));
            assert forall|q: Seq<char>| #[trigger] fv(e, b, out).contains(q) <==> (out.contains(q) || fv(e, b, z).contains(q)) by {
                assert(fv(*body, b.push(n@), fv(*v, b, out)).contains(q) <==> (fv(*v, b, out).contains(q) || fv(*body, b.push(n@), z).contains(q)));
                assert(fv(*body, b.push(n@), fv(*v, b, z)).contains(q) <==> (fv(*v, b, z).contains(q) || fv(*body, b.push(n@), z).contains(q)));
                assert(fv(*v, b, out).contains(q) <==> (out.contains(q) || fv(*v, b, z).contains(q)));
            }
            assert forall|q: Seq<char>| #[trigger] fv(e, b, z).contains(q) implies !b.contains(q) by {
                assert(fv(*body, b.push(n@), fv(*v, b, z)).contains(q) <==> (fv(*v, b, z).contains(q) || fv(*body, b.push(n@), z).contains(q)));
                if fv(*body, b.push(n@), z).contains(q) {
                    assert(!b.push(n@).contains(q));
                }
            }
        },
        ExprKind::Bind(n, v, body) => {
            lemma_push_has(b, n@);
            lemma_fv_acc(*v, b, out);
            lemma_fv_acc(*v, b, z);
            lemma_fv_acc(*body, b.push(n@), fv(*v, b, out));
            lemma_fv_acc(*body, b.push(n@), fv(*v, b, z));
            assert(fv(e, b, out) == fv(*body, b.push(n@), fv(*v, b, out)));
            assert(fv(e, b, z) == fv(*body, b.push(n@), fv(*v, b, z)));
            assert forall|q: Seq<char>| #[trigger] fv(e, b, out).contains(q) <==> (out.contains(q) || fv(e, b, z).contains(q)) by {
                assert(fv(*body, b.push(n@), fv(*v, b, out)).contains(q) <==> (fv(*v, b, out).contains(q) || fv(*body, b.push(n@), z).contains(q)));
                assert(fv(*body, b.push(n@), fv(*v, b, z)).contains(q) <==> (fv(*v, b, z).contains(q) || fv(*body, b.push(n@), z).contains(q)));
                assert(fv(*v, b, out).contains(q) <==> (out.contains(q) || fv(*v, b, z).contains(q)));
            }
            assert forall|q: Seq<char>| #[trigger] fv(e, b, z).contains(q) implies !b.contains(q) by {
                assert(fv(*body, b.push(n@), fv(*v, b, z)).contains(q) <==> (fv(*v, b, z).contains(q) || fv(*body, b.push(n@), z).contains(q)));
                if fv(*body, b.push(n@), z).contains(q) {
                    assert(!b.push(n@).contains(q));
                }
            }
        },
        ExprKind::Match(x, arms) => {
            lemma_fv_acc(*x, b, out);
            lemma_fv_acc(*x, b, z);
            lemma_fv_arms_acc(arms@, b, fv(*x, b, out));
            lemma_fv_arms_acc(arms@, b, fv(*x, b, z));
            assert(fv(e, b, out) == fv_arms(arms@, b, fv(*x, b, out)));
            assert(fv(e, b, z) == fv_arms(arms@, b, fv(*x, b, z)));
            assert forall|q: Seq<char>| #[trigger] fv(e, b, out).contains(q) <==> (out.contains(q) || fv(e, b, z).contains(q)) by {
                assert(fv_arms(arms@, b, fv(*x, b, out)).contains(q) <==> (fv(*x, b, out).contains(q) || fv_arms(arms@, b, z).contains(q)));
                assert(fv_arms(arms@, b, fv(*x, b, z)).contains(q) <==> (fv(*x, b, z).contains(q) || fv_arms(arms@, b, z).contains(q)));
                assert(fv(*x, b, out).contains(q) <==> (out.contains(q) || fv(*x, b, z).contains(q)));
            }
            assert forall|q: Seq<char>| #[trigger] fv(e, b, z).contains(q) implies !b.contains(q) by {
                assert(fv_arms(arms@, b, fv(*x, b, z)).contains(q) <==> (fv(*x, b, z).contains(q) || fv_arms(arms@, b, z).contains(q)));
                if fv_arms(arms@, b, z).contains(q) {
                    assert(!b.contains(q));
                }
            }
        },
        _ => {},
    }
}

proof fn lemma_fv_list_has(xs: Seq<Expr>, b: Seq<Seq<char>>, out: Seq<Seq<char>>, j: int)
    requires
        0 <= j < xs.len(),
    ensures
        forall|q: Seq<char>| fv(xs[j], b, Seq::empty()).contains(q) ==> #[trigger] fv_list(xs, b, out).contains(q),
    decreases xs.len(),
{
    let l = fv_list(xs.drop_last(), b, out);
    lemma_fv_acc(xs.last(), b, l);
    if j < xs.len() - 1 {
        lemma_fv_list_has(xs.drop_last(), b, out, j);
        assert(xs.drop_last()[j] == xs[j]);
    }
    assert(fv_list(xs, b, out) == fv(xs.last(), b, l));
    assert forall|q: Seq<char>| fv(xs[j], b, Seq::empty()).contains(q) implies #[trigger] fv_list(xs, b, out).contains(q) by {
        assert(fv(xs.last(), b, l).contains(q) <==> (l.contains(q) || fv(xs.last(), b, Seq::empty()).contains(q)));
        if j < xs.len() - 1 {
            assert(fv(xs.drop_last()[j], b, Seq::empty()).contains(q));
            assert(l.contains(q));
        }
    }
}

proof fn lemma_fv_fields_has(xs: Seq<(String, Expr)>, b: Seq<Seq<char>>, out: Seq<Seq<char>>, j: int)
    requires
        0 <= j < xs.len(),
    ensures
        forall|q: Seq<char>| fv(xs[j].1, b, Seq::empty()).contains(q) ==> #[trigger] fv_fields(xs, b, out).contains(q),
    decreases xs.len(),
{
    let l = fv_fields(xs.drop_last(), b, out);
    lemma_fv_acc(xs.last().1, b, l);
    if j < xs.len() - 1 {
        lemma_fv_fields_has(xs.drop_last(), b, out, j);
        assert(xs.drop_last()[j] == xs[j]);
    }
    assert(fv_fields(xs, b, out) == fv(xs.last().1, b, l));
    assert forall|q: Seq<char>| fv(xs[j].1, b, Seq::empty()).contains(q) implies #[trigger] fv_fields(xs, b, out).contains(q) by {
        assert(fv(xs.last().1, b, l).contains(q) <==> (l.contains(q) || fv(xs.last().1, b, Seq::empty()).contains(q)));
        if j < xs.len() - 1 {
            assert(fv(xs.drop_last()[j].1, b, Seq::empty()).contains(q));
            assert(l.contains(q));
        }
    }
}

proof fn lemma_fv_arms_has(xs: Seq<(Pat, Expr)>, b: Seq<Seq<char>>, out: Seq<Seq<char>>, j: int)
    requires
        0 <= j < xs.len(),
    ensures
        forall|q: Seq<char>| fv(xs[j].1, b + pat_names_of(xs[j].0@), Seq::empty()).contains(q) ==> #[trigger] fv_arms(xs, b, out).contains(q),
    decreases xs.len(),
{
    let l = fv_arms(xs.drop_last(), b, out);
    lemma_fv_acc(xs.last().1, b + pat_names_of(xs.last().0@), l);
    if j < xs.len() - 1 {
        lemma_fv_arms_has(xs.drop_last(), b, out, j);
        assert(xs.drop_last()[j] == xs[j]);
    }
    assert(fv_arms(xs, b, out) == fv(xs.last().1, b + pat_names_of(xs.last().0@), l));
    assert forall|q: Seq<char>| fv(xs[j].1, b + pat_names_of(xs[j].0@), Seq::empty()).contains(q) implies #[trigger] fv_arms(xs, b, out).contains(q) by {
        assert(fv(xs.last().1, b + pat_names_of(xs.last().0@), l).contains(q) <==> (l.contains(q) || fv(xs.last().1, b + pat_names_of(xs.last().0@), Seq::empty()).contains(q)));
        if j < xs.len() - 1 {
            assert(fv(xs.drop_last()[j].1, b + pat_names_of(xs.drop_last()[j].0@), Seq::empty()).contains(q));
            assert(l.contains(q));
        }
    }
}

/// The names that `e` binds around its sub-expression number `c` (in the
/// order of `children`): a lambda's parameters around its body, a `let` or
/// `<-` name around what follows it, and what an arm's pattern binds around
/// that arm.
pub open spec fn bound_at(e: Expr, c: int) -> Seq<Seq<char>> {
    match e.kind {
        ExprKind::Lambda(ps, _) => names_view(ps@),
        ExprKind::Let(n, _, _) => if c == 1 { seq![n@] } else { Seq::empty() },
        ExprKind::Bind(n, _, _) => if c == 1 { seq![n@] } else { Seq::empty() },
        ExprKind::Match(_, arms) => if c > 0 { pat_names_of(arms@[c - 1].0@) } else { Seq::empty() },
        _ => Seq::empty(),
    }
}

/// A variable used and not bound is captured; a variable that a
/// sub-expression captures, the whole expression captures too, unless `e`
/// binds it there: in the head and every argument of an application, both
/// sides of an operator, the value and the rest of a binding, the scrutinee
/// and every arm of a match, a record's base and fields, and so on. An
/// `arena` block is the one expression not looked into.
pub proof fn lemma_free_vars_reach_every_child(e: Expr, b: Seq<Seq<char>>)
    requires
        !(e.kind is Arena),
    ensures
        e.kind matches ExprKind::Var(n) ==> (fv(e, b, Seq::empty()).contains(n@) <==> !b.contains(n@)),
        forall|c: int, q: Seq<char>|
            0 <= c < crate::ast::children(e).len()
                && #[trigger] fv(crate::ast::children(e)[c], b + bound_at(e, c), Seq::empty()).contains(q)
                ==> fv(e, b, Seq::empty()).contains(q),
{
    let z = Seq::<Seq<char>>::empty();
    let ch = crate::ast::children(e);
    lemma_fv_acc(e, b, z);
    if let ExprKind::Var(n) = e.kind {
        if !b.contains(n@) {
            assert(z.push(n@)[0] == n@);
        }
    }
    assert forall|c: int, q: Seq<char>|
        0 <= c < ch.len() && #[trigger] fv(ch[c], b + bound_at(e, c), z).contains(q)
        implies fv(e, b, z).contains(q) by {
        match e.kind {
            ExprKind::App(h, xs) => {
                assert(b + bound_at(e, c) =~= b);
                assert(fv(ch[c], b, z).contains(q));
                assert(fv(e, b, z) == fv_list(xs@, b, fv(*h, b, z)));
                lemma_fv_list_acc(xs@, b, fv(*h, b, z));
                if c > 0 {
                    assert(ch[c] == xs@[c - 1]);
                    lemma_fv_list_has(xs@, b, fv(*h, b, z), c - 1);
                    assert(fv(xs@[c - 1], b, z).contains(q));
                } else {
                    assert(ch[0] == *h);
                    assert(fv(*h, b, z).contains(q));
                    assert(fv_list(xs@, b, fv(*h, b, z)).contains(q));
                }
            },
            ExprKind::Binop(_, x, y) => {
                assert(b + bound_at(e, c) =~= b);
                assert(fv(ch[c], b, z).contains(q));
                assert(fv(e, b, z) == fv(*y, b, fv(*x, b, z)));
                lemma_fv_acc(*y, b, fv(*x, b, z));
                if c == 0 {
                    assert(ch[0] == *x);
                    assert(fv(*x, b, z).contains(q));
                } else {
                    assert(ch[1] == *y);
                    assert(fv(*y, b, z).contains(q));
                }
                assert(fv(*y, b, fv(*x, b, z)).contains(q));
            },
            ExprKind::Let(n, v, body) => {
                assert(fv(e, b, z) == fv(*body, b.push(n@), fv(*v, b, z)));
                lemma_fv_acc(*body, b.push(n@), fv(*v, b, z));
                if c == 1 {
                    assert(b + bound_at(e, c) =~= b.push(n@));
                    assert(ch[1] == *body);
                    assert(fv(*body, b.push(n@), z).contains(q));
                } else {
                    assert(b + bound_at(e, c) =~= b);
                    assert(ch[0] == *v);
                    assert(fv(*v, b, z).contains(q));
                }
                assert(fv(*body, b.push(n@), fv(*v, b, z)).contains(q));
            },
            ExprKind::Bind(n, v, body) => {
                assert(fv(e, b, z) == fv(*body, b.push(n@), fv(*v, b, z)));
                lemma_fv_acc(*body, b.push(n@), fv(*v, b, z));
                if c == 1 {
                    assert(b + bound_at(e, c) =~= b.push(n@));
                    assert(ch[1] == *body);
                    assert(fv(*body, b.push(n@), z).contains(q));
                } else {
                    assert(b + bound_at(e, c) =~= b);
                    assert(ch[0] == *v);
                    assert(fv(*v, b, z).contains(q));
                }
                assert(fv(*body, b.push(n@), fv(*v, b, z)).contains(q));
            },
            ExprKind::Match(x, arms) => {
                assert(fv(e, b, z) == fv_arms(arms@, b, fv(*x, b, z)));
                lemma_fv_arms_acc(arms@, b, fv(*x, b, z));
                if c > 0 {
                    assert(ch[c] == arms@[c - 1].1);
                    assert(b + bound_at(e, c) == b + pat_names_of(arms@[c - 1].0@));
                    lemma_fv_arms_has(arms@, b, fv(*x, b, z), c - 1);
                    assert(fv(arms@[c - 1].1, b + pat_names_of(arms@[c - 1].0@), z).contains(q));
                } else {
                    assert(b + bound_at(e, c) =~= b);
                    assert(ch[0] == *x);
                    assert(fv(*x, b, z).contains(q));
                }
                assert(fv_arms(arms@, b, fv(*x, b, z)).contains(q));
            },
            ExprKind::Record(base, fs) => {
                assert(b + bound_at(e, c) =~= b);
                assert(fv(ch[c], b, z).contains(q));
                match base {
                    Some(x) => {
                        assert(fv(e, b, z) == fv_fields(fs@, b, fv(*x, b, z)));
                        lemma_fv_fields_acc(fs@, b, fv(*x, b, z));
                        if c > 0 {
                            assert(ch[c] == fs@[c - 1].1);
                            lemma_fv_fields_has(fs@, b, fv(*x, b, z), c - 1);
                            assert(fv(fs@[c - 1].1, b, z).contains(q));
                        } else {
                            assert(ch[0] == *x);
                            assert(fv(*x, b, z).contains(q));
                        }
                        assert(fv_fields(fs@, b, fv(*x, b, z)).contains(q));
                    },
                    None => {
                        assert(fv(e, b, z) == fv_fields(fs@, b, z));
                        assert(ch =~= fs@.map_values(|f: (String, Expr)| f.1));
                        assert(ch[c] == fs@[c].1);
                        lemma_fv_fields_has(fs@, b, z, c);
                        assert(fv(fs@[c].1, b, z).contains(q));
                    },
                }
            },
            ExprKind::Tuple(xs) => {
                assert(b + bound_at(e, c) =~= b);
                assert(fv(e, b, z) == fv_list(xs@, b, z));
                assert(ch[c] == xs@[c]);
                lemma_fv_list_has(xs@, b, z, c);
                assert(fv(xs@[c], b, z).contains(q));
            },
            ExprKind::List(xs) => {
                assert(b + bound_at(e, c) =~= b);
                assert(fv(e, b, z) == fv_list(xs@, b, z));
                assert(ch[c] == xs@[c]);
                lemma_fv_list_has(xs@, b, z, c);
                assert(fv(xs@[c], b, z).contains(q));
            },
            ExprKind::Lambda(ps, body) => {
                assert(ch[c] == *body);
            },
            _ => {
                assert(b + bound_at(e, c) =~= b);
            },
        }
    }
}

/// What a pushed sequence holds: what it held, and the pushed item.
proof fn lemma_push_has(s: Seq<Seq<char>>, x: Seq<char>)
    ensures
        forall|q: Seq<char>| #[trigger] s.push(x).contains(q) <==> (s.contains(q) || q == x),
{
    assert forall|q: Seq<char>| #[trigger] s.push(x).contains(q) <==> (s.contains(q) || q == x) by {
        if s.push(x).contains(q) {
            let k = choose|k: int| 0 <= k < s.push(x).len() && s.push(x)[k] == q;
            if k < s.len() {
                assert(s[k] == q);
            }
        }
        if s.contains(q) {
            let k = choose|k: int| 0 <= k < s.len() && s[k] == q;
            assert(s.push(x)[k] == q);
        }
        if q == x {
            assert(s.push(x)[s.len() as int] == q);
        }
    }
}

proof fn lemma_fv_list_acc(xs: Seq<Expr>, b: Seq<Seq<char>>, out: Seq<Seq<char>>)
    ensures
        forall|q: Seq<char>| #[trigger] fv_list(xs, b, out).contains(q) <==> (out.contains(q) || fv_list(xs, b, Seq::empty()).contains(q)),
        forall|q: Seq<char>| #[trigger] fv_list(xs, b, Seq::empty()).contains(q) ==> !b.contains(q),
    decreases xs, 1int,
{
    let z = Seq::<Seq<char>>::empty();
    if xs.len() > 0 {
        lemma_fv_list_acc(xs.drop_last(), b, out);
        lemma_fv_list_acc(xs.drop_last(), b, z);
        lemma_fv_acc(xs.last(), b, fv_list(xs.drop_last(), b, out));
        lemma_fv_acc(xs.last(), b, fv_list(xs.drop_last(), b, z));
        assert(fv_list(xs, b, out) == fv(xs.last(), b, fv_list(xs.drop_last(), b, out)));
        assert(fv_list(xs, b, z) == fv(xs.last(), b, fv_list(xs.drop_last(), b, z)));
        assert forall|q: Seq<char>| #[trigger] fv_list(xs, b, out).contains(q) <==> (out.contains(q) || fv_list(xs, b, z).contains(q)) by {
            assert(fv(xs.last(), b, fv_list(xs.drop_last(), b, out)).contains(q) <==> (fv_list(xs.drop_last(), b, out).contains(q) || fv(xs.last(), b, z).contains(q)));
            assert(fv_list(xs.drop_last(), b, out).contains(q) <==> (out.contains(q) || fv_list(xs.drop_last(), b, z).contains(q)));
        }
    } else {
        assert forall|q: Seq<char>| #[trigger] fv_list(xs, b, out).contains(q) <==> (out.contains(q) || fv_list(xs, b, z).contains(q)) by {
            assert(fv_list(xs, b, out) == out);
            assert(fv_list(xs, b, z) == z);
            assert(!z.contains(q));
        }
    }
}

proof fn lemma_fv_fields_acc(xs: Seq<(String, Expr)>, b: Seq<Seq<char>>, out: Seq<Seq<char>>)
    ensures
        forall|q: Seq<char>| #[trigger] fv_fields(xs, b, out).contains(q) <==> (out.contains(q) || fv_fields(xs, b, Seq::empty()).contains(q)),
        forall|q: Seq<char>| #[trigger] fv_fields(xs, b, Seq::empty()).contains(q) ==> !b.contains(q),
    decreases xs, 1int,
{
    let z = Seq::<Seq<char>>::empty();
    if xs.len() > 0 {
        lemma_fv_fields_acc(xs.drop_last(), b, out);
        lemma_fv_fields_acc(xs.drop_last(), b, z);
        lemma_fv_acc(xs.last().1, b, fv_fields(xs.drop_last(), b, out));
        lemma_fv_acc(xs.last().1, b, fv_fields(xs.drop_last(), b, z));
        assert(fv_fields(xs, b, out) == fv(xs.last().1, b, fv_fields(xs.drop_last(), b, out)));
        assert(fv_fields(xs, b, z) == fv(xs.last().1, b, fv_fields(xs.drop_last(), b, z)));
        assert forall|q: Seq<char>| #[trigger] fv_fields(xs, b, out).contains(q) <==> (out.contains(q) || fv_fields(xs, b, z).contains(q)) by {
            assert(fv(xs.last().1, b, fv_fields(xs.drop_last(), b, out)).contains(q) <==> (fv_fields(xs.drop_last(), b, out).contains(q) || fv(xs.last().1, b, z).contains(q)));
            assert(fv_fields(xs.drop_last(), b, out).contains(q) <==> (out.contains(q) || fv_fields(xs.drop_last(), b, z).contains(q)));
        }
    } else {
        assert forall|q: Seq<char>| #[trigger] fv_fields(xs, b, out).contains(q) <==> (out.contains(q) || fv_fields(xs, b, z).contains(q)) by {
            assert(fv_fields(xs, b, out) == out);
            assert(fv_fields(xs, b, z) == z);
            assert(!z.contains(q));
        }
    }
}

proof fn lemma_fv_arms_acc(xs: Seq<(Pat, Expr)>, b: Seq<Seq<char>>, out: Seq<Seq<char>>)
    ensures
        forall|q: Seq<char>| #[trigger] fv_arms(xs, b, out).contains(q) <==> (out.contains(q) || fv_arms(xs, b, Seq::empty()).contains(q)),
        forall|q: Seq<char>| #[trigger] fv_arms(xs, b, Seq::empty()).contains(q) ==> !b.contains(q),
    decreases xs, 1int,
{
    let z = Seq::<Seq<char>>::empty();
    if xs.len() > 0 {
        let nb = b + pat_names_of(xs.last().0@);
        lemma_fv_arms_acc(xs.drop_last(), b, out);
        lemma_fv_arms_acc(xs.drop_last(), b, z);
        lemma_fv_acc(xs.last().1, nb, fv_arms(xs.drop_last(), b, out));
        lemma_fv_acc(xs.last().1, nb, fv_arms(xs.drop_last(), b, z));
        crate::ast::lemma_in_concat(b, pat_names_of(xs.last().0@));
        assert(fv_arms(xs, b, out) == fv(xs.last().1, nb, fv_arms(xs.drop_last(), b, out)));
        assert(fv_arms(xs, b, z) == fv(xs.last().1, nb, fv_arms(xs.drop_last(), b, z)));
        assert forall|q: Seq<char>| #[trigger] fv_arms(xs, b, out).contains(q) <==> (out.contains(q) || fv_arms(xs, b, z).contains(q)) by {
            assert(fv(xs.last().1, nb, fv_arms(xs.drop_last(), b, out)).contains(q) <==> (fv_arms(xs.drop_last(), b, out).contains(q) || fv(xs.last().1, nb, z).contains(q)));
            assert(fv_arms(xs.drop_last(), b, out).contains(q) <==> (out.contains(q) || fv_arms(xs.drop_last(), b, z).contains(q)));
        }
        assert forall|q: Seq<char>| #[trigger] fv_arms(xs, b, z).contains(q) implies !b.contains(q) by {
            assert(fv(xs.last().1, nb, fv_arms(xs.drop_last(), b, z)).contains(q) <==> (fv_arms(xs.drop_last(), b, z).contains(q) || fv(xs.last().1, nb, z).contains(q)));
            if fv(xs.last().1, nb, z).contains(q) {
                assert(!nb.contains(q));
            }
        }
    } else {
        assert forall|q: Seq<char>| #[trigger] fv_arms(xs, b, out).contains(q) <==> (out.contains(q) || fv_arms(xs, b, z).contains(q)) by {
            assert(fv_arms(xs, b, out) == out);
            assert(fv_arms(xs, b, z) == z);
            assert(!z.contains(q));
        }
    }
}

fn holds_name(v: &Vec<String>, n: &str) -> (r: bool)
    ensures
        r == names_view(v@).contains(n@),
{
    for i in 0..v.len()
        invariant
            forall|j: int| 0 <= j < i ==> names_view(v@)[j] != n@,
    {
        if str_eq(v[i].as_str(), n) {
            assert(names_view(v@)[i as int] == n@);
            return true;
        }
    }
    false
}

/// Appends to `out` the variables of `e` that `bound` does not hold and
/// `out` does not hold yet, in order of appearance: what a closure built
/// from `e` has to capture. `bound` comes back as it was.
pub fn free_vars(e: &Expr, bound: &mut Vec<String>, out: &mut Vec<String>)
    ensures
        final(bound)@ == old(bound)@,
        names_view(final(out)@) == fv(*e, names_view(old(bound)@), names_view(old(out)@)),
    decreases e, 0int,
{
    match &e.kind {
        ExprKind::Var(n) => {
            if !holds_name(bound, n.as_str()) && !holds_name(out, n.as_str()) {
                let ghost before = out@;
                out.push(n.clone());
                assert(names_view(out@) =~= names_view(before).push(n@));
            }
        },
        ExprKind::App(h, args) => {
            free_vars(h, bound, out);
            fv_list_exec(args, bound, out);
        },
        ExprKind::Binop(_, a, b) => {
            free_vars(a, bound, out);
            free_vars(b, bound, out);
        },
        ExprKind::Neg(x) | ExprKind::Not(x) | ExprKind::Borrow(x) | ExprKind::Field(x, _) => {
            free_vars(x, bound, out);
        },
        ExprKind::Tuple(xs) | ExprKind::List(xs) => {
            fv_list_exec(xs, bound, out);
        },
        ExprKind::Record(b, fs) => {
            match b {
                Some(x) => {
                    free_vars(x, bound, out);
                },
                None => {},
            }
            fv_fields_exec(fs, bound, out);
        },
        ExprKind::Lambda(ps, body) => {
            let k = bound.len();
            let ghost b0 = bound@;
            for i in 0..ps.len()
                invariant
                    k == b0.len(),
                    bound@.len() == k + i,
                    bound@.subrange(0, k as int) == b0,
                    names_view(bound@) == names_view(b0) + names_view(ps@.take(i as int)),
            {
                let ghost prev = bound@;
                bound.push(ps[i].clone());
                assert(bound@.subrange(0, k as int) =~= b0);
                assert(names_view(bound@) =~= names_view(prev).push(ps@[i as int]@));
                assert(names_view(ps@.take(i + 1)) =~= names_view(ps@.take(i as int)).push(ps@[i as int]@));
            }
            assert(ps@.take(ps@.len() as int) =~= ps@);
            free_vars(body, bound, out);
            bound.truncate(k);
        },
        ExprKind::Let(n, v, b) | ExprKind::Bind(n, v, b) => {
            free_vars(v, bound, out);
            let k = bound.len();
            let ghost b0 = bound@;
            bound.push(n.clone());
            assert(names_view(bound@) =~= names_view(b0).push(n@));
            free_vars(b, bound, out);
            bound.truncate(k);
            assert(bound@ =~= b0);
        },
        ExprKind::Match(s, arms) => {
            free_vars(s, bound, out);
            fv_arms_exec(arms, bound, out);
        },
        _ => {},
    }
}

fn fv_list_exec(xs: &Vec<Expr>, bound: &mut Vec<String>, out: &mut Vec<String>)
    ensures
        final(bound)@ == old(bound)@,
        names_view(final(out)@) == fv_list(xs@, names_view(old(bound)@), names_view(old(out)@)),
    decreases xs, 1int,
{
    let ghost b0 = names_view(bound@);
    let ghost o0 = names_view(out@);
    assert(xs@.take(0) =~= Seq::<Expr>::empty());
    for i in 0..xs.len()
        invariant
            bound@ == old(bound)@,
            b0 == names_view(bound@),
            names_view(out@) == fv_list(xs@.take(i as int), b0, o0),
    {
        proof {
            assert(decreases_to!(xs => xs@[i as int]));
            assert(xs@.take(i + 1).drop_last() =~= xs@.take(i as int));
        }
        free_vars(&xs[i], bound, out);
    }
    assert(xs@.take(xs@.len() as int) =~= xs@);
}

fn fv_fields_exec(xs: &Vec<(String, Expr)>, bound: &mut Vec<String>, out: &mut Vec<String>)
    ensures
        final(bound)@ == old(bound)@,
        names_view(final(out)@) == fv_fields(xs@, names_view(old(bound)@), names_view(old(out)@)),
    decreases xs, 1int,
{
    let ghost b0 = names_view(bound@);
    let ghost o0 = names_view(out@);
    assert(xs@.take(0) =~= Seq::<(String, Expr)>::empty());
    for i in 0..xs.len()
        invariant
            bound@ == old(bound)@,
            b0 == names_view(bound@),
            names_view(out@) == fv_fields(xs@.take(i as int), b0, o0),
    {
        proof {
            assert(decreases_to!(xs => xs@[i as int]));
            assert(decreases_to!(xs@[i as int] => xs@[i as int].1));
            assert(xs@.take(i + 1).drop_last() =~= xs@.take(i as int));
        }
        free_vars(&xs[i].1, bound, out);
    }
    assert(xs@.take(xs@.len() as int) =~= xs@);
}

fn fv_arms_exec(xs: &Vec<(Pat, Expr)>, bound: &mut Vec<String>, out: &mut Vec<String>)
    ensures
        final(bound)@ == old(bound)@,
        names_view(final(out)@) == fv_arms(xs@, names_view(old(bound)@), names_view(old(out)@)),
    decreases xs, 1int,
{
    let ghost b0 = names_view(bound@);
    let ghost o0 = names_view(out@);
    assert(xs@.take(0) =~= Seq::<(Pat, Expr)>::empty());
    for i in 0..xs.len()
        invariant
            bound@ == old(bound)@,
            b0 == names_view(bound@),
            names_view(out@) == fv_arms(xs@.take(i as int), b0, o0),
    {
        proof {
            assert(decreases_to!(xs => xs@[i as int]));
            assert(decreases_to!(xs@[i as int] => xs@[i as int].1));
            assert(xs@.take(i + 1).drop_last() =~= xs@.take(i as int));
        }
        let k = bound.len();
        let ghost bb = bound@;
        let mut names: Vec<String> = Vec::new();
        pat_vars(&xs[i].0, &mut names);
        assert(names_view(names@) =~= pat_names_of(xs@[i as int].0@));
        for j in 0..names.len()
            invariant
                k == bb.len(),
                bound@.len() == k + j,
                bound@.subrange(0, k as int) == bb,
                names_view(bound@) == names_view(bb) + names_view(names@.take(j as int)),
        {
            let ghost prev = bound@;
            bound.push(names[j].clone());
            assert(bound@.subrange(0, k as int) =~= bb);
            assert(names_view(bound@) =~= names_view(prev).push(names@[j as int]@));
            assert(names_view(names@.take(j + 1)) =~= names_view(names@.take(j as int)).push(names@[j as int]@));
        }
        assert(names@.take(names@.len() as int) =~= names@);
        free_vars(&xs[i].1, bound, out);
        bound.truncate(k);
        assert(bound@ =~= bb);
    }
    assert(xs@.take(xs@.len() as int) =~= xs@);
}

} // verus!
