//! The command line: what the arguments ask for, and the text the driver
//! prints for diagnostics and for the open proof obligations.

use vstd::prelude::*;
use crate::diag::{Diag, DiagFormat, Files, render, rendered};
use crate::refine::Ob;
use crate::text::{chars_of, decimal, digit, has_prefix, join, owned, push_joined, push_str, starts_with, str_eq, string_of_range};
use crate::view::Mode;

verus! {

pub const USAGE: &'static str = "usage: vibe <check|build|run|view|deps|proof|patch> <file.vibe> [options]
  patch <file> <path>                 print the node's hash and current text
  patch <file> <path> <hash> <node>   replace it, if the hash still matches
  --diag=prose|struct|json   diagnostic rendering (default: prose)
  --prove                    discharge refinement obligations with z3 (§7.3)
  --prove-timeout=<secs>     solver budget per obligation (default 5)
  --sig-only|--explicit|--flow   projection to print (view; default: canonical)
  -o <path>                  output executable (build)
  --lib                      build a static library plus its C header (build)
  --emit-c                   also keep the generated C next to the output
  -- <args...>               arguments passed to the program (run)
";

// ------------------------------------------------------------ numbers

/// The value of a run of decimal digits.
pub open spec fn digits_value(ds: Seq<char>) -> nat
    decreases ds.len(),
{
    if ds.len() == 0 {
        0
    } else {
        digits_value(ds.drop_last()) * 10 + (ds.last() as nat - '0' as nat) as nat
    }
}

pub open spec fn all_digits(ds: Seq<char>) -> bool {
    forall|i: int| 0 <= i < ds.len() ==> '0' <= #[trigger] ds[i] && ds[i] <= '9'
}

/// A `u64` written in decimal, as std's `u64::from_str` reads it: an
/// optional `+`, then one or more digits, and no more than `u64::MAX`.
pub open spec fn parsed_u64(s: Seq<char>) -> Option<u64> {
    let ds = if s.len() > 0 && s[0] == '+' {
        s.drop_first()
    } else {
        s
    };
    if ds.len() > 0 && all_digits(ds) && digits_value(ds) <= u64::MAX {
        Some(digits_value(ds) as u64)
    } else {
        None
    }
}

pub proof fn lemma_digits_grow(ds: Seq<char>, k: int)
    requires
        0 <= k <= ds.len(),
        all_digits(ds),
    ensures
        digits_value(ds.take(k)) <= digits_value(ds),
    decreases ds.len() - k,
{
    if k < ds.len() {
        lemma_digits_grow(ds, k + 1);
        assert(ds.take(k + 1).drop_last() == ds.take(k));
        assert('0' <= ds[k] <= '9');
    } else {
        assert(ds.take(k) == ds);
    }
}

proof fn lemma_strs_push(prev: Seq<String>, s: String)
    ensures
        strs(prev.push(s)) == strs(prev).push(s@),
{
    assert(strs(prev.push(s)) =~= strs(prev).push(s@));
}

proof fn lemma_decimal_digits(n: nat)
    ensures
        all_digits(decimal(n)),
        decimal(n).len() > 0,
        decimal(n)[0] != '+',
        digits_value(decimal(n)) == n,
    decreases n,
{
    if n >= 10 {
        lemma_decimal_digits(n / 10);
        let d = decimal(n / 10);
        assert(decimal(n).drop_last() == d);
        assert(decimal(n)[0] == d[0]);
        assert(digit(n % 10) as nat == n % 10 + 48);
        assert(decimal(n).last() == digit(n % 10));
        assert(digits_value(decimal(n)) == digits_value(d) * 10 + (n % 10));
        assert((n / 10) * 10 + n % 10 == n) by (nonlinear_arith);
    } else {
        assert(decimal(n).drop_last() =~= Seq::<char>::empty());
        assert(digit(n) as nat == n + 48);
        assert(decimal(n).last() == digit(n));
        assert(digits_value(decimal(n)) == digits_value(Seq::<char>::empty()) * 10 + n);
    }
}

/// Every number the driver prints reads back as itself: `parse_u64` takes
/// the decimal spelling of any `u64` to that `u64`.
pub proof fn lemma_decimal_reads_back(n: u64)
    ensures
        parsed_u64(decimal(n as nat)) == Some(n),
{
    lemma_decimal_digits(n as nat);
}

pub fn parse_u64(s: &str) -> (r: Option<u64>)
    ensures
        r == parsed_u64(s@),
{
    let cs = chars_of(s);
    let from: usize = if cs.len() > 0 && cs[0] == '+' {
        1
    } else {
        0
    };
    let ghost ds = if cs@.len() > 0 && cs@[0] == '+' {
        cs@.drop_first()
    } else {
        cs@
    };
    assert(ds == cs@.skip(from as int));
    if from == cs.len() {
        return None;
    }
    let mut v: u64 = 0;
    let mut i: usize = from;
    while i < cs.len()
        invariant
            from <= i <= cs@.len(),
            cs@ == s@,
            ds == cs@.skip(from as int),
            ds == (if s@.len() > 0 && s@[0] == '+' {
                s@.drop_first()
            } else {
                s@
            }),
            ds.len() > 0,
            v == digits_value(ds.take(i - from)),
            all_digits(ds.take(i - from)),
        decreases cs@.len() - i,
    {
        let c = cs[i];
        assert(ds.take(i + 1 - from).drop_last() == ds.take(i - from));
        assert(ds[i - from] == c);
        assert(ds.take(i + 1 - from).last() == c);
        if !('0' <= c && c <= '9') {
            assert(!all_digits(ds));
            return None;
        }
        let d = (c as u32 - '0' as u32) as u64;
        if v > (u64::MAX - d) / 10 {
            proof {
                assert(v * 10 + d > u64::MAX) by (nonlinear_arith)
                    requires
                        v > (u64::MAX - d) / 10,
                        d <= 9,
                ;
                assert(all_digits(ds.take(i + 1 - from)));
                if all_digits(ds) {
                    lemma_digits_grow(ds, i + 1 - from);
                }
            }
            return None;
        }
        assert(v * 10 + d <= u64::MAX) by (nonlinear_arith)
            requires
                v <= (u64::MAX - d) / 10,
                d <= 9,
        ;
        v = v * 10 + d;
        i += 1;
    }
    assert(ds.take(cs@.len() - from) == ds);
    Some(v)
}

// ------------------------------------------------------------ arguments

/// What the arguments asked for, as far as they have been read.
pub struct Asked {
    pub emit_c: bool,
    pub lib: bool,
    pub prove: bool,
    pub view: Mode,
    pub fmt: DiagFormat,
    pub out: Option<Seq<char>>,
    pub budget: Option<u64>,
    pub prog_args: Seq<Seq<char>>,
    pub positional: Seq<Seq<char>>,
}

/// Nothing asked for yet.
pub open spec fn asked_nothing() -> Asked {
    Asked {
        emit_c: false,
        lib: false,
        prove: false,
        view: Mode::Canon,
        fmt: DiagFormat::Prose,
        out: None,
        budget: None,
        prog_args: Seq::empty(),
        positional: Seq::empty(),
    }
}

/// Reads the arguments from `i` on. `--` hands everything after it to the
/// program; an option that needs a value takes the next argument; anything
/// else that starts with `-` is refused.
pub open spec fn scan(argv: Seq<Seq<char>>, i: int, f: Asked) -> Result<Asked, Seq<char>>
    decreases argv.len() - i,
{
    if i < 0 || i >= argv.len() {
        Ok(f)
    } else {
        let a = argv[i];
        if a == "--"@ {
            Ok(Asked { prog_args: argv.skip(i + 1), ..f })
        } else if a == "--emit-c"@ {
            scan(argv, i + 1, Asked { emit_c: true, ..f })
        } else if a == "--lib"@ {
            scan(argv, i + 1, Asked { lib: true, ..f })
        } else if a == "--prove"@ {
            scan(argv, i + 1, Asked { prove: true, ..f })
        } else if has_prefix(a, "--prove-timeout="@) {
            let v = a.skip("--prove-timeout="@.len() as int);
            match parsed_u64(v) {
                Some(n) => scan(argv, i + 1, Asked { budget: Some(n), ..f }),
                None => Err("`"@ + v + "` is not a number of seconds"@),
            }
        } else if a == "--sig-only"@ {
            scan(argv, i + 1, Asked { view: Mode::SigOnly, ..f })
        } else if a == "--explicit"@ {
            scan(argv, i + 1, Asked { view: Mode::Explicit, ..f })
        } else if a == "--flow"@ {
            scan(argv, i + 1, Asked { view: Mode::Flow, ..f })
        } else if a == "-h"@ || a == "--help"@ {
            Err(USAGE@)
        } else if a == "-o"@ {
            if i + 1 < argv.len() {
                scan(argv, i + 2, Asked { out: Some(argv[i + 1]), ..f })
            } else {
                Err("-o needs a path"@)
            }
        } else if has_prefix(a, "--diag="@) {
            let x = a.skip("--diag="@.len() as int);
            if x == "prose"@ {
                scan(argv, i + 1, Asked { fmt: DiagFormat::Prose, ..f })
            } else if x == "struct"@ {
                scan(argv, i + 1, Asked { fmt: DiagFormat::Struct, ..f })
            } else if x == "json"@ {
                scan(argv, i + 1, Asked { fmt: DiagFormat::Json, ..f })
            } else {
                Err("unknown diagnostic format `"@ + x + "`"@)
            }
        } else if a.len() > 0 && a[0] == '-' {
            Err("unknown option `"@ + a + "`"@)
        } else {
            scan(argv, i + 1, Asked { positional: f.positional.push(a), ..f })
        }
    }
}

/// The whole command line: a command and a file, and more positionals only
/// for `patch`.
pub open spec fn parsed_args(argv: Seq<Seq<char>>) -> Result<Asked, Seq<char>> {
    match scan(argv, 0, asked_nothing()) {
        Err(e) => Err(e),
        Ok(f) => if f.positional.len() < 2 {
            Err(USAGE@)
        } else if f.positional[0] != "patch"@ && f.positional.len() > 2 {
            Err("`"@ + f.positional[0] + "` takes one file"@)
        } else {
            Ok(f)
        },
    }
}

/// The options of a run.
pub struct Opts {
    pub cmd: String,
    pub file: String,
    pub out: Option<String>,
    pub fmt: DiagFormat,
    pub emit_c: bool,
    pub lib: bool,
    pub prove: bool,
    pub view: Mode,
    pub prog_args: Vec<String>,
    /// positionals after the file: the `patch` path, hash and new node
    pub rest: Vec<String>,
    /// the solver budget asked for with `--prove-timeout`, the last one given
    pub budget: Option<u64>,
}

pub open spec fn strs(v: Seq<String>) -> Seq<Seq<char>> {
    v.map_values(|s: String| s@)
}

pub open spec fn opt_str(o: Option<String>) -> Option<Seq<char>> {
    match o {
        Some(s) => Some(s@),
        None => None,
    }
}

/// The options say what the arguments asked for.
pub open spec fn opts_match(o: Opts, f: Asked) -> bool {
    &&& f.positional.len() >= 2
    &&& o.cmd@ == f.positional[0]
    &&& o.file@ == f.positional[1]
    &&& strs(o.rest@) == f.positional.skip(2)
    &&& opt_str(o.out) == f.out
    &&& o.fmt == f.fmt
    &&& o.emit_c == f.emit_c
    &&& o.lib == f.lib
    &&& o.prove == f.prove
    &&& o.view == f.view
    &&& strs(o.prog_args@) == f.prog_args
    &&& o.budget == f.budget
}

/// What has been read so far, in the scanner's terms.
pub open spec fn asked_so_far(
    emit_c: bool,
    lib: bool,
    prove: bool,
    view: Mode,
    fmt: DiagFormat,
    out: Option<String>,
    budget: Option<u64>,
    positional: Seq<String>,
) -> Asked {
    Asked {
        emit_c,
        lib,
        prove,
        view,
        fmt,
        out: opt_str(out),
        budget,
        prog_args: Seq::empty(),
        positional: strs(positional),
    }
}

fn copy_strings(v: &[String], from: usize) -> (r: Vec<String>)
    requires
        from <= v@.len(),
    ensures
        strs(r@) == strs(v@).skip(from as int),
{
    let mut out: Vec<String> = Vec::new();
    for k in from..v.len()
        invariant
            from <= v@.len(),
            strs(out@) == strs(v@).subrange(from as int, k as int),
    {
        let s = v[k].clone();
        let ghost prev = out@;
        out.push(s);
        proof {
            lemma_strs_push(prev, s);
            assert(strs(v@)[k as int] == v@[k as int]@);
        }
        assert(strs(out@) =~= strs(v@).subrange(from as int, k + 1));
    }
    out
}

pub fn parse_args(argv: &[String]) -> (r: Result<Opts, String>)
    ensures
        match r {
            Ok(o) => parsed_args(strs(argv@)) matches Ok(f) && opts_match(o, f),
            Err(e) => parsed_args(strs(argv@)) == Err::<Asked, Seq<char>>(e@),
        },
{
    let ghost av = strs(argv@);
    let mut emit_c = false;
    let mut lib = false;
    let mut prove = false;
    let mut view = Mode::Canon;
    let mut fmt = DiagFormat::Prose;
    let mut out: Option<String> = None;
    let mut budget: Option<u64> = None;
    let mut positional: Vec<String> = Vec::new();
    let mut prog_args: Vec<String> = Vec::new();
    let mut i: usize = 0;
    assert(strs(positional@) =~= Seq::<Seq<char>>::empty());
    assert(asked_so_far(emit_c, lib, prove, view, fmt, out, budget, positional@) == asked_nothing());
    assert(strs(prog_args@) =~= Seq::<Seq<char>>::empty());
    while i < argv.len()
        invariant_except_break
            av == strs(argv@),
            i <= argv@.len(),
            scan(av, i as int, asked_so_far(emit_c, lib, prove, view, fmt, out, budget, positional@))
                == scan(av, 0, asked_nothing()),
            strs(prog_args@) == Seq::<Seq<char>>::empty(),
        ensures
            av == strs(argv@),
            scan(av, 0, asked_nothing()) == Ok::<Asked, Seq<char>>(
                Asked { prog_args: strs(prog_args@), ..asked_so_far(emit_c, lib, prove, view, fmt, out, budget, positional@) },
            ),
        decreases argv@.len() - i,
    {
        let a = argv[i].as_str();
        let ghost i0 = i;
        let ghost st0 = asked_so_far(emit_c, lib, prove, view, fmt, out, budget, positional@);
        assert(av[i as int] == a@);
        proof {
            reveal_strlit("--prove-timeout=");
            reveal_strlit("--diag=");
            reveal_strlit("-");
        }
        if str_eq(a, "--") {
            prog_args = copy_strings(argv, i + 1);
            break;
        } else if str_eq(a, "--emit-c") {
            emit_c = true;
            assert(scan(av, i0 as int, st0) == scan(av, i + 1, asked_so_far(emit_c, lib, prove, view, fmt, out, budget, positional@)));
        } else if str_eq(a, "--lib") {
            lib = true;
            assert(scan(av, i0 as int, st0) == scan(av, i + 1, asked_so_far(emit_c, lib, prove, view, fmt, out, budget, positional@)));
        } else if str_eq(a, "--prove") {
            prove = true;
            assert(scan(av, i0 as int, st0) == scan(av, i + 1, asked_so_far(emit_c, lib, prove, view, fmt, out, budget, positional@)));
        } else if starts_with(a, "--prove-timeout=") {
            let cs = chars_of(a);
            let v = string_of_range(cs.as_slice(), 16, cs.len());
            assert(v@ == a@.skip("--prove-timeout="@.len() as int));
            match parse_u64(v.as_str()) {
                Some(n) => {
                    budget = Some(n);
                    assert(scan(av, i0 as int, st0) == scan(av, i + 1, asked_so_far(emit_c, lib, prove, view, fmt, out, budget, positional@)));
                },
                None => {
                    let mut e = owned("`");
                    push_str(&mut e, v.as_str());
                    push_str(&mut e, "` is not a number of seconds");
                    return Err(e);
                },
            }
        } else if str_eq(a, "--sig-only") {
            view = Mode::SigOnly;
            assert(scan(av, i0 as int, st0) == scan(av, i + 1, asked_so_far(emit_c, lib, prove, view, fmt, out, budget, positional@)));
        } else if str_eq(a, "--explicit") {
            view = Mode::Explicit;
            assert(scan(av, i0 as int, st0) == scan(av, i + 1, asked_so_far(emit_c, lib, prove, view, fmt, out, budget, positional@)));
        } else if str_eq(a, "--flow") {
            view = Mode::Flow;
            assert(scan(av, i0 as int, st0) == scan(av, i + 1, asked_so_far(emit_c, lib, prove, view, fmt, out, budget, positional@)));
        } else if str_eq(a, "-h") || str_eq(a, "--help") {
            return Err(owned(USAGE));
        } else if str_eq(a, "-o") {
            i += 1;
            if i >= argv.len() {
                return Err(owned("-o needs a path"));
            }
            assert(av[i as int] == argv@[i as int]@);
            out = Some(argv[i].clone());
            assert(scan(av, i0 as int, st0) == scan(av, i + 1, asked_so_far(emit_c, lib, prove, view, fmt, out, budget, positional@)));
        } else if starts_with(a, "--diag=") {
            let cs = chars_of(a);
            let x = string_of_range(cs.as_slice(), 7, cs.len());
            assert(x@ == a@.skip("--diag="@.len() as int));
            if str_eq(x.as_str(), "prose") {
                fmt = DiagFormat::Prose;
            } else if str_eq(x.as_str(), "struct") {
                fmt = DiagFormat::Struct;
            } else if str_eq(x.as_str(), "json") {
                fmt = DiagFormat::Json;
            } else {
                let mut e = owned("unknown diagnostic format `");
                push_str(&mut e, x.as_str());
                push_str(&mut e, "`");
                return Err(e);
            }
        } else if starts_with(a, "-") {
            proof {
                reveal_strlit("-");
                assert(a@.take(1)[0] == a@[0]);
            }
            let mut e = owned("unknown option `");
            push_str(&mut e, a);
            push_str(&mut e, "`");
            return Err(e);
        } else {
            proof {
                reveal_strlit("-");
                if a@.len() > 0 && a@[0] == '-' {
                    assert(a@.take(1) =~= "-"@);
                }
            }
            let ghost before = positional@;
            let p = argv[i].clone();
            positional.push(p);
            proof {
                lemma_strs_push(before, p);
            }
            assert(scan(av, i0 as int, st0) == scan(av, i + 1, asked_so_far(emit_c, lib, prove, view, fmt, out, budget, positional@)));
        }
        i += 1;
    }
    let ghost f = Asked {
        prog_args: strs(prog_args@),
        ..asked_so_far(emit_c, lib, prove, view, fmt, out, budget, positional@)
    };
    if positional.len() < 2 {
        return Err(owned(USAGE));
    }
    let cmd = positional[0].clone();
    let file = positional[1].clone();
    let rest = copy_strings(positional.as_slice(), 2);
    assert(f.positional == strs(positional@));
    assert(cmd@ == f.positional[0]);
    assert(file@ == f.positional[1]);
    assert(strs(rest@).len() == f.positional.len() - 2);
    if !str_eq(cmd.as_str(), "patch") && rest.len() > 0 {
        let mut e = owned("`");
        push_str(&mut e, cmd.as_str());
        push_str(&mut e, "` takes one file");
        return Err(e);
    }
    Ok(Opts { cmd, file, out, fmt, emit_c, lib, prove, view, prog_args, rest, budget })
}

// ------------------------------------------------------------ listings

/// One line per obligation left open: its path, code and message, tab
/// separated. An obligation counts as closed when `closed` says so at its
/// index.
pub open spec fn listing(obs: Seq<Ob>, closed: Seq<bool>) -> Seq<char>
    decreases obs.len(),
{
    if obs.len() == 0 {
        Seq::empty()
    } else {
        let k = obs.len() - 1;
        listing(obs.drop_last(), closed) + if k < closed.len() && closed[k] {
            Seq::empty()
        } else {
            obs[k].path@ + "\t"@ + obs[k].code@ + "\t"@ + obs[k].msg@ + "\n"@
        }
    }
}

/// `vibe proof`: the caveats, then the open obligations one line each,
/// addressed by the semantic path the diagnostics use. `closed` holds, for
/// each obligation, whether the solver closed it (all `false` without
/// `--prove`).
pub fn proof_listing(obs: &[Ob], skipped: usize, closed: &[bool]) -> (r: String)
    ensures
        r@ == crate::refine::caveats_text(obs@, skipped as nat) + listing(obs@, closed@),
{
    let mut out = crate::refine::caveats(obs, skipped);
    let ghost head = out@;
    for i in 0..obs.len()
        invariant
            out@ == head + listing(obs@.take(i as int), closed@),
    {
        assert(obs@.take(i + 1).drop_last() == obs@.take(i as int));
        if i < closed.len() && closed[i] {
        } else {
            let o = &obs[i];
            push_str(&mut out, o.path.as_str());
            push_str(&mut out, "\t");
            push_str(&mut out, o.code.as_str());
            push_str(&mut out, "\t");
            push_str(&mut out, o.msg.as_str());
            push_str(&mut out, "\n");
        }
        assert(out@ =~= head + listing(obs@.take(i + 1), closed@));
    }
    assert(obs@.take(obs@.len() as int) == obs@);
    out
}

/// The diagnostics of a run, rendered: a JSON array with `--diag=json`, one
/// after another on their own lines otherwise.
pub open spec fn diags_text(ds: Seq<Diag>, files: Files, fmt: DiagFormat) -> Seq<char> {
    let body = ds.map_values(|d: Diag| rendered(d, files, fmt));
    if fmt == DiagFormat::Json {
        "["@ + join(body, ","@) + "]"@
    } else {
        join(body, "\n"@)
    }
}

pub fn diags(ds: &[Diag], files: &Files, fmt: DiagFormat) -> (r: String)
    requires
        forall|k: int| 0 <= k < ds@.len() ==> #[trigger] ds@[k].span.col < usize::MAX,
    ensures
        r@ == diags_text(ds@, *files, fmt),
{
    let mut body: Vec<String> = Vec::new();
    for i in 0..ds.len()
        invariant
            forall|k: int| 0 <= k < ds@.len() ==> #[trigger] ds@[k].span.col < usize::MAX,
            strs(body@) == ds@.take(i as int).map_values(|d: Diag| rendered(d, *files, fmt)),
    {
        let s = render(&ds[i], files, fmt);
        let ghost prev = body@;
        body.push(s);
        proof {
            lemma_strs_push(prev, s);
            assert(ds@.take(i + 1).drop_last() == ds@.take(i as int));
        }
        assert(strs(body@) =~= ds@.take(i + 1).map_values(|d: Diag| rendered(d, *files, fmt)));
    }
    assert(ds@.take(ds@.len() as int) == ds@);
    let mut out = String::new();
    match fmt {
        DiagFormat::Json => {
            push_str(&mut out, "[");
            push_joined(&mut out, body.as_slice(), ",");
            push_str(&mut out, "]");
        },
        _ => {
            push_joined(&mut out, body.as_slice(), "\n");
        },
    }
    out
}

} // verus!
