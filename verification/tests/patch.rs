use vibe::diag::Span;
use vibe::patch::{apply, decl_end, ext_key, find, hash, join_names, line_starts, offset, split_head, Node};

#[test]
fn the_hash_separates_what_it_must() {
    assert_eq!(hash("t.price * f64 t.qty"), hash("t.price * f64 t.qty"));
    assert_ne!(hash("a"), hash("b"));
    assert_ne!(hash("ab"), hash("ba"), "order has to matter");
    assert_eq!(hash("").len(), 16);
}

#[test]
fn a_head_splits_at_the_bare_equals() {
    let src = "f (n:U64, n >= 1) : U64 = n + 1";
    let (sig, body) = split_head(src, 0, src.len()).expect("a head with a body");
    assert_eq!(&src[..sig], "f (n:U64, n >= 1) : U64", "`>=` is not the separator");
    assert_eq!(&src[body..], "n + 1");
}

#[test]
fn a_head_with_no_body_splits_nowhere() {
    let src = "type Err = Bad Str";
    assert!(split_head(src, 0, 0).is_none(), "an empty extent has no head");
}

#[test]
fn the_hash_is_fnv_1a() {
    // FNV-1a of the empty input is its offset basis; of "a" a known value
    assert_eq!(hash(""), "cbf29ce484222325");
    assert_eq!(hash("a"), "af63dc4c8601ec8c");
}

#[test]
fn a_head_without_a_bare_equals_does_not_split() {
    let src = "f (n:U64, n == 1, n != 2, n <= 3) : Bool";
    assert!(split_head(src, 0, src.len()).is_none());
}

#[test]
fn the_separator_belongs_to_neither_side() {
    let src = "g : U64   =   7";
    let (sig, body) = split_head(src, 0, src.len()).unwrap();
    assert_eq!(&src[..sig], "g : U64");
    assert_eq!(&src[body..], "7");
    assert!(sig < body);
}

#[test]
fn apply_replaces_only_the_node() {
    let src = "a = 1\nb = 2\nc = 3\n";
    let n = Node { path: "M.b.body".to_string(), start: 10, end: 11 };
    assert_eq!(n.text(src), "2");
    assert_eq!(apply(src, &n, "42\n\n"), "a = 1\nb = 42\nc = 3\n");
}

#[test]
fn line_starts_and_offsets() {
    let src = "ab\ncd\n\nef";
    let starts = line_starts(src);
    assert_eq!(starts, vec![0, 3, 6, 7, 9]);
    let s = Span { file: 0, line: 2, col: 1, len: 1 };
    assert_eq!(offset(&starts, s), 4);
}

#[test]
fn a_declaration_ends_before_the_blank_lines() {
    let src = "f = 1\n\n\ng = 2\n";
    let starts = line_starts(src);
    assert_eq!(decl_end(src, &starts, Some(4)), 5);
}

#[test]
fn ext_keys_name_the_header() {
    assert_eq!(ext_key("stdio.h"), "stdio");
    assert_eq!(ext_key("sys/time.h"), "sys_time");
}

#[test]
fn find_looks_a_node_up_by_path() {
    let nodes = vec![
        Node { path: "M.a.body".to_string(), start: 0, end: 1 },
        Node { path: "M.b.body".to_string(), start: 2, end: 3 },
    ];
    assert_eq!(find(&nodes, "M.b.body").map(|n| n.start), Some(2));
    assert!(find(&nodes, "M.c.body").is_none());
}

#[test]
fn callee_names_are_qualified_with_the_module() {
    let names = vec!["amt".to_string(), "Money.vat".to_string()];
    assert_eq!(join_names(&names, "Ledger"), "Ledger.amt Money.vat");
    assert_eq!(join_names(&[], "Ledger"), "-");
}

fn module_nodes(src: &str) -> Vec<Node> {
    let m = vibe::decl::parse(vibe::lexer::lex(src, 0).unwrap()).unwrap();
    vibe::patch::nodes(&m, src)
}

#[test]
fn a_function_is_addressed_whole_and_by_signature_and_body() {
    let src = "mod Ledger\n\namt (t:U64) : U64 = t * 2\n\nmean (n:U64) : U64 =\n  n / 2\n";
    let ns = module_nodes(src);
    let paths: Vec<&str> = ns.iter().map(|n| n.path.as_str()).collect();
    assert_eq!(
        paths,
        vec!["Ledger.amt.sig", "Ledger.amt.body", "Ledger.amt", "Ledger.mean.sig", "Ledger.mean.body", "Ledger.mean"]
    );
    assert_eq!(find(&ns, "Ledger.amt.body").unwrap().text(src), "t * 2");
    assert_eq!(find(&ns, "Ledger.amt.sig").unwrap().text(src), "amt (t:U64) : U64");
    assert_eq!(find(&ns, "Ledger.amt").unwrap().text(src), "amt (t:U64) : U64 = t * 2");
    assert_eq!(find(&ns, "Ledger.mean.body").unwrap().text(src), "\n  n / 2");
    assert_eq!(hash(find(&ns, "Ledger.amt.body").unwrap().text(src)).len(), 16);
}

#[test]
fn types_ext_blocks_and_exports_are_nodes_too() {
    let src = "mod M\n\ntype Shape = Circle U64\n\next c \"stdio.h\"\n  puts : &CStr -> E! I32\nend\n\nexp c f\nf (n:U64) : U64 = n\n";
    let ns = module_nodes(src);
    let paths: Vec<&str> = ns.iter().map(|n| n.path.as_str()).collect();
    assert_eq!(paths, vec!["M.Shape", "M.ext.stdio", "M.exp", "M.f.sig", "M.f.body", "M.f"]);
    assert_eq!(find(&ns, "M.Shape").unwrap().text(src), "type Shape = Circle U64");
    assert_eq!(find(&ns, "M.exp").unwrap().text(src), "exp c f");
}

/// A small ledger in the shape of the reference program: a one-line body,
/// a multi-line match body, and a caller.
const LEDGER: &str = "mod Ledger\n\namt (t:Trade) : F64 = t.price * f64 t.qty\n\nparse (ln:Str) : R Trade Err =\n  ?split ',' ln\n     |[p, q]  -> Ok (Trade p q)\n     |_       -> Er (Bad (dup ln))\n  end\n\ntotal (ts:Vec Trade) : F64 = sum (map amt ts)\n";

#[test]
fn a_node_reads_back_with_its_hash() {
    let ns = module_nodes(LEDGER);
    let text = find(&ns, "Ledger.amt.body").unwrap().text(LEDGER);
    assert_eq!(text, "t.price * f64 t.qty");
    let h = hash(text);
    assert_eq!(h.len(), 16, "the hash is 16 hex digits: {h}");
    // the signature stops at the `=`, so the two nodes do not overlap
    let sig = find(&ns, "Ledger.amt.sig").unwrap().text(LEDGER);
    assert!(sig.ends_with(": F64"), "the separator belongs to neither node: {sig:?}");
}

#[test]
fn a_multi_line_body_keeps_its_indentation() {
    let ns = module_nodes(LEDGER);
    let text = find(&ns, "Ledger.parse.body").unwrap().text(LEDGER).trim_end();
    assert!(text.starts_with("\n  ?split ',' ln"), "{text:?}");
    assert!(text.ends_with("|_       -> Er (Bad (dup ln))\n  end"), "{text:?}");
}
