//! Outline extraction against the real grammar: nesting, ranges,
//! idempotence, and the synthesis passes.
use parsec::outline::extract_outline;
use parsec::parse::{parse, tree_to_syn};
use parsec::state::DocState;
use parsec::state::extract_document_symbols_with_cache;
use parsec::state::extract_workspace_symbols_with_cache;
use parsec::symbols::{synthesize_macro_symbols, synthesize_shorthand_symbols};
use parsec::types::{OutlineNode, SymKind};

fn outline_of(src: &str) -> Vec<OutlineNode> {
    let text = src.as_bytes().to_vec();
    let tree = parse(&text, None).expect("the engine parses Julia source");
    let syn = tree_to_syn(&tree);
    extract_outline(&syn, &text)
}

#[test]
fn module_with_nested_function_gives_one_root_one_child() {
    let src = "module M\nfunction f(x)\nx\nend\nend\n";
    let roots = outline_of(src);
    assert_eq!(roots.len(), 1, "one root node");
    let m = &roots[0];
    assert_eq!(m.name, b"M".to_vec());
    assert_eq!(m.kind, SymKind::Module);
    assert_eq!(m.children.len(), 1, "exactly one child");
    let f = &m.children[0];
    assert_eq!(f.name, b"f".to_vec());
    assert_eq!(f.kind, SymKind::Function);
    // the root's full range covers the whole block ...
    assert_eq!(m.start, 0);
    assert_eq!(m.end, src.len() - 1);
    // ... while its selection range covers only the name token "M"
    assert_eq!(m.selection_range.start.line, 0);
    assert_eq!(m.selection_range.start.character, 7);
    assert_eq!(m.selection_range.end.line, 0);
    assert_eq!(m.selection_range.end.character, 8);
    assert_ne!(m.selection_range, m.range);
    // the child's byte range nests inside the parent's
    assert!(m.start <= f.start && f.end <= m.end);
}

#[test]
fn extraction_twice_is_byte_identical() {
    let src = "module M\nstruct S\nend\nfunction g()\nend\nend\n";
    let a = outline_of(src);
    let b = outline_of(src);
    assert_eq!(a, b);
}

#[test]
fn siblings_do_not_overlap() {
    let src = "function f()\nend\nfunction g()\nend\nfunction h()\nend\n";
    let roots = outline_of(src);
    assert_eq!(roots.len(), 3);
    for w in roots.windows(2) {
        assert!(w[0].end <= w[1].start, "siblings ordered and disjoint");
    }
}

#[test]
fn classification_table_is_applied() {
    let src = "module M\nend\nstruct S\nend\nabstract type A end\nprimitive type P 8 end\nconst C = 1\nmacro m()\nend\n";
    let roots = outline_of(src);
    let kinds: Vec<(Vec<u8>, SymKind)> =
        roots.iter().map(|n| (n.name.clone(), n.kind)).collect();
    assert!(kinds.contains(&(b"M".to_vec(), SymKind::Module)));
    assert!(kinds.contains(&(b"S".to_vec(), SymKind::Struct)));
    assert!(kinds.contains(&(b"A".to_vec(), SymKind::Class)));
    assert!(kinds.contains(&(b"C".to_vec(), SymKind::Constant)));
    assert!(kinds.contains(&(b"P".to_vec(), SymKind::Struct)));
    assert!(kinds.contains(&(b"m".to_vec(), SymKind::Function)));
}

#[test]
fn missing_tree_parses_immediately() {
    let mut doc = DocState {
        text: b"function f()\nend\n".to_vec(),
        tree: None,
        last_edit: 100,
        last_parse: 100,
    };
    // fresh timestamps but no tree at all: the debounce rule still
    // admits a parse, and the outline reflects the new tree
    let out = extract_document_symbols_with_cache(&mut doc, 120, 100);
    assert_eq!(out.len(), 1);
    assert_eq!(out[0].name, b"f".to_vec());
}

#[test]
fn equal_texts_parse_to_equal_outlines() {
    // the engine's result under the fixed grammar is a function of the
    // text alone: two caches over the same bytes agree exactly
    let text = b"module M\nfunction f(x)\nx\nend\nend\n".to_vec();
    let mut a = DocState::new(text.clone(), 0);
    let mut b = DocState::new(text, 5_000);
    let oa = extract_document_symbols_with_cache(&mut a, 120, 0);
    let ob = extract_document_symbols_with_cache(&mut b, 120, 5_000);
    assert_eq!(oa, ob);
    assert!(!oa.is_empty());
}

#[test]
fn unclassified_nodes_are_not_symbols() {
    // a hand-built tree whose kinds are outside the classification
    // table yields an empty outline
    let leaf = parsec::tree::SynNode {
        kind: "identifier".to_string(),
        named: true,
        start: 0,
        end: 1,
        field: None,
        children: Vec::new(),
    };
    let root = parsec::tree::SynNode {
        kind: "source_file".to_string(),
        named: true,
        start: 0,
        end: 1,
        field: None,
        children: vec![leaf],
    };
    let text = b"x".to_vec();
    assert!(extract_outline(&root, &text).is_empty());
}

#[test]
fn malformed_ranges_degrade_instead_of_breaking() {
    // offsets beyond the text are clamped, never sliced out of bounds
    let bad = parsec::tree::SynNode {
        kind: "module_definition".to_string(),
        named: true,
        start: 2,
        end: 900,
        field: None,
        children: vec![parsec::tree::SynNode {
            kind: "identifier".to_string(),
            named: true,
            start: 500,
            end: 400,
            field: Some("name".to_string()),
            children: Vec::new(),
        }],
    };
    let text = b"module".to_vec();
    let roots = extract_outline(&bad, &text);
    assert_eq!(roots.len(), 1);
    assert_eq!(roots[0].end, text.len());
    assert!(roots[0].name.is_empty());
}

#[test]
fn userplot_pass_captures_the_declared_identifier() {
    let text = b"  @userplot MyPlot\nx = 1\n@userplot  Other_2\n".to_vec();
    let uri = b"file:///ws/a.jl".to_vec();
    let got = synthesize_macro_symbols(&text, &uri);
    let names: Vec<&[u8]> = got.iter().map(|s| s.name.as_slice()).collect();
    assert_eq!(names, vec![b"MyPlot".as_slice(), b"Other_2".as_slice()]);
    assert_eq!(got[0].range.start.line, 0);
    assert_eq!(got[0].range.start.character, 12);
    assert_eq!(got[0].range.end.character, 13);
    assert_eq!(got[1].range.start.line, 2);
}

#[test]
fn recipe_pass_needs_the_function_keyword() {
    let text = b"@recipe function fancy(x)\n@recipe nofn\n".to_vec();
    let uri = b"file:///ws/a.jl".to_vec();
    let got = synthesize_macro_symbols(&text, &uri);
    assert_eq!(got.len(), 1);
    assert_eq!(got[0].name, b"fancy".to_vec());
    assert_eq!(got[0].kind, SymKind::Function);
}

#[test]
fn shorthand_pass_scans_a_bounded_window() {
    let text = b"@shorthands [:scat, :bubble]\n".to_vec();
    let uri = b"file:///ws/a.jl".to_vec();
    let got = synthesize_shorthand_symbols(&text, &uri);
    let names: Vec<&[u8]> = got.iter().map(|s| s.name.as_slice()).collect();
    // the anchor word itself matches the name pattern too: any bare
    // word before a delimiter is taken
    assert!(names.contains(&b"scat".as_slice()));
    assert!(names.contains(&b"bubble".as_slice()));
    // a name beyond the lookahead window is not reported
    let mut far = b"@shorthands".to_vec();
    far.extend(std::iter::repeat(b' ').take(700));
    far.extend_from_slice(b":faraway \n");
    let got = synthesize_shorthand_symbols(&far, &uri);
    assert!(got.iter().all(|s| s.name != b"faraway".to_vec()));
}

#[test]
fn bang_suffix_is_kept_in_shorthand_names() {
    let text = b"@shorthands (plot!,)\n".to_vec();
    let uri = b"file:///ws/a.jl".to_vec();
    let got = synthesize_shorthand_symbols(&text, &uri);
    assert!(got.iter().any(|s| s.name == b"plot!".to_vec()));
}

#[test]
fn workspace_extraction_appends_both_passes() {
    let src = b"function f()\nend\n@userplot Added\n".to_vec();
    let mut doc = DocState { text: src, tree: None, last_edit: 0, last_parse: 0 };
    let uri = b"file:///ws/a.jl".to_vec();
    let got = extract_workspace_symbols_with_cache(&mut doc, 120, 0, &uri);
    let names: Vec<&[u8]> = got.iter().map(|s| s.name.as_slice()).collect();
    assert!(names.contains(&b"f".as_slice()));
    assert!(names.contains(&b"Added".as_slice()));
    assert!(got.iter().all(|s| s.uri == uri));
}
