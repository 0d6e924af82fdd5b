//! The debounced parse cache, the indexing filters, root discovery,
//! manifests, and document identities.
use parsec::state::{DocState, ServerState};
use parsec::uri::file_uri_to_path;
use parsec::workspace::{
    dep_roots, expand_tilde, manifest_dep_names, query_scope, should_index_path, split_depots,
};

#[test]
fn debounce_keeps_the_tree_during_rapid_edits() {
    let mut doc = DocState::new(b"function f()\nend\n".to_vec(), 10_000);
    // no tree yet: the first request parses regardless of the interval
    doc.parse_with_debounce(120, 10_000);
    assert!(doc.tree.is_some());
    assert_eq!(doc.last_parse, 10_000);
    // edits arrive faster than the interval: the tree must not change
    doc.update_text(b"function g()\nend\nfunction h()\nend\n".to_vec(), 10_050);
    doc.parse_with_debounce(120, 10_060);
    assert_eq!(doc.last_parse, 10_000, "no reparse inside the interval");
    let stale = parsec::outline::extract_outline(doc.tree.as_ref().unwrap(), &doc.text);
    // the cached tree still has the old text's structure: one symbol,
    // not two - expected staleness, bounded by the interval
    assert_eq!(stale.len(), 1);
    doc.update_text(b"function g()\nend\nfunction h()\nend\nfunction i()\nend\n".to_vec(), 10_100);
    doc.parse_with_debounce(120, 10_110);
    assert_eq!(doc.last_parse, 10_000, "still inside the interval");
    // once the edits pause past the interval, one reparse happens
    doc.parse_with_debounce(120, 10_250);
    assert_eq!(doc.last_parse, 10_250);
    let fresh = parsec::outline::extract_outline(doc.tree.as_ref().unwrap(), &doc.text);
    assert_eq!(fresh.len(), 3);
    assert_eq!(fresh[2].name, b"i".to_vec());
}

#[test]
fn fresh_tree_is_reused_without_reparsing() {
    let mut doc = DocState::new(b"function f()\nend\n".to_vec(), 0);
    doc.parse_with_debounce(120, 0);
    let stamp = doc.last_parse;
    doc.parse_with_debounce(120, 5_000);
    assert_eq!(doc.last_parse, stamp, "a fresh tree is served as is");
}

#[test]
fn depot_file_without_src_is_excluded() {
    // a published-package path lacking the conventional source
    // subdirectory is skipped ...
    assert!(!should_index_path(&b"/depot/packages/Foo/x/file.jl".to_vec()));
    // ... the same file under a source subdirectory is taken
    assert!(should_index_path(&b"/depot/packages/Foo/src/file.jl".to_vec()));
    // an otherwise-identical file under a development-checkout layout
    // is included either way: the filter is for published packages only
    assert!(should_index_path(&b"/depot/dev/Foo/src/file.jl".to_vec()));
    assert!(should_index_path(&b"/depot/dev/Foo/notes/file.jl".to_vec()));
    // outside any storage layout no src component is demanded
    assert!(should_index_path(&b"/ws/deep/nested/file.jl".to_vec()));
    // only the domain extension is indexed at all
    assert!(!should_index_path(&b"/ws/src/readme.md".to_vec()));
    assert!(!should_index_path(&b"/ws/src/file.jl.bak".to_vec()));
}

#[test]
fn short_queries_stay_in_the_workspace() {
    let root = b"/ws".to_vec();
    assert_eq!(query_scope(0, Some(&root)), Some(&root));
    assert_eq!(query_scope(2, Some(&root)), Some(&root));
    assert_eq!(query_scope(3, Some(&root)), None);
    assert_eq!(query_scope(1, None), None);
}

#[test]
fn workspace_search_scopes_by_query_length() {
    let mut st = ServerState::new();
    st.set_root(b"/ws".to_vec());
    st.index_file(&b"file:///ws/a.jl".to_vec(), b"function ab()\nend\n".to_vec(), 0);
    st.index_file(
        &b"file:///depot/packages/P/src/p.jl".to_vec(),
        b"function ab()\nend\nfunction abcdef()\nend\n".to_vec(),
        0,
    );
    // two bytes: restricted to the workspace root
    let short = st.workspace_search(&b"ab".to_vec(), 100);
    assert_eq!(short.len(), 1);
    assert_eq!(short[0].uri, b"file:///ws/a.jl".to_vec());
    // three bytes: the dependency roots are searched too
    let long = st.workspace_search(&b"abc".to_vec(), 100);
    assert_eq!(long.len(), 1);
    assert_eq!(long[0].uri, b"file:///depot/packages/P/src/p.jl".to_vec());
}

#[test]
fn manifest_deps_are_the_table_keys_once_each() {
    let text = b"name = \"Demo\"\n[deps]\nFoo = \"uuid-1\"\nBar-Baz = \"uuid-2\"\nFoo = \"again\"\n\n[compat]\nFoo = \"1\"\n".to_vec();
    let names = manifest_dep_names(&text);
    let got: Vec<&[u8]> = names.iter().map(|n| n.as_slice()).collect();
    assert_eq!(got, vec![b"Foo".as_slice(), b"Bar-Baz".as_slice()]);
}

#[test]
fn missing_or_malformed_manifest_yields_no_deps() {
    assert!(manifest_dep_names(&b"".to_vec()).is_empty());
    assert!(manifest_dep_names(&b"Foo = \"1\"\n".to_vec()).is_empty());
    assert!(manifest_dep_names(&b"not toml at all [[[".to_vec()).is_empty());
    // a key with no value after its = declares nothing
    assert!(manifest_dep_names(&b"[deps]\nFoo =\nBar =   \n".to_vec()).is_empty());
}

#[test]
fn dep_roots_probe_both_layouts_per_depot() {
    let depots = vec![b"/d1".to_vec(), b"/d2".to_vec()];
    let deps = vec![b"Foo".to_vec()];
    let roots = dep_roots(&depots, &deps);
    let got: Vec<&[u8]> = roots.iter().map(|r| r.as_slice()).collect();
    assert_eq!(
        got,
        vec![
            b"/d1/packages/Foo".as_slice(),
            b"/d1/dev/Foo".as_slice(),
            b"/d2/packages/Foo".as_slice(),
            b"/d2/dev/Foo".as_slice(),
        ]
    );
}

#[test]
fn depot_list_splits_and_expands() {
    let home = b"/home/u".to_vec();
    let got = split_depots(&b"~/depot:/opt/julia:~".to_vec(), &home);
    let got: Vec<&[u8]> = got.iter().map(|r| r.as_slice()).collect();
    assert_eq!(
        got,
        vec![b"/home/u/depot".as_slice(), b"/opt/julia".as_slice(), b"/home/u".as_slice()]
    );
    assert_eq!(expand_tilde(&b"~user/x".to_vec(), &home), b"~user/x".to_vec());
}

#[test]
fn file_identities_map_to_decoded_paths() {
    assert_eq!(
        file_uri_to_path(&b"file:///ws/My%20Pkg/a.jl".to_vec()),
        Some(b"/ws/My Pkg/a.jl".to_vec())
    );
    assert_eq!(file_uri_to_path(&b"untitled:one".to_vec()), None);
    // malformed escapes pass through unchanged
    assert_eq!(file_uri_to_path(&b"file:///a%2".to_vec()), Some(b"/a%2".to_vec()));
}

#[test]
fn insert_doc_replaces_text_wholesale() {
    let mut st = ServerState::new();
    let uri = b"file:///ws/a.jl".to_vec();
    st.insert_doc(&uri, b"function f()\nend\n".to_vec(), 0);
    st.insert_doc(&uri, b"function g()\nend\n".to_vec(), 10);
    st.reindex_doc(&uri, 10);
    let got = st.workspace_search(&b"".to_vec(), 10);
    assert_eq!(got.len(), 1);
    assert_eq!(got[0].name, b"g".to_vec());
}
