//! Fuzzy search: qualification, scoring order, selection, and recall.
use parsec::fuzzy::{fuzzy_score, is_boundary};
use parsec::index::SymbolIndex;
use parsec::select::{top_select, Cand};
use parsec::types::{Position, SymKind, SymbolInfo, TextRange};

fn zero_range() -> TextRange {
    TextRange {
        start: Position { line: 0, character: 0 },
        end: Position { line: 0, character: 0 },
    }
}

fn info(name: &str) -> SymbolInfo {
    SymbolInfo {
        name: name.as_bytes().to_vec(),
        kind: SymKind::Function,
        uri: b"file:///ws/a.jl".to_vec(),
        range: zero_range(),
    }
}

fn index_with(names: &[&str]) -> SymbolIndex {
    let mut ix = SymbolIndex::new();
    let infos: Vec<SymbolInfo> = names.iter().map(|n| info(n)).collect();
    ix.upsert_doc(&b"file:///ws/a.jl".to_vec(), infos);
    ix
}

#[test]
fn subsequence_accepts_in_order_matches() {
    // qualification is exactly: lowercased query is a subsequence of
    // the lowercased name
    let cases = [
        ("abc", "aXbXc", true),
        ("abc", "acb", false),
        ("", "anything", true),
        ("plot", "plot", true),
        ("plt", "plot", true),
        ("plott", "plot", false),
        ("ab", "BA", false),
        ("ba", "BA", true),
    ];
    for (q, name, expect) in cases {
        let nb = name.as_bytes().to_vec();
        let nlc = name.to_ascii_lowercase().as_bytes().to_vec();
        let qv = q.as_bytes().to_vec();
        assert_eq!(fuzzy_score(&qv, &nb, &nlc).is_some(), expect, "{q} vs {name}");
    }
}

#[test]
fn empty_query_scores_zero() {
    let nb = b"name".to_vec();
    let nlc = b"name".to_vec();
    assert_eq!(fuzzy_score(&Vec::new(), &nb, &nlc), Some(0));
}

#[test]
fn score_rewards_boundary_camel_and_contiguity() {
    let score = |q: &str, n: &str| {
        let nb = n.as_bytes().to_vec();
        let nlc = n.to_ascii_lowercase().as_bytes().to_vec();
        fuzzy_score(&q.as_bytes().to_vec(), &nb, &nlc).unwrap()
    };
    // first byte: base 10 + boundary 15 (string start) + early 5
    assert_eq!(score("a", "abc"), 30);
    // camel case: base 10 + camel 12, position 1 early bonus 5
    assert_eq!(score("b", "aB"), 27);
    // contiguous pair: 30 for 'a', then base 10 + contiguity 8
    assert_eq!(score("ab", "abc"), 48);
    // gap of one: 30 for 'a', then base 10 + boundary 15 - penalty 2
    assert_eq!(score("ab", "a_b"), 53);
    // capped gap penalty: gap of 20 charges only 16
    assert_eq!(score("ab", "axxxxxxxxxxxxxxxxxxxxb"), 30 + 10 - 16);
}

#[test]
fn boundary_set_is_exact() {
    for b in 0u8..=255 {
        let expect = matches!(b, b' ' | b'_' | b'-' | b'/' | b'.' | b'(' | b')' | b'[' | b']');
        assert_eq!(is_boundary(b), expect);
    }
}

#[test]
fn selection_equals_sort_and_truncate() {
    // the bounded selector must agree with a full sort and cut,
    // whatever the limit
    let cands: Vec<Cand> = vec![
        Cand { score: 10, len: 3, idx: 0 },
        Cand { score: 50, len: 9, idx: 1 },
        Cand { score: 50, len: 2, idx: 2 },
        Cand { score: -4, len: 1, idx: 3 },
        Cand { score: 50, len: 2, idx: 4 },
        Cand { score: 7, len: 5, idx: 5 },
    ];
    let mut sorted = cands.clone();
    sorted.sort_by(|a, b| {
        b.score.cmp(&a.score).then(a.len.cmp(&b.len)).then(a.idx.cmp(&b.idx))
    });
    for limit in 0..=7usize {
        let picked = top_select(&cands, limit);
        let mut expect = sorted.clone();
        expect.truncate(limit);
        assert_eq!(picked, expect, "limit {limit}");
    }
}

#[test]
fn search_ranks_scores_non_increasing() {
    let ix = index_with(&["alpha_beta", "ab", "axxb", "zzz", "a_b"]);
    let q = b"ab".to_vec();
    let got = ix.search_fuzzy(&q, None, 10);
    assert!(!got.is_empty());
    let score_of = |name: &Vec<u8>| {
        let lc: Vec<u8> = name.iter().map(|b| b.to_ascii_lowercase()).collect();
        fuzzy_score(&q, name, &lc).unwrap()
    };
    let scores: Vec<i64> = got.iter().map(|s| score_of(&s.name)).collect();
    for w in scores.windows(2) {
        assert!(w[0] >= w[1], "scores must not increase: {scores:?}");
    }
    // "zzz" does not qualify and is excluded entirely
    assert!(got.iter().all(|s| s.name != b"zzz".to_vec()));
}

#[test]
fn exact_name_is_recalled_with_room() {
    let ix = index_with(&["main", "domain", "remainder", "mainloop"]);
    let got = ix.search_fuzzy(&b"main".to_vec(), None, 10);
    assert!(got.iter().any(|s| s.name == b"main".to_vec()));
    // and the exact, shortest name outranks its extensions at equal score
    assert_eq!(got[0].name, b"main".to_vec());
}

#[test]
fn empty_query_returns_in_indexing_order_up_to_limit() {
    let mut ix = SymbolIndex::new();
    ix.upsert_doc(&b"file:///ws/a.jl".to_vec(), vec![info("one"), info("two")]);
    ix.upsert_doc(&b"file:///ws/b.jl".to_vec(), vec![info("three")]);
    let got = ix.search_fuzzy(&b"".to_vec(), None, 10);
    let names: Vec<&[u8]> = got.iter().map(|s| s.name.as_slice()).collect();
    assert_eq!(names, vec![b"one".as_slice(), b"two".as_slice(), b"three".as_slice()]);
    let capped = ix.search_fuzzy(&b"   ".to_vec(), None, 2);
    assert_eq!(capped.len(), 2);
    assert_eq!(capped[0].name, b"one".to_vec());
}

#[test]
fn limit_zero_returns_nothing() {
    let ix = index_with(&["alpha"]);
    assert!(ix.search_fuzzy(&b"a".to_vec(), None, 0).is_empty());
    assert!(ix.search_fuzzy(&b"".to_vec(), None, 0).is_empty());
}

#[test]
fn upsert_replaces_a_snapshot_wholesale() {
    let mut ix = SymbolIndex::new();
    let uri = b"file:///ws/a.jl".to_vec();
    ix.upsert_doc(&uri, vec![info("old_one"), info("old_two")]);
    ix.upsert_doc(&uri, vec![info("brand_new")]);
    let got = ix.search_fuzzy(&b"".to_vec(), None, 10);
    assert_eq!(got.len(), 1);
    assert_eq!(got[0].name, b"brand_new".to_vec());
}

#[test]
fn scope_restricts_by_path_component() {
    let mut ix = SymbolIndex::new();
    ix.upsert_doc(&b"file:///ws/a.jl".to_vec(), vec![info("inside")]);
    let mut dep = info("outside");
    dep.uri = b"file:///depot/packages/P/src/p.jl".to_vec();
    ix.upsert_doc(&b"file:///depot/packages/P/src/p.jl".to_vec(), vec![dep]);
    let root = b"/ws".to_vec();
    let scoped = ix.search_fuzzy(&b"i".to_vec(), Some(&root), 10);
    assert_eq!(scoped.len(), 1);
    assert_eq!(scoped[0].name, b"inside".to_vec());
    // a byte prefix that is not a whole component does not match
    let odd_root = b"/w".to_vec();
    assert!(ix.search_fuzzy(&b"i".to_vec(), Some(&odd_root), 10).is_empty());
    let all = ix.search_fuzzy(&b"i".to_vec(), None, 10);
    assert_eq!(all.len(), 2);
}
