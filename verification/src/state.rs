//! Per-document state with debounced reparsing, and the server's
//! registry of documents, root, and symbol index.
use vstd::prelude::*;

use crate::index::SymbolIndex;
use crate::outline::shapes_of;
use crate::outline::spec_outline;
use crate::parse::julia_tree_of;
use crate::parse::parse_model;
use crate::symbols::anchor_list;
use crate::symbols::infos_match_synths;
use crate::symbols::rc_list;
use crate::symbols::shorthand_list;
use crate::symbols::synthesize_macro_symbols;
use crate::symbols::synthesize_shorthand_symbols;
use crate::symbols::tree_symbols;
use crate::symbols::up_list;
use crate::symbols::info_of_pend;
use crate::outline::spec_collect;
use crate::text::copy_bytes;
use crate::text::bytes_eq;
use crate::text::line_starts;
use crate::tree::SynNode;
use crate::types::OutlineNode;
use crate::types::SymbolInfo;

verus! {

/// One open document: its text snapshot, the last successfully parsed
/// tree, and the edit and parse timestamps, in milliseconds of some
/// monotonic clock the caller supplies.
pub struct DocState {
    pub text: Vec<u8>,
    pub tree: Option<SynNode>,
    pub last_edit: u64,
    pub last_parse: u64,
}

impl DocState {
    /// Whether a parse request at `now_ms` reparses: a fresh tree is
    /// reused; a stale one is reparsed only when the last edit is at
    /// least the debounce interval old, or no tree exists at all.
    pub open spec fn should_reparse(self, min_delay_ms: u64, now_ms: u64) -> bool {
        if self.last_parse >= self.last_edit && self.tree is Some {
            false
        } else if (if now_ms >= self.last_edit {
            (now_ms - self.last_edit) as u64
        } else {
            0u64
        }) < min_delay_ms && self.tree is Some {
            false
        } else {
            true
        }
    }

    /// A new document: no tree yet, edited now, with the parse stamp
    /// set just far enough back that the first request parses.
    pub fn new(text: Vec<u8>, now_ms: u64) -> (r: DocState)
        ensures
            r.text@ == text@,
            r.tree is None,
            r.last_edit == now_ms,
            r.last_parse == (if now_ms >= 1000 {
                (now_ms - 1000) as u64
            } else {
                0u64
            }),
    {
        let last_parse: u64 = if now_ms >= 1000 {
            now_ms - 1000
        } else {
            0
        };
        DocState { text, tree: None, last_edit: now_ms, last_parse }
    }

    /// Replace the text wholesale and stamp the edit time; the cached
    /// tree is left as it is, now stale.
    pub fn update_text(&mut self, text: Vec<u8>, now_ms: u64)
        ensures
            final(self).text@ == text@,
            final(self).last_edit == now_ms,
            final(self).tree == old(self).tree,
            final(self).last_parse == old(self).last_parse,
    {
        self.text = text;
        self.last_edit = now_ms;
    }

    /// The current text snapshot.
    pub fn text(&self) -> (r: Vec<u8>)
        ensures
            r@ == self.text@,
    {
        copy_bytes(&self.text)
    }

    /// The cached tree, if any.
    pub fn current_tree(&self) -> (r: &Option<SynNode>)
        ensures
            *r == self.tree,
    {
        &self.tree
    }

    /// Reparse if the debounce condition admits it. On a reparse the
    /// cached tree becomes the engine's tree for the current text; a
    /// failed parse never clears an existing tree, but the parse stamp
    /// still advances, so persistently invalid input cannot cause a
    /// reparse storm.
    pub fn parse_with_debounce(&mut self, min_delay_ms: u64, now_ms: u64)
        ensures
            final(self).text == old(self).text,
            final(self).last_edit == old(self).last_edit,
            !old(self).should_reparse(min_delay_ms, now_ms) ==> *final(self) == *old(self),
            old(self).should_reparse(min_delay_ms, now_ms) ==> final(self).last_parse == now_ms
                && final(self).tree == (match julia_tree_of(old(self).text@) {
                Some(t) => Some(t),
                None => old(self).tree,
            }),
            old(self).tree is Some ==> final(self).tree is Some,
            final(self).tree is None ==> final(self).tree == old(self).tree,
    {
        let fresh = self.last_parse >= self.last_edit && self.tree.is_some();
        if fresh {
            return ;
        }
        let elapsed: u64 = if now_ms >= self.last_edit {
            now_ms - self.last_edit
        } else {
            0
        };
        if elapsed < min_delay_ms && self.tree.is_some() {
            return ;
        }
        match parse_model(&self.text) {
            Some(syn) => {
                self.tree = Some(syn);
            },
            None => {},
        }
        self.last_parse = now_ms;
    }
}

/// Debounce: while a tree is cached, a reparse is admitted only after
/// a fresh edit, and only once that edit is at least the interval old;
/// so under edits arriving faster than the interval the tree updates
/// at most once per interval, never per edit.
pub proof fn lemma_debounce_interval(s: DocState, min_delay_ms: u64, t1: u64, t2: u64)
    requires
        min_delay_ms > 0,
        s.last_parse == t1,
        s.tree is Some,
        s.should_reparse(min_delay_ms, t2),
    ensures
        s.last_edit > t1,
        t2 >= s.last_edit + min_delay_ms,
        t2 >= t1 + 1 + min_delay_ms,
{
}

/// What one workspace extraction reports: the tree's symbols in tree
/// order, then the capability-macro pass, then the shorthand pass.
pub open spec fn ws_match(
    r: Seq<SymbolInfo>,
    tree: Option<SynNode>,
    text: Seq<u8>,
    uri: Seq<u8>,
) -> bool {
    let base: Seq<crate::outline::Pend> = match tree {
        Some(t) => spec_collect(t, text.len() as usize),
        None => Seq::empty(),
    };
    let ls = line_starts(text, text.len() as int);
    let sa = up_list(text, ls, 0) + rc_list(text, ls, 0);
    let sb = shorthand_list(text, anchor_list(text, 0), 0);
    &&& r.len() == base.len() + sa.len() + sb.len()
    &&& forall|k: int|
        0 <= k < base.len() ==> info_of_pend(#[trigger] r[k], base[k], text, ls, uri)
    &&& infos_match_synths(r.skip(base.len() as int), sa + sb, text, uri)
}

/// Serve a document-outline request: reparse under the debounce rule,
/// then extract the nested outline from whatever tree is cached.
/// Without any tree the outline is empty.
pub fn extract_document_symbols_with_cache(
    doc: &mut DocState,
    min_delay_ms: u64,
    now_ms: u64,
) -> (r: Vec<OutlineNode>)
    requires
        old(doc).text@.len() < 0x1_0000_0000,
    ensures
        final(doc).text == old(doc).text,
        final(doc).last_edit == old(doc).last_edit,
        old(doc).tree is Some ==> final(doc).tree is Some,
        !old(doc).should_reparse(min_delay_ms, now_ms) ==> *final(doc) == *old(doc),
        old(doc).should_reparse(min_delay_ms, now_ms) ==> final(doc).last_parse == now_ms
            && final(doc).tree == (match julia_tree_of(old(doc).text@) {
            Some(t) => Some(t),
            None => old(doc).tree,
        }),
        shapes_of(r@, 0) == match final(doc).tree {
            Some(t) => spec_outline(t, final(doc).text@),
            None => Seq::empty(),
        },
{
    doc.parse_with_debounce(min_delay_ms, now_ms);
    match &doc.tree {
        Some(t) => crate::outline::extract_outline(t, &doc.text),
        None => {
            let r: Vec<OutlineNode> = Vec::new();
            proof {
                assert(shapes_of(r@, 0) =~= Seq::<crate::outline::OutlineShape>::empty());
            }
            r
        },
    }
}

/// Serve a workspace-symbol extraction: reparse under the debounce
/// rule, report the tree's symbols flat, and add both best-effort text
/// passes.
pub fn extract_workspace_symbols_with_cache(
    doc: &mut DocState,
    min_delay_ms: u64,
    now_ms: u64,
    uri: &Vec<u8>,
) -> (r: Vec<SymbolInfo>)
    requires
        old(doc).text@.len() < 0x1_0000_0000,
    ensures
        final(doc).text == old(doc).text,
        final(doc).last_edit == old(doc).last_edit,
        old(doc).tree is Some ==> final(doc).tree is Some,
        !old(doc).should_reparse(min_delay_ms, now_ms) ==> *final(doc) == *old(doc),
        old(doc).should_reparse(min_delay_ms, now_ms) ==> final(doc).last_parse == now_ms
            && final(doc).tree == (match julia_tree_of(old(doc).text@) {
            Some(t) => Some(t),
            None => old(doc).tree,
        }),
        ws_match(r@, final(doc).tree, final(doc).text@, uri@),
{
    doc.parse_with_debounce(min_delay_ms, now_ms);
    let mut out: Vec<SymbolInfo> = match &doc.tree {
        Some(t) => tree_symbols(t, &doc.text, uri),
        None => Vec::new(),
    };
    let ghost base_len = out@.len();
    let ghost base = out@;
    let mut pass_a = synthesize_macro_symbols(&doc.text, uri);
    let ghost sa_infos = pass_a@;
    out.append(&mut pass_a);
    let mut pass_b = synthesize_shorthand_symbols(&doc.text, uri);
    let ghost sb_infos = pass_b@;
    out.append(&mut pass_b);
    proof {
        let text = doc.text@;
        let ls = line_starts(text, text.len() as int);
        let sa = up_list(text, ls, 0) + rc_list(text, ls, 0);
        let sb = shorthand_list(text, anchor_list(text, 0), 0);
        assert(out@ == base + sa_infos + sb_infos);
        assert(out@.skip(base_len as int) =~= sa_infos + sb_infos);
        assert forall|k: int| 0 <= k < sa.len() + sb.len() implies crate::symbols::info_of_synth(
            #[trigger] out@.skip(base_len as int)[k],
            (sa + sb)[k],
            text,
            uri@,
        ) by {
            if k < sa.len() {
                assert(out@.skip(base_len as int)[k] == sa_infos[k]);
                assert((sa + sb)[k] == sa[k]);
            } else {
                assert(out@.skip(base_len as int)[k] == sb_infos[k - sa.len()]);
                assert((sa + sb)[k] == sb[k - sa.len()]);
            }
        }
        assert forall|k: int| 0 <= k < base_len implies info_of_pend(
            #[trigger] out@[k],
            (match doc.tree {
                Some(t) => spec_collect(t, text.len() as usize),
                None => Seq::empty(),
            })[k],
            text,
            ls,
            uri@,
        ) by {
            assert(out@[k] == base[k]);
        }
    }
    out
}

/// One registered document.
pub struct DocEntry {
    pub uri: Vec<u8>,
    pub doc: DocState,
}

/// A just-registered entry: the given identity and text, no tree yet,
/// edited now, with the parse stamp set as a new document's is.
pub open spec fn fresh_entry(e: DocEntry, uri: Seq<u8>, text: Seq<u8>, now_ms: u64) -> bool {
    &&& e.uri@ == uri
    &&& e.doc.text@ == text
    &&& e.doc.tree is None
    &&& e.doc.last_edit == now_ms
    &&& e.doc.last_parse == (if now_ms >= 1000 {
        (now_ms - 1000) as u64
    } else {
        0u64
    })
}

/// The server's shared state: the document registry, the debounce
/// interval, the workspace root, and the symbol index. The grammar is
/// fixed: every document is parsed as Julia.
pub struct ServerState {
    pub docs: Vec<DocEntry>,
    pub debounce_ms: u64,
    pub root: Option<Vec<u8>>,
    pub symbols: SymbolIndex,
}

impl ServerState {
    /// Distinct document identities, and a sound index.
    pub open spec fn wf(self) -> bool {
        &&& forall|i: int, j: int|
            0 <= i < j < self.docs@.len() ==> (#[trigger] self.docs@[i].uri@) != (
            #[trigger] self.docs@[j].uri@)
        &&& self.symbols.wf()
    }

    pub fn new() -> (r: ServerState)
        ensures
            r.wf(),
            r.docs@.len() == 0,
            r.debounce_ms == 120,
            r.root is None,
            r.symbols.docs@.len() == 0,
    {
        ServerState {
            docs: Vec::new(),
            debounce_ms: 120,
            root: None,
            symbols: SymbolIndex::new(),
        }
    }

    pub open spec fn has_doc(self, u: Seq<u8>) -> bool {
        exists|i: int| 0 <= i < self.docs@.len() && (#[trigger] self.docs@[i].uri@) == u
    }

    pub open spec fn doc_pos(self, u: Seq<u8>) -> int {
        choose|i: int| 0 <= i < self.docs@.len() && (#[trigger] self.docs@[i].uri@) == u
    }

    /// The position of a registered document, if any.
    pub fn find_doc(&self, uri: &Vec<u8>) -> (r: Option<usize>)
        ensures
            match r {
                Some(d) => d < self.docs@.len() && self.docs@[d as int].uri@ == uri@,
                None => forall|i: int| 0 <= i < self.docs@.len() ==> (#[trigger] self.docs@[i].uri@)
                    != uri@,
            },
    {
        let mut d: usize = 0;
        while d < self.docs.len()
            invariant
                d <= self.docs@.len(),
                forall|j: int| 0 <= j < d ==> (#[trigger] self.docs@[j].uri@) != uri@,
            decreases self.docs@.len() - d,
        {
            if bytes_eq(&self.docs[d].uri, uri) {
                return Some(d);
            }
            d += 1;
        }
        None
    }

    /// Register a document, or replace its text wholesale: the entry
    /// under this identity becomes a fresh state with no tree, edited
    /// now, in place when the identity was known and appended
    /// otherwise; no other document changes.
    pub fn insert_doc(&mut self, uri: &Vec<u8>, text: Vec<u8>, now_ms: u64)
        requires
            old(self).wf(),
        ensures
            final(self).wf(),
            final(self).symbols == old(self).symbols,
            final(self).root == old(self).root,
            final(self).debounce_ms == old(self).debounce_ms,
            final(self).has_doc(uri@),
            old(self).has_doc(uri@) ==> ({
                let d = old(self).doc_pos(uri@);
                &&& final(self).docs@.len() == old(self).docs@.len()
                &&& (forall|j: int|
                    0 <= j < old(self).docs@.len() && j != d ==> #[trigger] final(self).docs@[j]
                        == old(self).docs@[j])
                &&& fresh_entry(final(self).docs@[d], uri@, text@, now_ms)
            }),
            !old(self).has_doc(uri@) ==> ({
                &&& final(self).docs@.len() == old(self).docs@.len() + 1
                &&& (forall|j: int|
                    0 <= j < old(self).docs@.len() ==> #[trigger] final(self).docs@[j] == old(
                        self,
                    ).docs@[j])
                &&& fresh_entry(final(self).docs@.last(), uri@, text@, now_ms)
            }),
    {
        let entry = DocEntry { uri: copy_bytes(uri), doc: DocState::new(text, now_ms) };
        match self.find_doc(uri) {
            Some(d) => {
                proof {
                    assert(old(self).has_doc(uri@));
                    let dd = old(self).doc_pos(uri@);
                    if dd != d {
                        assert(old(self).docs@[dd].uri@ == old(self).docs@[d as int].uri@);
                    }
                    assert(old(self).doc_pos(uri@) == d);
                }
                let _ = self.docs.remove(d);
                self.docs.insert(d, entry);
                proof {
                    assert(self.docs@ =~= old(self).docs@.update(d as int, self.docs@[d as int]));
                    assert(final(self).docs@[d as int].uri@ == uri@);
                    assert forall|i: int, j: int|
                        0 <= i < j < self.docs@.len() implies (#[trigger] self.docs@[i].uri@) != (
                    #[trigger] self.docs@[j].uri@) by {
                        if i != d && j != d {
                            assert(self.docs@[i] == old(self).docs@[i]);
                            assert(self.docs@[j] == old(self).docs@[j]);
                        } else if i == d {
                            assert(self.docs@[j] == old(self).docs@[j]);
                        } else {
                            assert(self.docs@[i] == old(self).docs@[i]);
                        }
                    }
                }
            },
            None => {
                proof {
                    assert(!old(self).has_doc(uri@));
                }
                self.docs.push(entry);
                proof {
                    let d = self.docs@.len() - 1;
                    assert(self.docs@[d].uri@ == uri@);
                    assert forall|i: int, j: int|
                        0 <= i < j < self.docs@.len() implies (#[trigger] self.docs@[i].uri@) != (
                    #[trigger] self.docs@[j].uri@) by {
                        if j < d {
                            assert(self.docs@[i] == old(self).docs@[i]);
                            assert(self.docs@[j] == old(self).docs@[j]);
                        } else {
                            assert(self.docs@[i] == old(self).docs@[i]);
                        }
                    }
                }
            },
        }
    }

    /// Remember the workspace root.
    pub fn set_root(&mut self, path: Vec<u8>)
        ensures
            final(self).root == Some(path),
            final(self).docs == old(self).docs,
            final(self).symbols == old(self).symbols,
            final(self).debounce_ms == old(self).debounce_ms,
    {
        self.root = Some(path);
    }

    /// The workspace root, if one was declared.
    pub fn root_path(&self) -> (r: Option<Vec<u8>>)
        ensures
            match r {
                Some(p) => self.root is Some && p@ == self.root.unwrap()@,
                None => self.root is None,
            },
    {
        match &self.root {
            Some(p) => Some(copy_bytes(p)),
            None => None,
        }
    }

    /// Re-extract one document's workspace symbols and replace its
    /// snapshot in the index wholesale: symbols freshly extracted from
    /// the document reach the index, unless it is unknown or too large
    /// to index. The document keeps its text and edit stamp, gaining
    /// at most a fresh tree; no other document changes.
    pub fn reindex_doc(&mut self, uri: &Vec<u8>, now_ms: u64)
        requires
            old(self).wf(),
        ensures
            final(self).wf(),
            final(self).root == old(self).root,
            final(self).debounce_ms == old(self).debounce_ms,
            final(self).docs@.len() == old(self).docs@.len(),
            !old(self).has_doc(uri@) ==> (final(self).docs@ == old(self).docs@ && final(self).symbols
                == old(self).symbols),
            old(self).has_doc(uri@) ==> (forall|j: int|
                0 <= j < old(self).docs@.len() && j != old(self).doc_pos(uri@)
                    ==> #[trigger] final(self).docs@[j] == old(self).docs@[j]),
            old(self).has_doc(uri@) ==> ({
                let d = old(self).doc_pos(uri@);
                &&& final(self).docs@[d].uri@ == uri@
                &&& final(self).docs@[d].doc.text == old(self).docs@[d].doc.text
                &&& final(self).docs@[d].doc.last_edit == old(self).docs@[d].doc.last_edit
                &&& (old(self).docs@[d].doc.tree is Some ==> final(self).docs@[d].doc.tree
                    is Some)
            }),
            (old(self).has_doc(uri@) && old(self).docs@[old(self).doc_pos(uri@)].doc.text@.len()
                < 0x1_0000_0000) ==> (exists|syms: Seq<SymbolInfo>|
                {
                    &&& #[trigger] ws_match(
                        syms,
                        final(self).docs@[old(self).doc_pos(uri@)].doc.tree,
                        final(self).docs@[old(self).doc_pos(uri@)].doc.text@,
                        uri@,
                    )
                    &&& crate::index::upsert_post(
                        old(self).symbols,
                        final(self).symbols,
                        uri@,
                        syms,
                    )
                }),
            (old(self).has_doc(uri@) && old(self).docs@[old(self).doc_pos(uri@)].doc.text@.len()
                >= 0x1_0000_0000) ==> final(self).symbols == old(self).symbols,
    {
        let d = match self.find_doc(uri) {
            Some(d) => d,
            None => {
                proof {
                    assert(!old(self).has_doc(uri@));
                }
                return ;
            },
        };
        proof {
            assert(old(self).has_doc(uri@));
            let dd = old(self).doc_pos(uri@);
            if dd != d {
                assert(old(self).docs@[dd].uri@ == old(self).docs@[d as int].uri@);
            }
            assert(old(self).doc_pos(uri@) == d);
        }
        let mut entry = self.docs.remove(d);
        if (entry.doc.text.len() as u64) >= 0x1_0000_0000u64 {
            // a document too large for 32-bit positions is not indexed
            self.docs.insert(d, entry);
            proof {
                assert(self.docs@ =~= old(self).docs@);
            }
            return ;
        }
        let syms = extract_workspace_symbols_with_cache(
            &mut entry.doc,
            self.debounce_ms,
            now_ms,
            uri,
        );
        self.docs.insert(d, entry);
        proof {
            assert(self.docs@ =~= old(self).docs@.update(d as int, self.docs@[d as int]));
            assert forall|i: int, j: int|
                0 <= i < j < self.docs@.len() implies (#[trigger] self.docs@[i].uri@) != (
            #[trigger] self.docs@[j].uri@) by {
                assert(self.docs@[i].uri@ == old(self).docs@[i].uri@);
                assert(self.docs@[j].uri@ == old(self).docs@[j].uri@);
            }
            lemma_ws_names_bounded(syms@, self.docs@[d as int].doc.tree,
                self.docs@[d as int].doc.text@, uri@);
        }
        let ghost syms_view = syms@;
        let ghost pre_symbols = self.symbols;
        let _ = self.symbols.upsert_doc(uri, syms);
        proof {
            assert(self.docs@[d as int].doc == final(self).docs@[d as int].doc);
            assert(ws_match(syms_view, self.docs@[d as int].doc.tree,
                self.docs@[d as int].doc.text@, uri@));
            assert(crate::index::upsert_post(pre_symbols, self.symbols, uri@, syms_view));
        }
    }

    /// Index one discovered file: register it under the given identity
    /// with the given text, and put its freshly extracted symbols into
    /// the index, wholesale.
    pub fn index_file(&mut self, uri: &Vec<u8>, text: Vec<u8>, now_ms: u64)
        requires
            old(self).wf(),
        ensures
            final(self).wf(),
            final(self).root == old(self).root,
            final(self).debounce_ms == old(self).debounce_ms,
            final(self).has_doc(uri@),
            ({
                let d = final(self).doc_pos(uri@);
                &&& final(self).docs@[d].uri@ == uri@
                &&& final(self).docs@[d].doc.text@ == text@
                &&& final(self).docs@[d].doc.last_edit == now_ms
            }),
            text@.len() < 0x1_0000_0000 ==> (exists|syms: Seq<SymbolInfo>|
                {
                    &&& #[trigger] ws_match(
                        syms,
                        final(self).docs@[final(self).doc_pos(uri@)].doc.tree,
                        text@,
                        uri@,
                    )
                    &&& crate::index::upsert_post(
                        old(self).symbols,
                        final(self).symbols,
                        uri@,
                        syms,
                    )
                }),
    {
        self.insert_doc(uri, text, now_ms);
        let ghost mid = *self;
        proof {
            let dm = mid.doc_pos(uri@);
            assert(0 <= dm < mid.docs@.len() && mid.docs@[dm].uri@ == uri@);
            if old(self).has_doc(uri@) {
                let d0 = old(self).doc_pos(uri@);
                if dm != d0 {
                    assert(mid.docs@[dm] == old(self).docs@[d0 as int] || mid.docs@[dm] == old(
                        self,
                    ).docs@[dm]);
                    assert(old(self).docs@[dm].uri@ == uri@);
                    assert(old(self).docs@[d0].uri@ == uri@);
                }
                assert(dm == d0);
                assert(fresh_entry(mid.docs@[dm], uri@, text@, now_ms));
            } else {
                let last = mid.docs@.len() - 1;
                if dm != last {
                    assert(mid.docs@[dm] == old(self).docs@[dm]);
                    assert(old(self).has_doc(uri@));
                }
                assert(dm == last);
                assert(fresh_entry(mid.docs@[dm], uri@, text@, now_ms));
            }
        }
        self.reindex_doc(uri, now_ms);
        proof {
            let dm = mid.doc_pos(uri@);
            assert(final(self).docs@[dm].uri@ == uri@);
            assert(final(self).has_doc(uri@));
            let df = final(self).doc_pos(uri@);
            assert(0 <= df < final(self).docs@.len() && final(self).docs@[df].uri@ == uri@);
            if df != dm {
                assert(final(self).docs@[df].uri@ != final(self).docs@[dm].uri@);
            }
            assert(df == dm);
            assert(final(self).docs@[dm].doc.text == mid.docs@[dm].doc.text);
            assert(final(self).docs@[dm].doc.text@ == text@);
            assert(final(self).docs@[dm].doc.last_edit == now_ms);
            if text@.len() < 0x1_0000_0000 {
                let syms = choose|syms: Seq<SymbolInfo>|
                    {
                        &&& #[trigger] ws_match(
                            syms,
                            final(self).docs@[mid.doc_pos(uri@)].doc.tree,
                            final(self).docs@[mid.doc_pos(uri@)].doc.text@,
                            uri@,
                        )
                        &&& crate::index::upsert_post(mid.symbols, final(self).symbols, uri@, syms)
                    };
                assert(ws_match(syms, final(self).docs@[dm].doc.tree, text@, uri@));
                assert(mid.symbols == old(self).symbols);
                assert(ws_match(
                    syms,
                    final(self).docs@[final(self).doc_pos(uri@)].doc.tree,
                    text@,
                    uri@,
                ));
            }
        }
    }

    /// The scope rule of a workspace query: a query of at most two
    /// bytes is confined to the workspace root, a longer one searches
    /// dependency roots too.
    pub open spec fn spec_scope(self, query: Seq<u8>) -> Option<Seq<u8>> {
        if query.len() <= 2 {
            match self.root {
                Some(p) => Some(p@),
                None => None,
            }
        } else {
            None
        }
    }

    /// Serve a workspace-symbol query: short queries are scoped to the
    /// workspace root, longer ones search the whole index; results are
    /// ranked as the index ranks them.
    pub fn workspace_search(&self, query: &Vec<u8>, limit: usize) -> (r: Vec<SymbolInfo>)
        requires
            self.wf(),
            query@.len() < 0x1000_0000,
        ensures
            crate::index::search_post(
                crate::index::flat_entries(self.symbols.docs@),
                query@,
                self.spec_scope(query@),
                limit as int,
                r@,
            ),
    {
        let scope = crate::workspace::query_scope(query.len(), self.root.as_ref());
        proof {
            assert((match scope {
                Some(d) => Some(d@),
                None => None::<Seq<u8>>,
            }) == self.spec_scope(query@));
        }
        self.symbols.search_fuzzy(query, scope, limit)
    }
}

/// Every name a workspace extraction reports is a slice of its
/// document's text, hence short enough for the index.
pub proof fn lemma_ws_names_bounded(
    r: Seq<SymbolInfo>,
    tree: Option<SynNode>,
    text: Seq<u8>,
    uri: Seq<u8>,
)
    requires
        ws_match(r, tree, text, uri),
        text.len() < 0x1_0000_0000,
    ensures
        forall|i: int| 0 <= i < r.len() ==> (#[trigger] r[i]).name@.len() < 0x1_0000_0000,
{
    let base: Seq<crate::outline::Pend> = match tree {
        Some(t) => spec_collect(t, text.len() as usize),
        None => Seq::empty(),
    };
    let ls = line_starts(text, text.len() as int);
    let sa = up_list(text, ls, 0) + rc_list(text, ls, 0);
    let sb = shorthand_list(text, anchor_list(text, 0), 0);
    match tree {
        Some(t) => {
            crate::outline::lemma_collect_ok(t, text.len() as usize);
        },
        None => {},
    }
    crate::text::lemma_line_starts_props(text, text.len() as int);
    crate::symbols::lemma_up_list_bounds(text, ls, 0);
    crate::symbols::lemma_rc_list_bounds(text, ls, 0);
    crate::symbols::lemma_anchor_list_bounds(text, 0);
    crate::symbols::lemma_shorthand_list_bounds(text, anchor_list(text, 0), 0);
    assert forall|i: int| 0 <= i < r.len() implies (#[trigger] r[i]).name@.len()
        < 0x1_0000_0000 by {
        if i < base.len() {
            assert(info_of_pend(r[i], base[i], text, ls, uri));
            assert(crate::outline::pend_ok(base[i], text.len() as usize));
        } else {
            let k = i - base.len();
            assert(r[i] == r.skip(base.len() as int)[k]);
            assert(crate::symbols::info_of_synth(r.skip(base.len() as int)[k], (sa + sb)[k],
                text, uri));
            if k < sa.len() {
                assert((sa + sb)[k] == sa[k]);
                let ul = up_list(text, ls, 0);
                if k < ul.len() {
                    assert(sa[k] == ul[k]);
                } else {
                    assert(sa[k] == rc_list(text, ls, 0)[k - ul.len()]);
                }
            } else {
                assert((sa + sb)[k] == sb[k - sa.len()]);
            }
        }
    }
}


} // verus!
