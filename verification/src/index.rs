//! The workspace symbol index: one entry snapshot per document, replaced
//! wholesale on each upsert, and a ranked fuzzy query over all of them.
use vstd::prelude::*;

use crate::fuzzy::fuzzy_score;
use crate::fuzzy::lemma_subseq_refl;
use crate::fuzzy::spec_fuzzy_score;
use crate::select::Cand;
use crate::select::cand_before;
use crate::select::lemma_sort_desc_contains;
use crate::select::lemma_sort_desc_len;
use crate::select::lemma_sort_desc_sorted;
use crate::select::sort_desc;
use crate::select::top_select;
use crate::text::copy_bytes;
use crate::text::bytes_eq;
use crate::text::lower_seq;
use crate::text::lowercase_bytes;
use crate::text::spec_starts_with;
use crate::text::starts_with_bytes;
use crate::text::trim_bytes;
use crate::text::trim_seq;
use crate::types::SymbolEntry;
use crate::types::SymbolInfo;
use crate::uri::file_uri_to_path;
use crate::uri::spec_file_uri_to_path;

verus! {

/// A sound index record: the search key really is the lowercased name,
/// and the name is small enough to score in 64 bits.
pub open spec fn wf_entry(e: SymbolEntry) -> bool {
    &&& e.name_lowercase@ == lower_seq(e.name@)
    &&& e.name@.len() < 0x1_0000_0000
}

/// The snapshot of one document's symbols.
pub struct DocSyms {
    pub uri: Vec<u8>,
    pub entries: Vec<SymbolEntry>,
}

/// The whole index: per-document snapshots in discovery order.
pub struct SymbolIndex {
    pub docs: Vec<DocSyms>,
}

/// Every indexed entry, documents in discovery order, entries in
/// extraction order.
pub open spec fn flat_entries(docs: Seq<DocSyms>) -> Seq<SymbolEntry>
    decreases docs.len(),
{
    if docs.len() == 0 {
        Seq::empty()
    } else {
        flat_entries(docs.drop_last()) + docs.last().entries@
    }
}

pub proof fn lemma_flat_take_succ(docs: Seq<DocSyms>, d: int)
    requires
        0 <= d < docs.len(),
    ensures
        flat_entries(docs.take(d + 1)) == flat_entries(docs.take(d)) + docs[d].entries@,
{
    assert(docs.take(d + 1).drop_last() =~= docs.take(d));
    assert(docs.take(d + 1).last() == docs[d]);
}

pub proof fn lemma_flat_entries_wf(docs: Seq<DocSyms>)
    requires
        forall|i: int, k: int|
            0 <= i < docs.len() && 0 <= k < docs[i].entries@.len() ==> wf_entry(
                #[trigger] docs[i].entries@[k],
            ),
    ensures
        forall|j: int| 0 <= j < flat_entries(docs).len() ==> wf_entry(#[trigger] flat_entries(docs)[j]),
    decreases docs.len(),
{
    if docs.len() > 0 {
        let prev = docs.drop_last();
        assert forall|i: int, k: int|
            0 <= i < prev.len() && 0 <= k < prev[i].entries@.len() implies wf_entry(
            #[trigger] prev[i].entries@[k],
        ) by {
            assert(prev[i] == docs[i]);
        }
        lemma_flat_entries_wf(prev);
        assert forall|j: int| 0 <= j < flat_entries(docs).len() implies wf_entry(
            #[trigger] flat_entries(docs)[j],
        ) by {
            if j < flat_entries(prev).len() {
                assert(flat_entries(docs)[j] == flat_entries(prev)[j]);
            } else {
                let k = j - flat_entries(prev).len();
                assert(flat_entries(docs)[j] == docs.last().entries@[k]);
                assert(docs[docs.len() - 1].entries@[k] == docs.last().entries@[k]);
            }
        }
    }
}

/// Whether an entry lies under the optional scope directory: its path
/// must start with the directory, ending there or continuing with a
/// separator.
pub open spec fn spec_path_prefix(p: Seq<u8>, d: Seq<u8>) -> bool {
    &&& spec_starts_with(p, d)
    &&& (p.len() == d.len() || (d.len() > 0 && d[d.len() - 1] == '/' as u8) || (d.len() < p.len()
        && p[d.len() as int] == '/' as u8))
}

pub fn path_prefix(p: &Vec<u8>, d: &Vec<u8>) -> (r: bool)
    ensures
        r == spec_path_prefix(p@, d@),
{
    if !starts_with_bytes(p, d) {
        return false;
    }
    if p.len() == d.len() {
        return true;
    }
    if d.len() > 0 && d[d.len() - 1] == '/' as u8 {
        return true;
    }
    d.len() < p.len() && p[d.len()] == '/' as u8
}

pub open spec fn in_scope(e: SymbolEntry, root: Option<Seq<u8>>) -> bool {
    match root {
        None => true,
        Some(d) => spec_path_prefix(e.path@, d),
    }
}

/// The scored candidates among the first `j` indexed entries: every
/// in-scope entry whose lowercased name contains the query as a
/// subsequence, tagged with its score, name length and position.
pub open spec fn spec_cands(
    flat: Seq<SymbolEntry>,
    q: Seq<u8>,
    root: Option<Seq<u8>>,
    j: int,
) -> Seq<Cand>
    decreases j,
{
    if j <= 0 {
        Seq::empty()
    } else {
        spec_cands(flat, q, root, j - 1) + if in_scope(flat[j - 1], root) && spec_fuzzy_score(
            q,
            flat[j - 1].name@,
            flat[j - 1].name_lowercase@,
        ) is Some {
            seq![
                Cand {
                    score: spec_fuzzy_score(q, flat[j - 1].name@, flat[j - 1].name_lowercase@)
                        .unwrap() as i64,
                    len: flat[j - 1].name@.len() as usize,
                    idx: (j - 1) as usize,
                },
            ]
        } else {
            Seq::empty()
        }
    }
}

/// Every candidate points at an in-scope entry it truly scores.
pub proof fn lemma_spec_cands_sound(
    flat: Seq<SymbolEntry>,
    q: Seq<u8>,
    root: Option<Seq<u8>>,
    j: int,
)
    requires
        0 <= j <= flat.len(),
        flat.len() <= usize::MAX,
        q.len() < 0x1000_0000,
        forall|i: int| 0 <= i < flat.len() ==> wf_entry(#[trigger] flat[i]),
    ensures
        spec_cands(flat, q, root, j).len() <= j,
        forall|k: int|
            0 <= k < spec_cands(flat, q, root, j).len() ==> {
                let c = #[trigger] spec_cands(flat, q, root, j)[k];
                &&& c.idx < j
                &&& in_scope(flat[c.idx as int], root)
                &&& spec_fuzzy_score(q, flat[c.idx as int].name@, flat[c.idx as int].name_lowercase@)
                    == Some(c.score as int)
                &&& c.len == flat[c.idx as int].name@.len()
            },
    decreases j,
{
    if j > 0 {
        lemma_spec_cands_sound(flat, q, root, j - 1);
        let cs = spec_cands(flat, q, root, j);
        let prev = spec_cands(flat, q, root, j - 1);
        let e = flat[j - 1];
        if in_scope(e, root) && spec_fuzzy_score(q, e.name@, e.name_lowercase@) is Some {
            let s = spec_fuzzy_score(q, e.name@, e.name_lowercase@).unwrap();
            crate::fuzzy::lemma_greedy_run_bounds(q, e.name@, e.name_lowercase@,
                e.name_lowercase@.len() as int);
            assert(-16 * q.len() <= s <= 50 * q.len());
            let app = seq![
                Cand { score: s as i64, len: e.name@.len() as usize, idx: (j - 1) as usize },
            ];
            assert(cs == prev + app);
            assert forall|k: int| 0 <= k < cs.len() implies {
                let c = #[trigger] cs[k];
                &&& c.idx < j
                &&& in_scope(flat[c.idx as int], root)
                &&& spec_fuzzy_score(q, flat[c.idx as int].name@, flat[c.idx as int].name_lowercase@)
                    == Some(c.score as int)
                &&& c.len == flat[c.idx as int].name@.len()
            } by {
                if k < prev.len() {
                    assert(cs[k] == prev[k]);
                } else {
                    assert(cs[k] == app[0]);
                    assert((j - 1) as usize as int == j - 1);
                    assert(s as i64 as int == s);
                    assert(e.name@.len() as usize as int == e.name@.len());
                }
            }
        } else {
            assert(cs =~= prev);
        }
    }
}

/// The exact-name candidate is among the candidates.
pub proof fn lemma_spec_cands_has(
    flat: Seq<SymbolEntry>,
    q: Seq<u8>,
    root: Option<Seq<u8>>,
    n: int,
    j: int,
)
    requires
        0 <= j < n <= flat.len(),
        flat.len() <= usize::MAX,
        in_scope(flat[j], root),
        spec_fuzzy_score(q, flat[j].name@, flat[j].name_lowercase@) is Some,
    ensures
        exists|m: int|
            0 <= m < spec_cands(flat, q, root, n).len() && #[trigger] spec_cands(
                flat,
                q,
                root,
                n,
            )[m].idx == j,
    decreases n,
{
    let cs = spec_cands(flat, q, root, n);
    let prev = spec_cands(flat, q, root, n - 1);
    if j == n - 1 {
        let e = flat[j];
        let app = seq![
            Cand {
                score: spec_fuzzy_score(q, e.name@, e.name_lowercase@).unwrap() as i64,
                len: e.name@.len() as usize,
                idx: j as usize,
            },
        ];
        assert(cs == prev + app);
        assert(cs[prev.len() as int] == app[0]);
        assert(cs[prev.len() as int].idx == j);
    } else {
        lemma_spec_cands_has(flat, q, root, n - 1, j);
        let m = choose|m: int| 0 <= m < prev.len() && #[trigger] prev[m].idx == j;
        assert(cs[m] == prev[m]);
    }
}

/// The slice of the ranking that a query with this limit returns: the
/// best `limit` candidates, best first.
pub open spec fn sel_of(cands: Seq<Cand>, limit: int) -> Seq<Cand> {
    if limit <= sort_desc(cands).len() {
        sort_desc(cands).take(limit)
    } else {
        sort_desc(cands)
    }
}

/// What a ranked query returns, over the flattened entries `flat` and
/// scope `rv`: an empty query lists in-scope entries in indexing order
/// up to the limit; otherwise the limit best-scoring subsequence
/// matches, score descending, ties to the shorter name, then to the
/// earlier entry.
pub open spec fn search_post(
    flat: Seq<SymbolEntry>,
    query: Seq<u8>,
    rv: Option<Seq<u8>>,
    limit: int,
    r: Seq<SymbolInfo>,
) -> bool {
    if trim_seq(query).len() == 0 {
        let idxs = spec_scoped_idxs(flat, rv, flat.len() as int);
        &&& r.len() == (if limit <= idxs.len() {
            limit
        } else {
            idxs.len() as int
        })
        &&& forall|k: int| 0 <= k < r.len() ==> info_of_entry(#[trigger] r[k], flat[idxs[k]])
    } else {
        let q_lc = lower_seq(trim_seq(query));
        let cands = spec_cands(flat, q_lc, rv, flat.len() as int);
        let sel = sel_of(cands, limit);
        &&& r.len() == sel.len()
        &&& forall|k: int|
            0 <= k < r.len() ==> 0 <= sel[k].idx < flat.len() && info_of_entry(
                #[trigger] r[k],
                flat[sel[k].idx as int],
            ) && spec_fuzzy_score(
                q_lc,
                flat[sel[k].idx as int].name@,
                flat[sel[k].idx as int].name_lowercase@,
            ) == Some(sel[k].score as int)
    }
}

impl SymbolIndex {
    /// A sound index: distinct document identities, sound entries.
    pub open spec fn wf(self) -> bool {
        &&& forall|i: int, j: int|
            0 <= i < j < self.docs@.len() ==> (#[trigger] self.docs@[i].uri@) != (
            #[trigger] self.docs@[j].uri@)
        &&& forall|i: int, k: int|
            0 <= i < self.docs@.len() && 0 <= k < self.docs@[i].entries@.len() ==> wf_entry(
                #[trigger] self.docs@[i].entries@[k],
            )
    }

    pub open spec fn has_doc(self, u: Seq<u8>) -> bool {
        exists|i: int| 0 <= i < self.docs@.len() && (#[trigger] self.docs@[i].uri@) == u
    }

    pub open spec fn doc_pos(self, u: Seq<u8>) -> int {
        choose|i: int| 0 <= i < self.docs@.len() && (#[trigger] self.docs@[i].uri@) == u
    }

    pub fn new() -> (r: SymbolIndex)
        ensures
            r.wf(),
            r.docs@.len() == 0,
    {
        SymbolIndex { docs: Vec::new() }
    }
}

/// The path an upsert stores beside each entry: the document identity's
/// filesystem path, or empty when the identity is not a file.
pub open spec fn upsert_path(u: Seq<u8>) -> Seq<u8> {
    match spec_file_uri_to_path(u) {
        Some(p) => p,
        None => Seq::empty(),
    }
}

/// The stored entries mirror the extracted symbols, with the lowercased
/// search key and the document's path added.
pub open spec fn entries_of_infos(
    es: Seq<SymbolEntry>,
    infos: Seq<SymbolInfo>,
    path: Seq<u8>,
) -> bool {
    &&& es.len() == infos.len()
    &&& forall|i: int|
        0 <= i < infos.len() ==> {
            let e = #[trigger] es[i];
            &&& e.name@ == infos[i].name@
            &&& e.name_lowercase@ == lower_seq(infos[i].name@)
            &&& e.uri@ == infos[i].uri@
            &&& e.path@ == path
            &&& e.range == infos[i].range
            &&& e.kind == infos[i].kind
        }
}

/// What an upsert leaves behind: the document's snapshot replaced
/// wholesale, or appended when the document was new; no other
/// document changes.
pub open spec fn upsert_post(
    pre: SymbolIndex,
    post: SymbolIndex,
    u: Seq<u8>,
    infos: Seq<SymbolInfo>,
) -> bool {
    ||| (pre.has_doc(u) && {
        let d = pre.doc_pos(u);
        &&& post.docs@.len() == pre.docs@.len()
        &&& forall|j: int|
            0 <= j < pre.docs@.len() && j != d ==> #[trigger] post.docs@[j] == pre.docs@[j]
        &&& post.docs@[d].uri@ == u
        &&& entries_of_infos(post.docs@[d].entries@, infos, upsert_path(u))
    })
    ||| (!pre.has_doc(u) && {
        &&& post.docs@.len() == pre.docs@.len() + 1
        &&& forall|j: int|
            0 <= j < pre.docs@.len() ==> #[trigger] post.docs@[j] == pre.docs@[j]
        &&& post.docs@.last().uri@ == u
        &&& entries_of_infos(post.docs@.last().entries@, infos, upsert_path(u))
    })
}

impl SymbolIndex {
    /// Replace one document's snapshot wholesale: the new entries stand
    /// for exactly the given symbols; no other document changes.
    pub fn upsert_doc(&mut self, doc_uri: &Vec<u8>, symbols: Vec<SymbolInfo>) -> (replaced: bool)
        requires
            old(self).wf(),
            forall|i: int|
                0 <= i < symbols@.len() ==> (#[trigger] symbols@[i].name@).len() < 0x1_0000_0000,
        ensures
            final(self).wf(),
            replaced == old(self).has_doc(doc_uri@),
            replaced ==> {
                let d = old(self).doc_pos(doc_uri@);
                &&& final(self).docs@.len() == old(self).docs@.len()
                &&& forall|j: int|
                    0 <= j < old(self).docs@.len() && j != d ==> #[trigger] final(self).docs@[j]
                        == old(self).docs@[j]
                &&& final(self).docs@[d].uri@ == doc_uri@
                &&& entries_of_infos(
                    final(self).docs@[d].entries@,
                    symbols@,
                    upsert_path(doc_uri@),
                )
            },
            !replaced ==> {
                &&& final(self).docs@.len() == old(self).docs@.len() + 1
                &&& forall|j: int|
                    0 <= j < old(self).docs@.len() ==> #[trigger] final(self).docs@[j] == old(
                        self,
                    ).docs@[j]
                &&& final(self).docs@.last().uri@ == doc_uri@
                &&& entries_of_infos(
                    final(self).docs@.last().entries@,
                    symbols@,
                    upsert_path(doc_uri@),
                )
            },
    {
        let path: Vec<u8> = match file_uri_to_path(doc_uri) {
            Some(p) => p,
            None => Vec::new(),
        };
        let mut entries: Vec<SymbolEntry> = Vec::new();
        let mut i: usize = 0;
        while i < symbols.len()
            invariant
                i <= symbols@.len(),
                path@ == upsert_path(doc_uri@),
                forall|k: int|
                    0 <= k < symbols@.len() ==> (#[trigger] symbols@[k].name@).len()
                        < 0x1_0000_0000,
                entries@.len() == i,
                entries_of_infos(entries@, symbols@.take(i as int), path@),
                forall|k: int| 0 <= k < i ==> wf_entry(#[trigger] entries@[k]),
            decreases symbols@.len() - i,
        {
            let s = &symbols[i];
            let name = copy_bytes(&s.name);
            let name_lowercase = lowercase_bytes(&name);
            entries.push(
                SymbolEntry {
                    name,
                    name_lowercase,
                    uri: copy_bytes(&s.uri),
                    path: copy_bytes(&path),
                    range: s.range,
                    kind: s.kind,
                },
            );
            i += 1;
            proof {
                assert(symbols@.take(i as int).drop_last() =~= symbols@.take(i - 1));
                assert(symbols@.take(i as int)[i - 1] == symbols@[i - 1]);
            }
        }
        proof {
            assert(symbols@.take(symbols@.len() as int) =~= symbols@);
        }
        // find the document, if already present
        match self.find_doc(doc_uri) {
            Some(d) => {
                proof {
                    assert(old(self).has_doc(doc_uri@));
                    let dd = old(self).doc_pos(doc_uri@);
                    if dd != d {
                        assert(old(self).docs@[dd].uri@ == old(self).docs@[d as int].uri@);
                    }
                }
                let _ = self.docs.remove(d);
                self.docs.insert(d, DocSyms { uri: copy_bytes(doc_uri), entries });
                proof {
                    assert(self.docs@ =~= old(self).docs@.update(d as int, self.docs@[d as int]));
                }
                true
            },
            None => {
                self.docs.push(DocSyms { uri: copy_bytes(doc_uri), entries });
                false
            },
        }
    }

    /// The position of a document's snapshot, if one is stored.
    pub fn find_doc(&self, doc_uri: &Vec<u8>) -> (r: Option<usize>)
        ensures
            match r {
                Some(d) => d < self.docs@.len() && self.docs@[d as int].uri@ == doc_uri@,
                None => !self.has_doc(doc_uri@),
            },
    {
        let mut d: usize = 0;
        while d < self.docs.len()
            invariant
                0 <= d <= self.docs@.len(),
                forall|j: int| 0 <= j < d ==> (#[trigger] self.docs@[j].uri@) != doc_uri@,
            decreases self.docs@.len() - d,
        {
            if bytes_eq(&self.docs[d].uri, doc_uri) {
                return Some(d);
            }
            d += 1;
        }
        None
    }
}

/// Two records that agree in every observable field.
pub open spec fn entry_view_eq(a: SymbolEntry, b: SymbolEntry) -> bool {
    &&& a.name@ == b.name@
    &&& a.name_lowercase@ == b.name_lowercase@
    &&& a.uri@ == b.uri@
    &&& a.path@ == b.path@
    &&& a.range == b.range
    &&& a.kind == b.kind
}

/// A reported symbol carrying exactly an entry's data.
pub open spec fn info_of_entry(i: SymbolInfo, e: SymbolEntry) -> bool {
    &&& i.name@ == e.name@
    &&& i.kind == e.kind
    &&& i.uri@ == e.uri@
    &&& i.range == e.range
}

/// Copy one entry field for field.
pub fn entry_dup(e: &SymbolEntry) -> (r: SymbolEntry)
    ensures
        entry_view_eq(r, *e),
{
    SymbolEntry {
        name: copy_bytes(&e.name),
        name_lowercase: copy_bytes(&e.name_lowercase),
        uri: copy_bytes(&e.uri),
        path: copy_bytes(&e.path),
        range: e.range,
        kind: e.kind,
    }
}

/// The positions of the in-scope entries among the first `j`, in
/// indexing order.
pub open spec fn spec_scoped_idxs(
    flat: Seq<SymbolEntry>,
    root: Option<Seq<u8>>,
    j: int,
) -> Seq<int>
    decreases j,
{
    if j <= 0 {
        Seq::empty()
    } else {
        spec_scoped_idxs(flat, root, j - 1) + if in_scope(flat[j - 1], root) {
            seq![j - 1]
        } else {
            Seq::empty()
        }
    }
}

pub proof fn lemma_scoped_idxs_sound(flat: Seq<SymbolEntry>, root: Option<Seq<u8>>, j: int)
    requires
        0 <= j <= flat.len(),
    ensures
        spec_scoped_idxs(flat, root, j).len() <= j,
        forall|k: int|
            0 <= k < spec_scoped_idxs(flat, root, j).len() ==> 0 <= #[trigger] spec_scoped_idxs(
                flat,
                root,
                j,
            )[k] < j && in_scope(flat[spec_scoped_idxs(flat, root, j)[k]], root),
    decreases j,
{
    if j > 0 {
        lemma_scoped_idxs_sound(flat, root, j - 1);
        let cs = spec_scoped_idxs(flat, root, j);
        let prev = spec_scoped_idxs(flat, root, j - 1);
        if in_scope(flat[j - 1], root) {
            assert(cs == prev + seq![j - 1]);
            assert forall|k: int|
                0 <= k < cs.len() implies 0 <= #[trigger] cs[k] < j && in_scope(
                flat[cs[k]],
                root,
            ) by {
                if k < prev.len() {
                    assert(cs[k] == prev[k]);
                } else {
                    assert(cs[k] == j - 1);
                }
            }
        } else {
            assert(cs =~= prev);
        }
    }
}

/// The scoped positions among the first `j` entries are a prefix of
/// those among the first `n`.
pub proof fn lemma_scoped_idxs_prefix(
    flat: Seq<SymbolEntry>,
    root: Option<Seq<u8>>,
    j: int,
    n: int,
)
    requires
        0 <= j <= n,
    ensures
        spec_scoped_idxs(flat, root, j).len() <= spec_scoped_idxs(flat, root, n).len(),
        spec_scoped_idxs(flat, root, j) == spec_scoped_idxs(flat, root, n).take(
            spec_scoped_idxs(flat, root, j).len() as int,
        ),
    decreases n - j,
{
    if j < n {
        lemma_scoped_idxs_prefix(flat, root, j, n - 1);
        let a = spec_scoped_idxs(flat, root, j);
        let b = spec_scoped_idxs(flat, root, n - 1);
        let c = spec_scoped_idxs(flat, root, n);
        if in_scope(flat[n - 1], root) {
            assert(c == b + seq![n - 1]);
            assert(a =~= c.take(a.len() as int));
        } else {
            assert(c =~= b);
        }
    } else {
        let a = spec_scoped_idxs(flat, root, j);
        assert(a =~= a.take(a.len() as int));
    }
}

impl SymbolIndex {
    /// Copy every indexed entry into one list, documents in discovery
    /// order.
    fn flatten(&self) -> (r: Vec<SymbolEntry>)
        requires
            self.wf(),
        ensures
            r@.len() == flat_entries(self.docs@).len(),
            forall|j: int|
                0 <= j < r@.len() ==> entry_view_eq(
                    #[trigger] r@[j],
                    flat_entries(self.docs@)[j],
                ),
    {
        let ghost docs = self.docs@;
        let mut r: Vec<SymbolEntry> = Vec::new();
        let mut d: usize = 0;
        proof {
            assert(docs.take(0) =~= Seq::<DocSyms>::empty());
        }
        while d < self.docs.len()
            invariant
                self.wf(),
                docs == self.docs@,
                d <= docs.len(),
                r@.len() == flat_entries(docs.take(d as int)).len(),
                forall|j: int|
                    0 <= j < r@.len() ==> entry_view_eq(
                        #[trigger] r@[j],
                        flat_entries(docs.take(d as int))[j],
                    ),
            decreases docs.len() - d,
        {
            let ghost base = flat_entries(docs.take(d as int));
            let mut k: usize = 0;
            while k < self.docs[d].entries.len()
                invariant
                    self.wf(),
                    docs == self.docs@,
                    d < docs.len(),
                    k <= docs[d as int].entries@.len(),
                    base == flat_entries(docs.take(d as int)),
                    r@.len() == base.len() + k,
                    forall|j: int|
                        0 <= j < base.len() ==> entry_view_eq(#[trigger] r@[j], base[j]),
                    forall|j: int|
                        base.len() <= j < r@.len() ==> entry_view_eq(
                            #[trigger] r@[j],
                            docs[d as int].entries@[j - base.len()],
                        ),
                decreases docs[d as int].entries@.len() - k,
            {
                r.push(entry_dup(&self.docs[d].entries[k]));
                k += 1;
            }
            proof {
                lemma_flat_take_succ(docs, d as int);
                assert forall|j: int| 0 <= j < r@.len() implies entry_view_eq(
                    #[trigger] r@[j],
                    flat_entries(docs.take(d + 1 as int))[j],
                ) by {
                    if j < base.len() {
                        assert(flat_entries(docs.take(d + 1 as int))[j] == base[j]);
                    } else {
                        assert(flat_entries(docs.take(d + 1 as int))[j] == docs[d as int].entries@[
                            j - base.len()]);
                    }
                }
            }
            d += 1;
        }
        proof {
            assert(docs.take(docs.len() as int) =~= docs);
        }
        r
    }

    /// Ranked fuzzy search. An empty query returns in-scope entries in
    /// indexing order, up to `limit`. A non-empty query returns the
    /// `limit` best-scoring entries whose lowercased name contains the
    /// lowercased, trimmed query as a subsequence, score descending,
    /// ties to the shorter name, then to the earlier entry. Queries
    /// are bounded so scores fit 64-bit arithmetic.
    pub fn search_fuzzy(&self, query: &Vec<u8>, root: Option<&Vec<u8>>, limit: usize) -> (r: Vec<
        SymbolInfo,
    >)
        requires
            self.wf(),
            query@.len() < 0x1000_0000,
        ensures
            search_post(
                flat_entries(self.docs@),
                query@,
                match root {
                    Some(d) => Some(d@),
                    None => None::<Seq<u8>>,
                },
                limit as int,
                r@,
            ),
    {
        let ghost flat_s = flat_entries(self.docs@);
        let ghost rv = match root {
            Some(d) => Some(d@),
            None => None::<Seq<u8>>,
        };
        proof {
            lemma_flat_entries_wf(self.docs@);
        }
        let flat = self.flatten();
        let q_t = trim_bytes(query);
        if q_t.len() == 0 {
            let mut out: Vec<SymbolInfo> = Vec::new();
            let mut j: usize = 0;
            while j < flat.len() && out.len() < limit
                invariant
                    j <= flat@.len(),
                    rv == (match root {
                    Some(d) => Some(d@),
                    None => None::<Seq<u8>>,
                }),
                    flat_s.len() == flat@.len(),
                    forall|i: int|
                        0 <= i < flat@.len() ==> entry_view_eq(#[trigger] flat@[i], flat_s[i]),
                    out@.len() == (if limit as int <= spec_scoped_idxs(flat_s, rv, j as int).len() {
                        limit as int
                    } else {
                        spec_scoped_idxs(flat_s, rv, j as int).len() as int
                    }),
                    forall|k: int|
                        0 <= k < out@.len() ==> 0 <= #[trigger] spec_scoped_idxs(
                            flat_s,
                            rv,
                            j as int,
                        )[k] < flat_s.len() && info_of_entry(
                            out@[k],
                            flat_s[spec_scoped_idxs(flat_s, rv, j as int)[k]],
                        ),
                decreases flat@.len() - j,
            {
                let ghost prev = spec_scoped_idxs(flat_s, rv, j as int);
                let ghost cur = spec_scoped_idxs(flat_s, rv, j + 1 as int);
                proof {
                    lemma_scoped_idxs_sound(flat_s, rv, j + 1 as int);
                }
                let e = &flat[j];
                let scoped = match root {
                    Some(rt) => path_prefix(&e.path, rt),
                    None => true,
                };
                if scoped {
                    proof {
                        assert(entry_view_eq(flat@[j as int], flat_s[j as int]));
                        assert(in_scope(flat_s[j as int], rv));
                        assert(cur == prev + seq![j as int]);
                    }
                    out.push(
                        SymbolInfo {
                            name: copy_bytes(&e.name),
                            kind: e.kind,
                            uri: copy_bytes(&e.uri),
                            range: e.range,
                        },
                    );
                    proof {
                        assert forall|k: int| 0 <= k < out@.len() implies 0 <= #[trigger] cur[k]
                            < flat_s.len() && info_of_entry(out@[k], flat_s[cur[k]]) by {
                            if k < prev.len() {
                                assert(cur[k] == prev[k]);
                            } else {
                                assert(cur[k] == j as int);
                            }
                        }
                    }
                } else {
                    proof {
                        assert(entry_view_eq(flat@[j as int], flat_s[j as int]));
                        assert(!in_scope(flat_s[j as int], rv));
                        assert(cur =~= prev);
                    }
                }
                j += 1;
            }
            proof {
                let full = spec_scoped_idxs(flat_s, rv, flat_s.len() as int);
                let part = spec_scoped_idxs(flat_s, rv, j as int);
                lemma_scoped_idxs_prefix(flat_s, rv, j as int, flat_s.len() as int);
                if j < flat@.len() {
                    // stopped because the limit was reached
                    assert(out@.len() == limit as int);
                    assert forall|k: int| 0 <= k < out@.len() implies 0 <= #[trigger] full[k]
                        < flat_s.len() && info_of_entry(out@[k], flat_s[full[k]]) by {
                        assert(part[k] == full.take(part.len() as int)[k]);
                        assert(full[k] == part[k]);
                    }
                } else {
                    assert(part == full);
                }
            }
            return out;
        }
        let q_lc = lowercase_bytes(&q_t);
        proof {
            crate::text::lemma_trim_le(query@);
        }
        let mut cvec: Vec<Cand> = Vec::new();
        let mut j: usize = 0;
        let flat_count = flat.len();
        proof {
            assert(flat_s.len() == flat_count);
            assert(cvec@ =~= spec_cands(flat_s, q_lc@, rv, 0));
        }
        while j < flat.len()
            invariant
                j <= flat@.len(),
                rv == (match root {
                    Some(d) => Some(d@),
                    None => None::<Seq<u8>>,
                }),
                flat_s.len() == flat@.len(),
                flat_s.len() <= usize::MAX,
                forall|i: int|
                    0 <= i < flat@.len() ==> entry_view_eq(#[trigger] flat@[i], flat_s[i]),
                forall|i: int| 0 <= i < flat_s.len() ==> wf_entry(#[trigger] flat_s[i]),
                q_lc@ == lower_seq(trim_seq(query@)),
                q_lc@.len() < 0x1000_0000,
                cvec@ == spec_cands(flat_s, q_lc@, rv, j as int),
            decreases flat@.len() - j,
        {
            let ghost prev = spec_cands(flat_s, q_lc@, rv, j as int);
            let ghost cur = spec_cands(flat_s, q_lc@, rv, j + 1 as int);
            let e = &flat[j];
            let scoped = match root {
                Some(rt) => path_prefix(&e.path, rt),
                None => true,
            };
            if scoped {
                proof {
                    assert(entry_view_eq(flat@[j as int], flat_s[j as int]));
                    assert(in_scope(flat_s[j as int], rv));
                    assert(e.name@.len() == e.name_lowercase@.len()) by {
                        assert(wf_entry(flat_s[j as int]));
                        assert(lower_seq(flat_s[j as int].name@).len() == flat_s[
                            j as int].name@.len());
                    }
                }
                match fuzzy_score(&q_lc, &e.name, &e.name_lowercase) {
                    Some(sc) => {
                        cvec.push(Cand { score: sc, len: e.name.len(), idx: j });
                        proof {
                            assert(cvec@ =~= cur);
                        }
                    },
                    None => {
                        proof {
                            assert(cvec@ =~= cur);
                        }
                    },
                }
            } else {
                proof {
                    assert(entry_view_eq(flat@[j as int], flat_s[j as int]));
                    assert(!in_scope(flat_s[j as int], rv));
                    assert(cvec@ =~= cur);
                }
            }
            j += 1;
        }
        let selected = top_select(&cvec, limit);
        let ghost cands = spec_cands(flat_s, q_lc@, rv, flat_s.len() as int);
        let ghost sel = sel_of(cands, limit as int);
        proof {
            lemma_sort_desc_len(cands);
            if !(limit as int <= sort_desc(cands).len()) {
                assert(sort_desc(cands).take(cands.len() as int) =~= sort_desc(cands));
            }
            assert(selected@ == sel);
            lemma_spec_cands_sound(flat_s, q_lc@, rv, flat_s.len() as int);
        }
        let mut out: Vec<SymbolInfo> = Vec::new();
        let mut k: usize = 0;
        while k < selected.len()
            invariant
                k <= selected@.len(),
                selected@ == sel,
                cands == spec_cands(flat_s, q_lc@, rv, flat_s.len() as int),
                sel == sel_of(cands, limit as int),
                flat_s.len() == flat@.len(),
                flat_s.len() <= usize::MAX,
                q_lc@.len() < 0x1000_0000,
                forall|i: int|
                    0 <= i < flat@.len() ==> entry_view_eq(#[trigger] flat@[i], flat_s[i]),
                forall|i: int| 0 <= i < flat_s.len() ==> wf_entry(#[trigger] flat_s[i]),
                out@.len() == k,
                forall|m: int|
                    0 <= m < k ==> 0 <= #[trigger] sel[m].idx < flat_s.len() && info_of_entry(
                        out@[m],
                        flat_s[sel[m].idx as int],
                    ) && spec_fuzzy_score(
                        q_lc@,
                        flat_s[sel[m].idx as int].name@,
                        flat_s[sel[m].idx as int].name_lowercase@,
                    ) == Some(sel[m].score as int),
            decreases selected@.len() - k,
        {
            proof {
                let c = sel[k as int];
                assert(sort_desc(cands).contains(c)) by {
                    lemma_sort_desc_len(cands);
                    assert(sel[k as int] == sort_desc(cands)[k as int]);
                }
                lemma_sort_desc_contains(cands, c);
                let m0 = choose|m0: int| 0 <= m0 < cands.len() && cands[m0] == c;
                lemma_spec_cands_sound(flat_s, q_lc@, rv, flat_s.len() as int);
                assert(cands[m0].idx < flat_s.len());
            }
            let c = selected[k];
            let e = &flat[c.idx];
            out.push(
                SymbolInfo {
                    name: copy_bytes(&e.name),
                    kind: e.kind,
                    uri: copy_bytes(&e.uri),
                    range: e.range,
                },
            );
            k += 1;
        }
        out
    }
}

/// Returned scores never increase along the result list: the selection
/// is sorted best first, and rank begins with the score.
pub proof fn lemma_ranking_monotone(cands: Seq<Cand>, limit: int, k1: int, k2: int)
    requires
        0 <= limit,
        0 <= k1 < k2 < sel_of(cands, limit).len(),
    ensures
        sel_of(cands, limit)[k2].score <= sel_of(cands, limit)[k1].score,
{
    lemma_sort_desc_sorted(cands);
    let s = sort_desc(cands);
    assert(sel_of(cands, limit)[k1] == s[k1]);
    assert(sel_of(cands, limit)[k2] == s[k2]);
    assert(!cand_before(s[k2], s[k1]));
}

/// Searching for an entry's exact name, in scope, returns that entry
/// whenever the limit admits every qualifying candidate.
pub proof fn lemma_exact_name_recall(
    flat: Seq<SymbolEntry>,
    q_lc: Seq<u8>,
    rv: Option<Seq<u8>>,
    j: int,
    limit: int,
)
    requires
        0 <= j < flat.len(),
        flat.len() <= usize::MAX,
        q_lc.len() < 0x1000_0000,
        forall|i: int| 0 <= i < flat.len() ==> wf_entry(#[trigger] flat[i]),
        in_scope(flat[j], rv),
        q_lc == flat[j].name_lowercase@,
        limit >= spec_cands(flat, q_lc, rv, flat.len() as int).len(),
        limit >= 1,
    ensures
        exists|k: int|
            0 <= k < sel_of(spec_cands(flat, q_lc, rv, flat.len() as int), limit).len() && (
            #[trigger] sel_of(spec_cands(flat, q_lc, rv, flat.len() as int), limit)[k].idx) == j,
{
    let cands = spec_cands(flat, q_lc, rv, flat.len() as int);
    lemma_subseq_refl(q_lc);
    crate::fuzzy::lemma_score_iff_subseq(q_lc, flat[j].name@, flat[j].name_lowercase@);
    assert(spec_fuzzy_score(q_lc, flat[j].name@, flat[j].name_lowercase@) is Some);
    lemma_spec_cands_has(flat, q_lc, rv, flat.len() as int, j);
    let m = choose|m: int| 0 <= m < cands.len() && #[trigger] cands[m].idx == j;
    lemma_sort_desc_len(cands);
    lemma_sort_desc_contains(cands, cands[m]);
    assert(cands.contains(cands[m]));
    let s = sort_desc(cands);
    assert(s.contains(cands[m]));
    let k = choose|k: int| 0 <= k < s.len() && s[k] == cands[m];
    let sel = sel_of(cands, limit);
    if limit <= s.len() {
        assert(s.take(limit) =~= s);
    }
    assert(sel == s);
    assert(0 <= k < sel_of(spec_cands(flat, q_lc, rv, flat.len() as int), limit).len());
    assert(sel_of(spec_cands(flat, q_lc, rv, flat.len() as int), limit)[k].idx == j);
}


} // verus!
