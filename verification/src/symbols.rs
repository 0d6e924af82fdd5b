//! The flat workspace symbol list: the extractor's records reported in
//! tree order, plus two best-effort text passes that surface names the
//! grammar cannot see.
use vstd::prelude::*;

use crate::outline::Pend;
use crate::outline::collect_pends;
use crate::outline::spec_collect;
use crate::outline::spec_range;
use crate::text::LineIndex;
use crate::text::line_col_of_match;
use crate::text::line_starts;
use crate::text::lit_vec;
use crate::text::spec_line_col;
use crate::tree::SynNode;
use crate::types::Position;
use crate::types::SymKind;
use crate::types::SymbolInfo;
use crate::types::TextRange;

verus! {

/// A reported flat symbol carrying one extraction record's data.
pub open spec fn info_of_pend(
    i: SymbolInfo,
    p: Pend,
    text: Seq<u8>,
    starts: Seq<usize>,
    uri: Seq<u8>,
) -> bool {
    &&& i.name@ == text.subrange(p.nstart as int, p.nend as int)
    &&& i.kind == p.kind
    &&& i.uri@ == uri
    &&& i.range == spec_range(starts, p.start, p.end)
}

/// The flat symbols of one parsed document, in tree order: one per
/// classified, named node.
pub fn tree_symbols(tree: &SynNode, text: &Vec<u8>, uri: &Vec<u8>) -> (r: Vec<SymbolInfo>)
    requires
        text@.len() < 0x1_0000_0000,
    ensures
        r@.len() == spec_collect(*tree, text@.len() as usize).len(),
        forall|k: int|
            0 <= k < r@.len() ==> info_of_pend(
                #[trigger] r@[k],
                spec_collect(*tree, text@.len() as usize)[k],
                text@,
                line_starts(text@, text@.len() as int),
                uri@,
            ),
{
    let ghost ps_spec = spec_collect(*tree, text@.len() as usize);
    let mut pends: Vec<Pend> = Vec::new();
    collect_pends(tree, text.len(), &mut pends);
    let li = LineIndex::new(text);
    proof {
        crate::outline::lemma_collect_ok(*tree, text@.len() as usize);
    }
    let mut r: Vec<SymbolInfo> = Vec::new();
    let mut k: usize = 0;
    while k < pends.len()
        invariant
            k <= pends@.len(),
            pends@ == ps_spec,
            ps_spec == spec_collect(*tree, text@.len() as usize),
            forall|m: int|
                0 <= m < ps_spec.len() ==> crate::outline::pend_ok(
                    #[trigger] ps_spec[m],
                    text@.len() as usize,
                ),
            text@.len() < 0x1_0000_0000,
            li.wf(),
            li.starts@ == line_starts(text@, text@.len() as int),
            r@.len() == k,
            forall|m: int|
                0 <= m < k ==> info_of_pend(
                    #[trigger] r@[m],
                    ps_spec[m],
                    text@,
                    line_starts(text@, text@.len() as int),
                    uri@,
                ),
        decreases pends@.len() - k,
    {
        let p = pends[k];
        let mut name: Vec<u8> = Vec::new();
        let mut j: usize = p.nstart;
        while j < p.nend
            invariant
                p.nstart <= j <= p.nend,
                p.nend <= text@.len(),
                name@ == text@.subrange(p.nstart as int, j as int),
            decreases p.nend - j,
        {
            name.push(text[j]);
            proof {
                assert(name@ =~= text@.subrange(p.nstart as int, j + 1 as int));
            }
            j += 1;
        }
        proof {
            if p.nstart == p.nend {
                assert(name@ =~= text@.subrange(p.nstart as int, p.nend as int));
            }
        }
        let range = li.range_of(p.start, p.end);
        r.push(
            SymbolInfo {
                name,
                kind: p.kind,
                uri: crate::text::copy_bytes(uri),
                range,
            },
        );
        k += 1;
    }
    r
}

/// Space or tab: the whitespace the line-local passes skip.
pub open spec fn is_sp(b: u8) -> bool {
    b == ' ' as u8 || b == '\t' as u8
}

pub open spec fn is_alpha(b: u8) -> bool {
    ('A' as u8 <= b && b <= 'Z' as u8) || ('a' as u8 <= b && b <= 'z' as u8)
}

pub open spec fn is_ident_tail(b: u8) -> bool {
    is_alpha(b) || ('0' as u8 <= b && b <= '9' as u8) || b == '_' as u8
}

/// Whether `pat` occurs in `t` starting at `i`.
pub open spec fn match_at(t: Seq<u8>, i: int, pat: Seq<u8>) -> bool {
    0 <= i && i + pat.len() <= t.len() && t.subrange(i, i + pat.len()) == pat
}

/// First position at or after `i` holding neither space nor tab.
pub open spec fn sp_end(t: Seq<u8>, i: int) -> int
    decreases t.len() - i,
{
    if 0 <= i < t.len() && is_sp(t[i]) {
        sp_end(t, i + 1)
    } else {
        i
    }
}


/// End of an identifier's tail starting at `i`, stopping at `w`.
pub open spec fn ident_end(t: Seq<u8>, i: int, w: int) -> int
    decreases w - i,
{
    if 0 <= i < w && i < t.len() && is_ident_tail(t[i]) {
        ident_end(t, i + 1, w)
    } else {
        i
    }
}

pub proof fn lemma_ident_end(t: Seq<u8>, i: int, w: int)
    requires
        0 <= i <= w,
    ensures
        i <= ident_end(t, i, w) <= w,
    decreases w - i,
{
    if i < w && i < t.len() && is_ident_tail(t[i]) {
        lemma_ident_end(t, i + 1, w);
    }
}

/// Skip spaces and tabs, returning the first other position.
pub fn sp_end_exec(t: &Vec<u8>, i: usize) -> (r: usize)
    requires
        i <= t@.len(),
    ensures
        r == sp_end(t@, i as int),
        i <= r <= t@.len(),
{
    let mut j = i;
    while j < t.len() && (t[j] == ' ' as u8 || t[j] == '\t' as u8)
        invariant
            i <= j <= t@.len(),
            sp_end(t@, i as int) == sp_end(t@, j as int),
        decreases t@.len() - j,
    {
        j += 1;
    }
    j
}

/// Scan an identifier tail up to `w`.
pub fn ident_end_exec(t: &Vec<u8>, i: usize, w: usize) -> (r: usize)
    requires
        i <= w <= t@.len(),
    ensures
        r == ident_end(t@, i as int, w as int),
        i <= r <= w,
{
    let mut j = i;
    while j < w && (('A' as u8 <= t[j] && t[j] <= 'Z' as u8) || ('a' as u8 <= t[j] && t[j]
        <= 'z' as u8) || ('0' as u8 <= t[j] && t[j] <= '9' as u8) || t[j] == '_' as u8)
        invariant
            i <= j <= w,
            w <= t@.len(),
            ident_end(t@, i as int, w as int) == ident_end(t@, j as int, w as int),
        decreases w - j,
    {
        j += 1;
    }
    j
}

/// Whether `pat` occurs at `i`.
pub fn match_at_exec(t: &Vec<u8>, i: usize, pat: &Vec<u8>) -> (r: bool)
    ensures
        r == match_at(t@, i as int, pat@),
{
    if i > t.len() || pat.len() > t.len() - i {
        return false;
    }
    let mut j: usize = 0;
    while j < pat.len()
        invariant
            j <= pat@.len(),
            i + pat@.len() <= t@.len(),
            t@.len() <= usize::MAX,
            forall|m: int| 0 <= m < j ==> t@[i + m] == pat@[m],
        decreases pat@.len() - j,
    {
        if t[i + j] != pat[j] {
            proof {
                assert(t@.subrange(i as int, i + pat@.len())[j as int] != pat@[j as int]);
            }
            return false;
        }
        j += 1;
    }
    proof {
        assert(t@.subrange(i as int, i + pat@.len()) =~= pat@);
    }
    true
}

/// One synthesized name: its bytes and the byte position of its
/// capture in the text.
pub struct Synth {
    pub name: Seq<u8>,
    pub pos: int,
}

/// The marker of the capability-declaring macro pass.
pub open spec fn kw_userplot() -> Seq<u8> {
    "@userplot"@.map_values(|c: char| c as u8)
}

pub open spec fn kw_recipe() -> Seq<u8> {
    "@recipe"@.map_values(|c: char| c as u8)
}

pub open spec fn kw_function() -> Seq<u8> {
    "function"@.map_values(|c: char| c as u8)
}

/// The anchor of the shorthand-declaration pass.
pub open spec fn kw_shorthands() -> Seq<u8> {
    "@shorthands"@.map_values(|c: char| c as u8)
}

/// A capability declaration on the line beginning at `l`: optional
/// blanks, the marker, at least one blank, then the declared
/// identifier. Yields the identifier's byte range.
pub open spec fn userplot_at(t: Seq<u8>, l: int) -> Option<(int, int)> {
    let a = sp_end(t, l);
    if match_at(t, a, kw_userplot()) {
        let b = a + kw_userplot().len();
        if b < t.len() && is_sp(t[b]) {
            let c = sp_end(t, b);
            if c < t.len() && is_alpha(t[c]) {
                Some((c, ident_end(t, c + 1, t.len() as int)))
            } else {
                None
            }
        } else {
            None
        }
    } else {
        None
    }
}

/// A recipe-function declaration on the line beginning at `l`.
pub open spec fn recipe_at(t: Seq<u8>, l: int) -> Option<(int, int)> {
    let a = sp_end(t, l);
    if match_at(t, a, kw_recipe()) {
        let b = a + kw_recipe().len();
        if b < t.len() && is_sp(t[b]) {
            let c = sp_end(t, b);
            if match_at(t, c, kw_function()) {
                let d = c + kw_function().len();
                if d < t.len() && is_sp(t[d]) {
                    let e = sp_end(t, d);
                    if e < t.len() && is_alpha(t[e]) {
                        Some((e, ident_end(t, e + 1, t.len() as int)))
                    } else {
                        None
                    }
                } else {
                    None
                }
            } else {
                None
            }
        } else {
            None
        }
    } else {
        None
    }
}

/// The capability declarations found at the given line starts.
pub open spec fn up_list(t: Seq<u8>, ls: Seq<usize>, i: int) -> Seq<Synth>
    decreases ls.len() - i,
{
    if i < 0 || i >= ls.len() {
        Seq::empty()
    } else {
        (match userplot_at(t, ls[i] as int) {
            Some(ab) => seq![Synth { name: t.subrange(ab.0, ab.1), pos: ab.0 }],
            None => Seq::empty(),
        }) + up_list(t, ls, i + 1)
    }
}

/// The recipe-function declarations found at the given line starts.
pub open spec fn rc_list(t: Seq<u8>, ls: Seq<usize>, i: int) -> Seq<Synth>
    decreases ls.len() - i,
{
    if i < 0 || i >= ls.len() {
        Seq::empty()
    } else {
        (match recipe_at(t, ls[i] as int) {
            Some(ab) => seq![Synth { name: t.subrange(ab.0, ab.1), pos: ab.0 }],
            None => Seq::empty(),
        }) + rc_list(t, ls, i + 1)
    }
}

/// The delimiters that may close a shorthand name.
pub open spec fn is_delim(b: u8) -> bool {
    ||| b == ' ' as u8
    ||| b == '\t' as u8
    ||| b == '\n' as u8
    ||| b == '\r' as u8
    ||| b == 11u8
    ||| b == 12u8
    ||| b == ',' as u8
    ||| b == ']' as u8
    ||| b == ')' as u8
}

/// The anchors of the shorthand pass: each occurrence of the marker,
/// scanning left to right without overlap.
pub open spec fn anchor_list(t: Seq<u8>, i: int) -> Seq<int>
    decreases t.len() - i,
{
    if i < 0 || i + 11 > t.len() {
        Seq::empty()
    } else if match_at(t, i, kw_shorthands()) {
        seq![i] + anchor_list(t, i + 11)
    } else {
        anchor_list(t, i + 1)
    }
}

/// The bare names inside one lookahead window: an optional colon, a
/// letter, identifier characters, an optional bang, then a delimiter.
/// Scanning resumes after each accepted name's delimiter.
pub open spec fn anchor_names(t: Seq<u8>, j: int, w: int) -> Seq<Synth>
    decreases w - j,
    via anchor_names_dec
{
    if j < 0 || j >= w || w > t.len() {
        Seq::empty()
    } else {
        let k = if t[j] == ':' as u8 {
            j + 1
        } else {
            j
        };
        if k < w && is_alpha(t[k]) {
            let e0 = ident_end(t, k + 1, w);
            let e = if e0 < w && t[e0] == '!' as u8 {
                e0 + 1
            } else {
                e0
            };
            if e < w && is_delim(t[e]) {
                seq![Synth { name: t.subrange(k, e), pos: k }] + anchor_names(t, e + 1, w)
            } else {
                anchor_names(t, j + 1, w)
            }
        } else {
            anchor_names(t, j + 1, w)
        }
    }
}

#[via_fn]
proof fn anchor_names_dec(t: Seq<u8>, j: int, w: int) {
    if !(j < 0 || j >= w || w > t.len()) {
        let k = if t[j] == ':' as u8 {
            j + 1
        } else {
            j
        };
        if k < w && is_alpha(t[k]) {
            lemma_ident_end(t, k + 1, w);
        }
    }
}

/// A window's end: a fixed lookahead after its anchor, or the text's
/// end if that comes first.
pub open spec fn window_end(t: Seq<u8>, a: int) -> int {
    if a + 600 <= t.len() {
        a + 600
    } else {
        t.len() as int
    }
}

/// All shorthand names, window by window.
pub open spec fn shorthand_list(t: Seq<u8>, ans: Seq<int>, i: int) -> Seq<Synth>
    decreases ans.len() - i,
{
    if i < 0 || i >= ans.len() {
        Seq::empty()
    } else {
        anchor_names(t, ans[i], window_end(t, ans[i])) + shorthand_list(t, ans, i + 1)
    }
}

/// A reported symbol for one synthesized name: the capture's position,
/// a one-character range, function kind.
pub open spec fn info_of_synth(inf: SymbolInfo, sy: Synth, t: Seq<u8>, uri: Seq<u8>) -> bool {
    let lc = spec_line_col(t, sy.pos);
    &&& inf.name@ == sy.name
    &&& inf.kind == SymKind::Function
    &&& inf.uri@ == uri
    &&& inf.range == (TextRange {
        start: Position { line: lc.0 as u32, character: lc.1 as u32 },
        end: Position { line: lc.0 as u32, character: (lc.1 + 1) as u32 },
    })
}

pub open spec fn infos_match_synths(
    infos: Seq<SymbolInfo>,
    sys: Seq<Synth>,
    t: Seq<u8>,
    uri: Seq<u8>,
) -> bool {
    &&& infos.len() == sys.len()
    &&& forall|k: int| 0 <= k < sys.len() ==> info_of_synth(#[trigger] infos[k], sys[k], t, uri)
}

/// Slice `text[a..b]` into a fresh byte string.
pub fn slice_bytes(text: &Vec<u8>, a: usize, b: usize) -> (r: Vec<u8>)
    requires
        a <= b <= text@.len(),
    ensures
        r@ == text@.subrange(a as int, b as int),
{
    let mut r: Vec<u8> = Vec::new();
    let mut j = a;
    while j < b
        invariant
            a <= j <= b <= text@.len(),
            r@ == text@.subrange(a as int, j as int),
        decreases b - j,
    {
        r.push(text[j]);
        proof {
            assert(r@ =~= text@.subrange(a as int, j + 1 as int));
        }
        j += 1;
    }
    proof {
        assert(r@ =~= text@.subrange(a as int, b as int));
    }
    r
}

/// Build the reported symbol for one synthesized name.
fn push_synth(
    out: &mut Vec<SymbolInfo>,
    text: &Vec<u8>,
    uri: &Vec<u8>,
    a: usize,
    b: usize,
)
    requires
        a <= b <= text@.len(),
        a < text@.len(),
        text@.len() < 0x1_0000_0000,
    ensures
        final(out)@.len() == old(out)@.len() + 1,
        final(out)@ == old(out)@.push(final(out)@.last()),
        info_of_synth(final(out)@.last(), Synth { name: text@.subrange(a as int, b as int), pos: a as int }, text@, uri@),
{
    let name = slice_bytes(text, a, b);
    let (line, col) = line_col_of_match(text, a);
    proof {
        crate::text::lemma_line_col_bounds(text@, a as int);
    }
    out.push(
        SymbolInfo {
            name,
            kind: SymKind::Function,
            uri: crate::text::copy_bytes(uri),
            range: TextRange {
                start: Position { line, character: col },
                end: Position { line, character: col + 1 },
            },
        },
    );
    proof {
        assert(final(out)@ =~= old(out)@.push(final(out)@.last()));
    }
}

/// The capability-macro pass: single-line declarations captured at the
/// declared identifier.
pub fn synthesize_macro_symbols(text: &Vec<u8>, uri: &Vec<u8>) -> (r: Vec<SymbolInfo>)
    requires
        text@.len() < 0x1_0000_0000,
    ensures
        ({
            let ls = line_starts(text@, text@.len() as int);
            infos_match_synths(
                r@,
                up_list(text@, ls, 0) + rc_list(text@, ls, 0),
                text@,
                uri@,
            )
        }),
{
    let li = LineIndex::new(text);
    let ghost ls = li.starts@;
    proof {
        reveal_strlit("@userplot");
        reveal_strlit("@recipe");
        reveal_strlit("function");
        assert(vstd::string::is_ascii("@userplot"));
        assert(vstd::string::is_ascii("@recipe"));
        assert(vstd::string::is_ascii("function"));
    }
    let up_kw = lit_vec("@userplot");
    let rc_kw = lit_vec("@recipe");
    let fn_kw = lit_vec("function");
    let mut out: Vec<SymbolInfo> = Vec::new();
    let ghost mut done: Seq<Synth> = Seq::empty();
    proof {
        assert(done + up_list(text@, ls, 0) =~= up_list(text@, ls, 0));
    }
    let mut i: usize = 0;
    while i < li.starts.len()
        invariant
            i <= ls.len(),
            ls == li.starts@,
            li.wf(),
            text@.len() < 0x1_0000_0000,
            forall|m: int| 0 <= m < ls.len() ==> (#[trigger] ls[m]) <= text@.len(),
            up_kw@ == kw_userplot(),
            done + up_list(text@, ls, i as int) == up_list(text@, ls, 0),
            infos_match_synths(out@, done, text@, uri@),
        decreases ls.len() - i,
    {
        let l = li.starts[i];
        let a = sp_end_exec(text, l);
        if match_at_exec(text, a, &up_kw) {
            let b = a + up_kw.len();
            if b < text.len() && (text[b] == ' ' as u8 || text[b] == '\t' as u8) {
                let c = sp_end_exec(text, b);
                if c < text.len() && (('A' as u8 <= text[c] && text[c] <= 'Z' as u8) || (
                'a' as u8 <= text[c] && text[c] <= 'z' as u8)) {
                    let e = ident_end_exec(text, c + 1, text.len());
                    push_synth(&mut out, text, uri, c, e);
                    proof {
                        let sy = Synth { name: text@.subrange(c as int, e as int), pos: c as int };
                        assert(userplot_at(text@, l as int) == Some((c as int, e as int)));
                        done = done.push(sy);
                        assert(done + up_list(text@, ls, i + 1 as int) =~= up_list(text@, ls, 0));
                    }
                } else {
                    proof {
                        assert(userplot_at(text@, l as int) is None);
                        assert(done + up_list(text@, ls, i + 1 as int) =~= up_list(text@, ls, 0));
                    }
                }
            } else {
                proof {
                    assert(userplot_at(text@, l as int) is None);
                    assert(done + up_list(text@, ls, i + 1 as int) =~= up_list(text@, ls, 0));
                }
            }
        } else {
            proof {
                assert(userplot_at(text@, l as int) is None);
                assert(done + up_list(text@, ls, i + 1 as int) =~= up_list(text@, ls, 0));
            }
        }
        i += 1;
    }
    proof {
        assert(done =~= up_list(text@, ls, 0));
        assert(done + rc_list(text@, ls, 0) =~= done + rc_list(text@, ls, 0));
    }
    let ghost up_done = done;
    let mut i: usize = 0;
    while i < li.starts.len()
        invariant
            i <= ls.len(),
            ls == li.starts@,
            li.wf(),
            text@.len() < 0x1_0000_0000,
            forall|m: int| 0 <= m < ls.len() ==> (#[trigger] ls[m]) <= text@.len(),
            rc_kw@ == kw_recipe(),
            fn_kw@ == kw_function(),
            up_done == up_list(text@, ls, 0),
            done + rc_list(text@, ls, i as int) == up_done + rc_list(text@, ls, 0),
            infos_match_synths(out@, done, text@, uri@),
        decreases ls.len() - i,
    {
        let l = li.starts[i];
        let a = sp_end_exec(text, l);
        if match_at_exec(text, a, &rc_kw) {
            let b = a + rc_kw.len();
            if b < text.len() && (text[b] == ' ' as u8 || text[b] == '\t' as u8) {
                let c = sp_end_exec(text, b);
                if match_at_exec(text, c, &fn_kw) {
                    let d = c + fn_kw.len();
                    if d < text.len() && (text[d] == ' ' as u8 || text[d] == '\t' as u8) {
                        let e = sp_end_exec(text, d);
                        if e < text.len() && (('A' as u8 <= text[e] && text[e] <= 'Z' as u8) || (
                        'a' as u8 <= text[e] && text[e] <= 'z' as u8)) {
                            let f = ident_end_exec(text, e + 1, text.len());
                            push_synth(&mut out, text, uri, e, f);
                            proof {
                                let sy = Synth {
                                    name: text@.subrange(e as int, f as int),
                                    pos: e as int,
                                };
                                assert(recipe_at(text@, l as int) == Some((e as int, f as int)));
                                done = done.push(sy);
                                assert(done + rc_list(text@, ls, i + 1 as int) =~= up_done
                                    + rc_list(text@, ls, 0));
                            }
                        } else {
                            proof {
                                assert(recipe_at(text@, l as int) is None);
                                assert(done + rc_list(text@, ls, i + 1 as int) =~= up_done
                                    + rc_list(text@, ls, 0));
                            }
                        }
                    } else {
                        proof {
                            assert(recipe_at(text@, l as int) is None);
                            assert(done + rc_list(text@, ls, i + 1 as int) =~= up_done + rc_list(
                                text@,
                                ls,
                                0,
                            ));
                        }
                    }
                } else {
                    proof {
                        assert(recipe_at(text@, l as int) is None);
                        assert(done + rc_list(text@, ls, i + 1 as int) =~= up_done + rc_list(
                            text@,
                            ls,
                            0,
                        ));
                    }
                }
            } else {
                proof {
                    assert(recipe_at(text@, l as int) is None);
                    assert(done + rc_list(text@, ls, i + 1 as int) =~= up_done + rc_list(
                        text@,
                        ls,
                        0,
                    ));
                }
            }
        } else {
            proof {
                assert(recipe_at(text@, l as int) is None);
                assert(done + rc_list(text@, ls, i + 1 as int) =~= up_done + rc_list(
                    text@,
                    ls,
                    0,
                ));
            }
        }
        i += 1;
    }
    proof {
        assert(done =~= up_list(text@, ls, 0) + rc_list(text@, ls, 0));
    }
    out
}

/// The anchor offsets as mathematical integers.
pub open spec fn anchors_ints(s: Seq<usize>) -> Seq<int> {
    s.map_values(|x: usize| x as int)
}

/// Every anchor lies at least a marker's length before the text's end.
pub proof fn lemma_anchor_list_bounds(t: Seq<u8>, i: int)
    requires
        0 <= i,
    ensures
        forall|k: int|
            0 <= k < anchor_list(t, i).len() ==> i <= #[trigger] anchor_list(t, i)[k]
                && anchor_list(t, i)[k] + 11 <= t.len(),
    decreases t.len() - i,
{
    if !(i + 11 > t.len()) {
        if match_at(t, i, kw_shorthands()) {
            lemma_anchor_list_bounds(t, i + 11);
            let cs = anchor_list(t, i);
            let rest = anchor_list(t, i + 11);
            assert(cs == seq![i] + rest);
            assert forall|k: int| 0 <= k < cs.len() implies i <= #[trigger] cs[k] && cs[k] + 11
                <= t.len() by {
                if k == 0 {
                    assert(cs[0] == i);
                } else {
                    assert(cs[k] == rest[k - 1]);
                }
            }
        } else {
            lemma_anchor_list_bounds(t, i + 1);
            let cs = anchor_list(t, i);
            let rest = anchor_list(t, i + 1);
            assert(cs == rest);
            assert forall|k: int| 0 <= k < cs.len() implies i <= #[trigger] cs[k] && cs[k] + 11
                <= t.len() by {
                assert(cs[k] == rest[k]);
            }
        }
    }
}

/// The shorthand pass: find each anchor, then scan a bounded window
/// after it for comma- or bracket-delimited bare names.
pub fn synthesize_shorthand_symbols(text: &Vec<u8>, uri: &Vec<u8>) -> (r: Vec<SymbolInfo>)
    requires
        text@.len() < 0x1_0000_0000,
    ensures
        ({
            let ans = anchor_list(text@, 0);
            infos_match_synths(r@, shorthand_list(text@, ans, 0), text@, uri@)
        }),
{
    proof {
        reveal_strlit("@shorthands");
        assert(vstd::string::is_ascii("@shorthands"));
        assert("@shorthands"@.len() == 11);
    }
    let sh_kw = lit_vec("@shorthands");
    let mut anchors: Vec<usize> = Vec::new();
    let mut j: usize = 0;
    proof {
        assert(sh_kw@.len() == 11);
        assert(anchors_ints(anchors@) + anchor_list(text@, 0) =~= anchor_list(text@, 0));
    }
    while j < text.len() && text.len() - j >= 11
        invariant
            j <= text@.len(),
            text@.len() < 0x1_0000_0000,
            sh_kw@ == kw_shorthands(),
            sh_kw@.len() == 11,
            anchors_ints(anchors@) + anchor_list(text@, j as int) == anchor_list(text@, 0),
        decreases text@.len() - j,
    {
        if match_at_exec(text, j, &sh_kw) {
            let ghost apre = anchors@;
            anchors.push(j);
            proof {
                assert(anchors_ints(anchors@) =~= anchors_ints(apre).push(j as int));
                assert(anchors_ints(anchors@) + anchor_list(text@, j + 11 as int)
                    =~= anchor_list(text@, 0));
            }
            j += 11;
        } else {
            proof {
                assert(anchors_ints(anchors@) + anchor_list(text@, j + 1 as int) =~= anchor_list(
                    text@,
                    0,
                ));
            }
            j += 1;
        }
    }
    proof {
        assert(anchor_list(text@, j as int) =~= Seq::<int>::empty());
        assert(anchors_ints(anchors@) =~= anchor_list(text@, 0));
    }
    let ghost ans = anchor_list(text@, 0);
    let mut out: Vec<SymbolInfo> = Vec::new();
    let ghost mut done: Seq<Synth> = Seq::empty();
    proof {
        assert(ans == anchors_ints(anchors@));
        lemma_anchor_list_bounds(text@, 0);
        assert(done + shorthand_list(text@, ans, 0) =~= shorthand_list(text@, ans, 0));
    }
    let mut i: usize = 0;
    while i < anchors.len()
        invariant
            i <= anchors@.len(),
            text@.len() < 0x1_0000_0000,
            ans == anchors_ints(anchors@),
            ans == anchor_list(text@, 0),
            forall|m: int| 0 <= m < ans.len() ==> 0 <= #[trigger] ans[m] && ans[m] + 11 <= text@.len(),
            done + shorthand_list(text@, ans, i as int) == shorthand_list(text@, ans, 0),
            infos_match_synths(out@, done, text@, uri@),
        decreases anchors@.len() - i,
    {
        let a = anchors[i];
        proof {
            assert(ans[i as int] == anchors@[i as int] as int);
        }
        let w: usize = if text.len() - a >= 600 {
            a + 600
        } else {
            text.len()
        };
        proof {
            assert(w as int == window_end(text@, a as int));
        }
        let mut p: usize = a;
        proof {
            assert(shorthand_list(text@, ans, i as int) == anchor_names(
                text@,
                a as int,
                w as int,
            ) + shorthand_list(text@, ans, i + 1 as int));
            assert(done + anchor_names(text@, a as int, w as int) + shorthand_list(
                text@,
                ans,
                i + 1 as int,
            ) =~= shorthand_list(text@, ans, 0));
        }
        while p < w
            invariant
                a <= p <= w,
                w <= text@.len(),
                text@.len() < 0x1_0000_0000,
                done + anchor_names(text@, p as int, w as int) + shorthand_list(
                    text@,
                    ans,
                    i + 1 as int,
                ) == shorthand_list(text@, ans, 0),
                infos_match_synths(out@, done, text@, uri@),
            decreases w - p,
        {
            let k: usize = if text[p] == ':' as u8 {
                p + 1
            } else {
                p
            };
            let mut advanced = false;
            if k < w && (('A' as u8 <= text[k] && text[k] <= 'Z' as u8) || ('a' as u8 <= text[k]
                && text[k] <= 'z' as u8)) {
                let e0 = ident_end_exec(text, k + 1, w);
                let e: usize = if e0 < w && text[e0] == '!' as u8 {
                    e0 + 1
                } else {
                    e0
                };
                if e < w && (text[e] == ' ' as u8 || text[e] == '\t' as u8 || text[e]
                    == '\n' as u8 || text[e] == '\r' as u8 || text[e] == 11u8 || text[e] == 12u8
                    || text[e] == ',' as u8 || text[e] == ']' as u8 || text[e] == ')' as u8) {
                    push_synth(&mut out, text, uri, k, e);
                    proof {
                        let sy = Synth { name: text@.subrange(k as int, e as int), pos: k as int };
                        assert(anchor_names(text@, p as int, w as int) == seq![sy] + anchor_names(
                            text@,
                            e + 1 as int,
                            w as int,
                        ));
                        done = done.push(sy);
                        assert(done + anchor_names(text@, e + 1 as int, w as int)
                            + shorthand_list(text@, ans, i + 1 as int) =~= shorthand_list(
                            text@,
                            ans,
                            0,
                        ));
                    }
                    p = e + 1;
                    advanced = true;
                }
            }
            if !advanced {
                proof {
                    assert(anchor_names(text@, p as int, w as int) == anchor_names(
                        text@,
                        p + 1 as int,
                        w as int,
                    ));
                }
                p += 1;
            }
        }
        proof {
            assert(anchor_names(text@, p as int, w as int) =~= Seq::<Synth>::empty());
            assert(done + anchor_names(text@, p as int, w as int) =~= done);
            assert(done + shorthand_list(text@, ans, i + 1 as int) =~= shorthand_list(
                text@,
                ans,
                0,
            ));
        }
        i += 1;
    }
    proof {
        assert(done =~= shorthand_list(text@, ans, 0));
    }
    out
}


/// Skipping blanks never leaves the text.
pub proof fn lemma_sp_end(t: Seq<u8>, i: int)
    requires
        0 <= i <= t.len(),
    ensures
        i <= sp_end(t, i) <= t.len(),
    decreases t.len() - i,
{
    if i < t.len() && is_sp(t[i]) {
        lemma_sp_end(t, i + 1);
    }
}

/// A capability capture is a well-bounded slice of the text.
pub proof fn lemma_userplot_at_bounds(t: Seq<u8>, l: int)
    requires
        0 <= l <= t.len(),
    ensures
        match userplot_at(t, l) {
            Some(ab) => 0 <= ab.0 <= ab.1 <= t.len(),
            None => true,
        },
{
    lemma_sp_end(t, l);
    let a = sp_end(t, l);
    if match_at(t, a, kw_userplot()) {
        let b = a + kw_userplot().len();
        if b < t.len() && is_sp(t[b]) {
            lemma_sp_end(t, b);
            let c = sp_end(t, b);
            if c < t.len() && is_alpha(t[c]) {
                lemma_ident_end(t, c + 1, t.len() as int);
            }
        }
    }
}

/// A recipe capture is a well-bounded slice of the text.
pub proof fn lemma_recipe_at_bounds(t: Seq<u8>, l: int)
    requires
        0 <= l <= t.len(),
    ensures
        match recipe_at(t, l) {
            Some(ab) => 0 <= ab.0 <= ab.1 <= t.len(),
            None => true,
        },
{
    lemma_sp_end(t, l);
    let a = sp_end(t, l);
    if match_at(t, a, kw_recipe()) {
        let b = a + kw_recipe().len();
        if b < t.len() && is_sp(t[b]) {
            lemma_sp_end(t, b);
            let c = sp_end(t, b);
            if match_at(t, c, kw_function()) {
                let d = c + kw_function().len();
                if d < t.len() && is_sp(t[d]) {
                    lemma_sp_end(t, d);
                    let e = sp_end(t, d);
                    if e < t.len() && is_alpha(t[e]) {
                        lemma_ident_end(t, e + 1, t.len() as int);
                    }
                }
            }
        }
    }
}

/// Every capability-pass name is no longer than the text.
pub proof fn lemma_up_list_bounds(t: Seq<u8>, ls: Seq<usize>, i: int)
    requires
        forall|m: int| 0 <= m < ls.len() ==> (#[trigger] ls[m]) <= t.len(),
    ensures
        forall|k: int|
            0 <= k < up_list(t, ls, i).len() ==> (#[trigger] up_list(t, ls, i)[k]).name.len()
                <= t.len(),
    decreases ls.len() - i,
{
    if 0 <= i < ls.len() {
        lemma_up_list_bounds(t, ls, i + 1);
        lemma_userplot_at_bounds(t, ls[i] as int);
        let cs = up_list(t, ls, i);
        let rest = up_list(t, ls, i + 1);
        match userplot_at(t, ls[i] as int) {
            Some(ab) => {
                let app = seq![Synth { name: t.subrange(ab.0, ab.1), pos: ab.0 }];
                assert(cs == app + rest);
                assert forall|k: int| 0 <= k < cs.len() implies (#[trigger] cs[k]).name.len()
                    <= t.len() by {
                    if k == 0 {
                        assert(cs[0] == app[0]);
                    } else {
                        assert(cs[k] == rest[k - 1]);
                    }
                }
            },
            None => {
                assert(cs =~= rest);
                assert forall|k: int| 0 <= k < cs.len() implies (#[trigger] cs[k]).name.len()
                    <= t.len() by {
                    assert(cs[k] == rest[k]);
                }
            },
        }
    }
}

/// Every recipe-pass name is no longer than the text.
pub proof fn lemma_rc_list_bounds(t: Seq<u8>, ls: Seq<usize>, i: int)
    requires
        forall|m: int| 0 <= m < ls.len() ==> (#[trigger] ls[m]) <= t.len(),
    ensures
        forall|k: int|
            0 <= k < rc_list(t, ls, i).len() ==> (#[trigger] rc_list(t, ls, i)[k]).name.len()
                <= t.len(),
    decreases ls.len() - i,
{
    if 0 <= i < ls.len() {
        lemma_rc_list_bounds(t, ls, i + 1);
        lemma_recipe_at_bounds(t, ls[i] as int);
        let cs = rc_list(t, ls, i);
        let rest = rc_list(t, ls, i + 1);
        match recipe_at(t, ls[i] as int) {
            Some(ab) => {
                let app = seq![Synth { name: t.subrange(ab.0, ab.1), pos: ab.0 }];
                assert(cs == app + rest);
                assert forall|k: int| 0 <= k < cs.len() implies (#[trigger] cs[k]).name.len()
                    <= t.len() by {
                    if k == 0 {
                        assert(cs[0] == app[0]);
                    } else {
                        assert(cs[k] == rest[k - 1]);
                    }
                }
            },
            None => {
                assert(cs =~= rest);
                assert forall|k: int| 0 <= k < cs.len() implies (#[trigger] cs[k]).name.len()
                    <= t.len() by {
                    assert(cs[k] == rest[k]);
                }
            },
        }
    }
}

/// Every name found in a lookahead window is no longer than the text.
pub proof fn lemma_anchor_names_bounds(t: Seq<u8>, j: int, w: int)
    ensures
        forall|k: int|
            0 <= k < anchor_names(t, j, w).len() ==> (#[trigger] anchor_names(t, j, w)[k]).name.len()
                <= t.len(),
    decreases w - j,
{
    if !(j < 0 || j >= w || w > t.len()) {
        let kpos = if t[j] == ':' as u8 {
            j + 1
        } else {
            j
        };
        if kpos < w && is_alpha(t[kpos]) {
            lemma_ident_end(t, kpos + 1, w);
            let e0 = ident_end(t, kpos + 1, w);
            let e = if e0 < w && t[e0] == '!' as u8 {
                e0 + 1
            } else {
                e0
            };
            if e < w && is_delim(t[e]) {
                lemma_anchor_names_bounds(t, e + 1, w);
                let cs = anchor_names(t, j, w);
                let rest = anchor_names(t, e + 1, w);
                let app = seq![Synth { name: t.subrange(kpos, e), pos: kpos }];
                assert(cs == app + rest);
                assert forall|k: int| 0 <= k < cs.len() implies (#[trigger] cs[k]).name.len()
                    <= t.len() by {
                    if k == 0 {
                        assert(cs[0] == app[0]);
                    } else {
                        assert(cs[k] == rest[k - 1]);
                    }
                }
            } else {
                lemma_anchor_names_bounds(t, j + 1, w);
                assert(anchor_names(t, j, w) == anchor_names(t, j + 1, w));
                assert forall|k: int|
                    0 <= k < anchor_names(t, j, w).len() implies (#[trigger] anchor_names(
                    t,
                    j,
                    w,
                )[k]).name.len() <= t.len() by {
                    assert(anchor_names(t, j, w)[k] == anchor_names(t, j + 1, w)[k]);
                }
            }
        } else {
            lemma_anchor_names_bounds(t, j + 1, w);
            assert(anchor_names(t, j, w) == anchor_names(t, j + 1, w));
            assert forall|k: int|
                0 <= k < anchor_names(t, j, w).len() implies (#[trigger] anchor_names(
                t,
                j,
                w,
            )[k]).name.len() <= t.len() by {
                assert(anchor_names(t, j, w)[k] == anchor_names(t, j + 1, w)[k]);
            }
        }
    }
}

/// Every shorthand-pass name is no longer than the text.
pub proof fn lemma_shorthand_list_bounds(t: Seq<u8>, ans: Seq<int>, i: int)
    requires
        forall|m: int| 0 <= m < ans.len() ==> 0 <= #[trigger] ans[m] && ans[m] <= t.len(),
    ensures
        forall|k: int|
            0 <= k < shorthand_list(t, ans, i).len() ==> (#[trigger] shorthand_list(
                t,
                ans,
                i,
            )[k]).name.len() <= t.len(),
    decreases ans.len() - i,
{
    if 0 <= i < ans.len() {
        lemma_shorthand_list_bounds(t, ans, i + 1);
        lemma_anchor_names_bounds(t, ans[i], window_end(t, ans[i]));
        let cs = shorthand_list(t, ans, i);
        let head = anchor_names(t, ans[i], window_end(t, ans[i]));
        let rest = shorthand_list(t, ans, i + 1);
        assert(cs == head + rest);
        assert forall|k: int| 0 <= k < cs.len() implies (#[trigger] cs[k]).name.len()
            <= t.len() by {
            if k < head.len() {
                assert(cs[k] == head[k]);
            } else {
                assert(cs[k] == rest[k - head.len()]);
            }
        }
    }
}


} // verus!
