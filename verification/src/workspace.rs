//! Workspace indexing decisions: reading dependency names from the
//! project manifest, turning them into candidate dependency roots, the
//! walk's file filter, and the scope rule for short queries.
use vstd::prelude::*;

use crate::symbols::match_at;
use crate::symbols::match_at_exec;
use crate::symbols::slice_bytes;
use crate::symbols::sp_end;
use crate::symbols::sp_end_exec;
use crate::text::bytes_eq;
use crate::text::copy_bytes;
use crate::text::line_starts;
use crate::text::lit_vec;

verus! {

/// A TOML bare-key character.
pub open spec fn is_key_char(b: u8) -> bool {
    ||| ('A' as u8 <= b && b <= 'Z' as u8)
    ||| ('a' as u8 <= b && b <= 'z' as u8)
    ||| ('0' as u8 <= b && b <= '9' as u8)
    ||| b == '_' as u8
    ||| b == '-' as u8
}

/// End of a bare key starting at `i`, stopping at `b`.
pub open spec fn key_end(t: Seq<u8>, i: int, b: int) -> int
    decreases b - i,
{
    if 0 <= i < b && i < t.len() && is_key_char(t[i]) {
        key_end(t, i + 1, b)
    } else {
        i
    }
}


fn key_end_exec(t: &Vec<u8>, i: usize, b: usize) -> (r: usize)
    requires
        i <= b <= t@.len(),
    ensures
        r == key_end(t@, i as int, b as int),
        i <= r <= b,
{
    let mut j = i;
    while j < b && (('A' as u8 <= t[j] && t[j] <= 'Z' as u8) || ('a' as u8 <= t[j] && t[j]
        <= 'z' as u8) || ('0' as u8 <= t[j] && t[j] <= '9' as u8) || t[j] == '_' as u8 || t[j]
        == '-' as u8)
        invariant
            i <= j <= b,
            b <= t@.len(),
            key_end(t@, i as int, b as int) == key_end(t@, j as int, b as int),
        decreases b - j,
    {
        j += 1;
    }
    j
}

/// The section header that opens the dependency table.
pub open spec fn kw_deps_header() -> Seq<u8> {
    "[deps]"@.map_values(|c: char| c as u8)
}

/// One manifest line, on the scanner state: a header line selects or
/// deselects the dependency table; inside it, a `key = value` line
/// with a non-blank value declares one dependency, recorded once at
/// its first occurrence. A key with nothing after its `=` declares
/// nothing, as a strict manifest parser would reject such a line.
pub open spec fn dep_step(
    st: (bool, Seq<Seq<u8>>),
    t: Seq<u8>,
    a: int,
    b: int,
) -> (bool, Seq<Seq<u8>>) {
    let ta0 = sp_end(t, a);
    let ta = if ta0 <= b {
        ta0
    } else {
        b
    };
    if ta < b && t[ta] == '[' as u8 {
        (ta + 6 <= b && match_at(t, ta, kw_deps_header()) && sp_end(t, ta + 6) >= b, st.1)
    } else if st.0 {
        let ke = key_end(t, ta, b);
        let eq = sp_end(t, ke);
        if ke > ta && eq < b && t[eq] == '=' as u8 && sp_end(t, eq + 1) < b {
            let name = t.subrange(ta, ke);
            if st.1.contains(name) {
                st
            } else {
                (st.0, st.1.push(name))
            }
        } else {
            st
        }
    } else {
        st
    }
}

/// The line's end: one before the next line's start, or the text's end
/// for the last line.
pub open spec fn line_end(t: Seq<u8>, ls: Seq<usize>, i: int) -> int {
    if i + 1 < ls.len() {
        ls[i + 1] - 1
    } else {
        t.len() as int
    }
}

/// The scanner's state after the first `i` manifest lines.
pub open spec fn dep_state(t: Seq<u8>, ls: Seq<usize>, i: int) -> (bool, Seq<Seq<u8>>)
    decreases i,
{
    if i <= 0 {
        (false, Seq::empty())
    } else {
        dep_step(dep_state(t, ls, i - 1), t, ls[i - 1] as int, line_end(t, ls, i - 1))
    }
}

/// The dependency names a manifest declares, in first-occurrence
/// order; an absent or malformed table yields none.
pub open spec fn spec_manifest_deps(t: Seq<u8>) -> Seq<Seq<u8>> {
    dep_state(t, line_starts(t, t.len() as int), line_starts(t, t.len() as int).len() as int).1
}

/// Read the dependency names out of a manifest: the keys of its
/// dependency table.
pub fn manifest_dep_names(text: &Vec<u8>) -> (r: Vec<Vec<u8>>)
    requires
        text@.len() < 0x1_0000_0000,
    ensures
        r@.len() == spec_manifest_deps(text@).len(),
        forall|k: int|
            0 <= k < r@.len() ==> (#[trigger] r@[k])@ == spec_manifest_deps(text@)[k],
{
    let li = crate::text::LineIndex::new(text);
    let ghost ls = li.starts@;
    proof {
        reveal_strlit("[deps]");
        assert(vstd::string::is_ascii("[deps]"));
        assert("[deps]"@.len() == 6);
    }
    let hdr = lit_vec("[deps]");
    let mut names: Vec<Vec<u8>> = Vec::new();
    let mut in_deps: bool = false;
    let mut i: usize = 0;
    while i < li.starts.len()
        invariant
            i <= ls.len(),
            ls == li.starts@,
            li.wf(),
            text@.len() < 0x1_0000_0000,
            forall|m: int| 0 <= m < ls.len() ==> (#[trigger] ls[m]) <= text@.len(),
            hdr@ == kw_deps_header(),
            hdr@.len() == 6,
            in_deps == dep_state(text@, ls, i as int).0,
            names@.len() == dep_state(text@, ls, i as int).1.len(),
            forall|k: int|
                0 <= k < names@.len() ==> (#[trigger] names@[k])@ == dep_state(
                    text@,
                    ls,
                    i as int,
                ).1[k],
        decreases ls.len() - i,
    {
        let a = li.starts[i];
        let b: usize = if i + 1 < li.starts.len() {
            li.starts[i + 1] - 1
        } else {
            text.len()
        };
        proof {
            if i + 1 < ls.len() {
                assert(ls[i as int] < ls[i + 1 as int]);
            }
            assert(a <= b <= text@.len());
            assert(b as int == line_end(text@, ls, i as int));
        }
        let ghost stpre = dep_state(text@, ls, i as int);
        let ghost stpost = dep_step(stpre, text@, a as int, b as int);
        let ta0 = sp_end_exec(text, a);
        let ta: usize = if ta0 <= b {
            ta0
        } else {
            b
        };
        if ta < b && text[ta] == '[' as u8 {
            let is_deps = b - ta >= 6 && match_at_exec(text, ta, &hdr) && {
                let se = sp_end_exec(text, ta + 6);
                se >= b
            };
            in_deps = is_deps;
            proof {
                assert(in_deps == stpost.0);
                assert(stpost.1 == stpre.1);
            }
        } else if in_deps {
            let ke = key_end_exec(text, ta, b);
            let eq = sp_end_exec(text, ke);
            if ke > ta && eq < b && text[eq] == '=' as u8 && sp_end_exec(text, eq + 1) < b {
                let name = slice_bytes(text, ta, ke);
                // record the first occurrence only
                let mut seen = false;
                let mut m: usize = 0;
                while m < names.len()
                    invariant
                        m <= names@.len(),
                        names@.len() == stpre.1.len(),
                        forall|k: int|
                            0 <= k < names@.len() ==> (#[trigger] names@[k])@ == stpre.1[k],
                        !seen ==> forall|k: int| 0 <= k < m ==> (#[trigger] names@[k])@ != name@,
                        seen ==> stpre.1.contains(name@),
                    decreases names@.len() - m,
                {
                    if bytes_eq(&names[m], &name) {
                        proof {
                            assert(stpre.1[m as int] == name@);
                        }
                        seen = true;
                    }
                    m += 1;
                }
                if !seen {
                    proof {
                        assert forall|k: int| 0 <= k < stpre.1.len() implies (#[trigger] stpre.1[k])
                            != name@ by {
                            assert(names@[k]@ == stpre.1[k]);
                        }
                        assert(!stpre.1.contains(name@));
                        assert(stpost.1 == stpre.1.push(name@));
                    }
                    let ghost npre = names@;
                    names.push(name);
                    proof {
                        assert forall|k: int| 0 <= k < names@.len() implies (#[trigger] names@[k])@
                            == stpost.1[k] by {
                            if k < npre.len() {
                                assert(names@[k] == npre[k]);
                                assert(stpost.1[k] == stpre.1[k]);
                            } else {
                                assert(names@[k] == name);
                            }
                        }
                    }
                } else {
                    proof {
                        assert(stpost == stpre);
                    }
                }
            } else {
                proof {
                    assert(stpost == stpre);
                }
            }
        } else {
            proof {
                assert(stpost == stpre);
            }
        }
        i += 1;
    }
    proof {
        assert(ls.len() == line_starts(text@, text@.len() as int).len());
    }
    names
}

/// The layout subdirectories probed under a dependency-storage root.
pub open spec fn kw_packages_seg() -> Seq<u8> {
    "/packages/"@.map_values(|c: char| c as u8)
}

pub open spec fn kw_dev_seg() -> Seq<u8> {
    "/dev/"@.map_values(|c: char| c as u8)
}

/// The candidate roots one depot contributes for one dependency: its
/// published-package-cache entry and its development-checkout entry.
pub open spec fn roots_for(depot: Seq<u8>, name: Seq<u8>) -> Seq<Seq<u8>> {
    seq![depot + kw_packages_seg() + name, depot + kw_dev_seg() + name]
}

/// All candidate roots, depot by depot, dependency by dependency.
pub open spec fn spec_dep_roots(depots: Seq<Seq<u8>>, deps: Seq<Seq<u8>>, i: int, j: int) -> Seq<
    Seq<u8>,
>
    decreases depots.len() - i, deps.len() - j,
{
    if i < 0 || j < 0 || i >= depots.len() {
        Seq::empty()
    } else if j >= deps.len() {
        spec_dep_roots(depots, deps, i + 1, 0)
    } else {
        roots_for(depots[i], deps[j]) + spec_dep_roots(depots, deps, i, j + 1)
    }
}

/// Concatenate two byte strings.
pub fn cat_bytes(a: &Vec<u8>, b: &Vec<u8>) -> (r: Vec<u8>)
    ensures
        r@ == a@ + b@,
{
    let mut r = copy_bytes(a);
    let mut i: usize = 0;
    while i < b.len()
        invariant
            i <= b@.len(),
            r@ == a@ + b@.take(i as int),
        decreases b@.len() - i,
    {
        r.push(b[i]);
        proof {
            assert(r@ =~= a@ + b@.take(i + 1 as int));
        }
        i += 1;
    }
    proof {
        assert(r@ =~= a@ + b@);
    }
    r
}

/// Expand the candidate dependency roots: for each storage directory
/// and declared name, the published-package-cache path and the
/// development-checkout path. Existence is the caller's concern.
pub fn dep_roots(depots: &Vec<Vec<u8>>, deps: &Vec<Vec<u8>>) -> (r: Vec<Vec<u8>>)
    ensures
        r@.len() == spec_dep_roots(depots@.map_values(|v: Vec<u8>| v@), deps@.map_values(|v: Vec<u8>| v@), 0, 0).len(),
        forall|k: int|
            0 <= k < r@.len() ==> (#[trigger] r@[k])@ == spec_dep_roots(
                depots@.map_values(|v: Vec<u8>| v@),
                deps@.map_values(|v: Vec<u8>| v@),
                0,
                0,
            )[k],
{
    let ghost dview = depots@.map_values(|v: Vec<u8>| v@);
    let ghost nview = deps@.map_values(|v: Vec<u8>| v@);
    proof {
        reveal_strlit("/packages/");
        reveal_strlit("/dev/");
        assert(vstd::string::is_ascii("/packages/"));
        assert(vstd::string::is_ascii("/dev/"));
    }
    let pk = lit_vec("/packages/");
    let dv = lit_vec("/dev/");
    let mut out: Vec<Vec<u8>> = Vec::new();
    let ghost mut done: Seq<Seq<u8>> = Seq::empty();
    proof {
        assert(done + spec_dep_roots(dview, nview, 0, 0) =~= spec_dep_roots(dview, nview, 0, 0));
    }
    let mut i: usize = 0;
    while i < depots.len()
        invariant
            i <= depots@.len(),
            dview == depots@.map_values(|v: Vec<u8>| v@),
            nview == deps@.map_values(|v: Vec<u8>| v@),
            pk@ == kw_packages_seg(),
            dv@ == kw_dev_seg(),
            done + spec_dep_roots(dview, nview, i as int, 0) == spec_dep_roots(dview, nview, 0, 0),
            out@.len() == done.len(),
            forall|k: int| 0 <= k < done.len() ==> (#[trigger] out@[k])@ == done[k],
        decreases depots@.len() - i,
    {
        let mut j: usize = 0;
        while j < deps.len()
            invariant
                i < depots@.len(),
                j <= deps@.len(),
                dview == depots@.map_values(|v: Vec<u8>| v@),
                nview == deps@.map_values(|v: Vec<u8>| v@),
                pk@ == kw_packages_seg(),
                dv@ == kw_dev_seg(),
                done + spec_dep_roots(dview, nview, i as int, j as int) == spec_dep_roots(
                    dview,
                    nview,
                    0,
                    0,
                ),
                out@.len() == done.len(),
                forall|k: int| 0 <= k < done.len() ==> (#[trigger] out@[k])@ == done[k],
            decreases deps@.len() - j,
        {
            let base = cat_bytes(&depots[i], &pk);
            let p1 = cat_bytes(&base, &deps[j]);
            let base2 = cat_bytes(&depots[i], &dv);
            let p2 = cat_bytes(&base2, &deps[j]);
            out.push(p1);
            out.push(p2);
            proof {
                assert(dview[i as int] == depots@[i as int]@);
                assert(nview[j as int] == deps@[j as int]@);
                done = done + roots_for(dview[i as int], nview[j as int]);
                assert(done + spec_dep_roots(dview, nview, i as int, j + 1 as int)
                    =~= spec_dep_roots(dview, nview, 0, 0));
            }
            j += 1;
        }
        proof {
            assert(spec_dep_roots(dview, nview, i as int, deps@.len() as int) == spec_dep_roots(
                dview,
                nview,
                i + 1 as int,
                0,
            ));
        }
        i += 1;
    }
    proof {
        assert(spec_dep_roots(dview, nview, depots@.len() as int, 0)
            =~= Seq::<Seq<u8>>::empty());
        assert(done =~= spec_dep_roots(dview, nview, 0, 0));
    }
    out
}

/// Expand a leading tilde to the home directory: `~` alone, or `~/` and
/// the rest; anything else is returned unchanged.
pub open spec fn spec_expand_tilde(p: Seq<u8>, home: Seq<u8>) -> Seq<u8> {
    if p.len() == 1 && p[0] == '~' as u8 {
        home
    } else if p.len() >= 2 && p[0] == '~' as u8 && p[1] == '/' as u8 {
        home + p.skip(1)
    } else {
        p
    }
}

pub fn expand_tilde(p: &Vec<u8>, home: &Vec<u8>) -> (r: Vec<u8>)
    ensures
        r@ == spec_expand_tilde(p@, home@),
{
    if p.len() == 1 && p[0] == '~' as u8 {
        return copy_bytes(home);
    }
    if p.len() >= 2 && p[0] == '~' as u8 && p[1] == '/' as u8 {
        let mut r = copy_bytes(home);
        let mut i: usize = 1;
        while i < p.len()
            invariant
                1 <= i <= p@.len(),
                r@ == home@ + p@.subrange(1, i as int),
            decreases p@.len() - i,
        {
            r.push(p[i]);
            proof {
                assert(r@ =~= home@ + p@.subrange(1, i + 1 as int));
            }
            i += 1;
        }
        proof {
            assert(p@.subrange(1, p@.len() as int) =~= p@.skip(1));
        }
        return r;
    }
    copy_bytes(p)
}

/// Split a colon-separated list of storage directories, expanding a
/// leading tilde in each entry.
pub open spec fn spec_split_depots(s: Seq<u8>, home: Seq<u8>, i: int, cur: Seq<u8>) -> Seq<
    Seq<u8>,
>
    decreases s.len() - i,
{
    if i < 0 || i >= s.len() {
        seq![spec_expand_tilde(cur, home)]
    } else if s[i] == ':' as u8 {
        seq![spec_expand_tilde(cur, home)] + spec_split_depots(s, home, i + 1, Seq::empty())
    } else {
        spec_split_depots(s, home, i + 1, cur.push(s[i]))
    }
}

pub fn split_depots(s: &Vec<u8>, home: &Vec<u8>) -> (r: Vec<Vec<u8>>)
    ensures
        r@.len() == spec_split_depots(s@, home@, 0, Seq::empty()).len(),
        forall|k: int|
            0 <= k < r@.len() ==> (#[trigger] r@[k])@ == spec_split_depots(
                s@,
                home@,
                0,
                Seq::empty(),
            )[k],
{
    let ghost full = spec_split_depots(s@, home@, 0, Seq::empty());
    let mut out: Vec<Vec<u8>> = Vec::new();
    let ghost mut done: Seq<Seq<u8>> = Seq::empty();
    let mut cur: Vec<u8> = Vec::new();
    let mut i: usize = 0;
    proof {
        assert(done + spec_split_depots(s@, home@, 0, cur@) =~= full);
    }
    while i < s.len()
        invariant
            i <= s@.len(),
            done + spec_split_depots(s@, home@, i as int, cur@) == full,
            out@.len() == done.len(),
            forall|k: int| 0 <= k < done.len() ==> (#[trigger] out@[k])@ == done[k],
        decreases s@.len() - i,
    {
        if s[i] == ':' as u8 {
            out.push(expand_tilde(&cur, home));
            proof {
                done = done.push(spec_expand_tilde(cur@, home@));
                assert(done + spec_split_depots(s@, home@, i + 1 as int, Seq::empty()) =~= full);
            }
            cur = Vec::new();
        } else {
            let ghost cpre = cur@;
            cur.push(s[i]);
            proof {
                assert(cur@ == cpre.push(s@[i as int]));
            }
        }
        i += 1;
    }
    out.push(expand_tilde(&cur, home));
    proof {
        done = done.push(spec_expand_tilde(cur@, home@));
        assert(done =~= full);
    }
    out
}

/// Path components: the segments between separators.
pub open spec fn has_component(p: Seq<u8>, i: int, seg: Seq<u8>) -> bool
    decreases p.len() - i,
    via has_component_dec
{
    if i < 0 || i > p.len() {
        false
    } else {
        ||| (component_end(p, i) - i == seg.len() && p.subrange(i, component_end(p, i)) == seg)
        ||| (component_end(p, i) < p.len() && has_component(p, component_end(p, i) + 1, seg))
    }
}

#[via_fn]
proof fn has_component_dec(p: Seq<u8>, i: int, seg: Seq<u8>) {
    if !(i < 0 || i > p.len()) {
        lemma_component_end(p, i);
    }
}

/// The end of the component starting at `i`: the next separator, or
/// the path's end.
pub open spec fn component_end(p: Seq<u8>, i: int) -> int
    decreases p.len() - i,
{
    if 0 <= i < p.len() && p[i] != '/' as u8 {
        component_end(p, i + 1)
    } else {
        i
    }
}

pub proof fn lemma_component_end(p: Seq<u8>, i: int)
    requires
        0 <= i <= p.len(),
    ensures
        i <= component_end(p, i) <= p.len(),
        component_end(p, i) < p.len() ==> p[component_end(p, i)] == '/' as u8,
    decreases p.len() - i,
{
    if i < p.len() && p[i] != '/' as u8 {
        lemma_component_end(p, i + 1);
    }
}

fn component_end_exec(p: &Vec<u8>, i: usize) -> (r: usize)
    requires
        i <= p@.len(),
    ensures
        r == component_end(p@, i as int),
        i <= r <= p@.len(),
{
    let mut j = i;
    while j < p.len() && p[j] != '/' as u8
        invariant
            i <= j <= p@.len(),
            component_end(p@, i as int) == component_end(p@, j as int),
        decreases p@.len() - j,
    {
        j += 1;
    }
    j
}

/// Whether some slash-separated component of `p` equals `seg`.
pub fn has_component_exec(p: &Vec<u8>, seg: &Vec<u8>) -> (r: bool)
    ensures
        r == has_component(p@, 0, seg@),
{
    let mut i: usize = 0;
    loop
        invariant
            0 <= i <= p@.len(),
            has_component(p@, 0, seg@) <==> has_component(p@, i as int, seg@),
        decreases p@.len() - i + 1,
    {
        let e = component_end_exec(p, i);
        let seglen = seg.len();
        if e - i == seglen {
            let piece = slice_bytes(p, i, e);
            if bytes_eq(&piece, seg) {
                proof {
                    assert(p@.subrange(i as int, e as int) == seg@);
                    assert(has_component(p@, i as int, seg@));
                    assert(has_component(p@, 0, seg@));
                }
                return true;
            }
        }
        if e < p.len() {
            proof {
                lemma_component_end(p@, i as int);
                assert(!(component_end(p@, i as int) - i == seg@.len() && p@.subrange(
                    i as int,
                    component_end(p@, i as int),
                ) == seg@));
            }
            i = e + 1;
        } else {
            proof {
                lemma_component_end(p@, i as int);
                assert(!(component_end(p@, i as int) < p@.len()));
                assert(!has_component(p@, i as int, seg@));
                assert(!has_component(p@, 0, seg@));
            }
            return false;
        }
    }
}

/// Whether `p` ends with `suffix`.
pub open spec fn spec_ends_with(p: Seq<u8>, suffix: Seq<u8>) -> bool {
    suffix.len() <= p.len() && p.skip(p.len() - suffix.len()) == suffix
}

pub fn ends_with_bytes(p: &Vec<u8>, suffix: &Vec<u8>) -> (r: bool)
    ensures
        r == spec_ends_with(p@, suffix@),
{
    if suffix.len() > p.len() {
        return false;
    }
    let off = p.len() - suffix.len();
    let mut i: usize = 0;
    while i < suffix.len()
        invariant
            i <= suffix@.len(),
            off == p@.len() - suffix@.len(),
            p@.len() <= usize::MAX,
            forall|j: int| 0 <= j < i ==> p@[off + j] == suffix@[j],
        decreases suffix@.len() - i,
    {
        if p[off + i] != suffix[i] {
            proof {
                assert(p@.skip(off as int)[i as int] != suffix@[i as int]);
            }
            return false;
        }
        i += 1;
    }
    proof {
        assert(p@.skip(off as int) =~= suffix@);
    }
    true
}

/// Whether the walk indexes this file: it must carry the source
/// extension, and a file that looks like a published-package checkout
/// (a `packages` component) is taken only when a conventional `src`
/// component marks it browsable. Development checkouts (`dev`) carry
/// no such filter.
pub open spec fn spec_should_index(p: Seq<u8>) -> bool {
    let ext = ".jl"@.map_values(|c: char| c as u8);
    let is_published = has_component(p, 0, "packages"@.map_values(|c: char| c as u8));
    let has_src = has_component(p, 0, "src"@.map_values(|c: char| c as u8));
    spec_ends_with(p, ext) && (!is_published || has_src)
}

pub fn should_index_path(p: &Vec<u8>) -> (r: bool)
    ensures
        r == spec_should_index(p@),
{
    proof {
        reveal_strlit(".jl");
        reveal_strlit("packages");
        reveal_strlit("src");
        assert(vstd::string::is_ascii(".jl"));
        assert(vstd::string::is_ascii("packages"));
        assert(vstd::string::is_ascii("src"));
    }
    let ext = lit_vec(".jl");
    if !ends_with_bytes(p, &ext) {
        return false;
    }
    let pk = lit_vec("packages");
    if has_component_exec(p, &pk) {
        let sr = lit_vec("src");
        return has_component_exec(p, &sr);
    }
    true
}

/// The scope a workspace query searches: a short query is confined to
/// the active workspace root, a longer one searches the full index,
/// dependency roots included.
pub fn query_scope<'a>(query_len: usize, root: Option<&'a Vec<u8>>) -> (r: Option<&'a Vec<u8>>)
    ensures
        query_len <= 2 ==> r == root,
        query_len > 2 ==> r is None,
{
    if query_len <= 2 {
        root
    } else {
        None
    }
}

} // verus!
