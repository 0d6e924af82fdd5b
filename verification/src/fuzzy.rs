//! Greedy fuzzy scoring of a symbol name against a lowercased query.
//!
//! A name qualifies exactly when the lowercased query is a subsequence of
//! the lowercased name. The score rewards boundary, camel-case,
//! contiguity and early-position matches, and charges a capped penalty
//! for gaps.
use vstd::prelude::*;

verus! {

/// Whether the lowercased query `q` occurs inside `n` in order, not
/// necessarily contiguously.
pub open spec fn is_subseq(q: Seq<u8>, n: Seq<u8>) -> bool
    decreases n.len(),
{
    if q.len() == 0 {
        true
    } else if n.len() == 0 {
        false
    } else {
        (q[0] == n[0] && is_subseq(q.drop_first(), n.drop_first())) || is_subseq(
            q,
            n.drop_first(),
        )
    }
}

/// Dropping a matched head keeps the rest a subsequence.
pub proof fn lemma_subseq_drop_first(q: Seq<u8>, n: Seq<u8>)
    requires
        is_subseq(q, n),
        q.len() > 0,
    ensures
        is_subseq(q.drop_first(), n),
    decreases n.len(),
{
    if n.len() > 0 {
        if q[0] == n[0] && is_subseq(q.drop_first(), n.drop_first()) {
        } else {
            lemma_subseq_drop_first(q, n.drop_first());
        }
    }
}


/// Every sequence is a subsequence of itself.
pub proof fn lemma_subseq_refl(s: Seq<u8>)
    ensures
        is_subseq(s, s),
    decreases s.len(),
{
    if s.len() > 0 {
        lemma_subseq_refl(s.drop_first());
    }
}

/// The boundary characters that earn a bonus when they precede a match.
pub open spec fn spec_is_boundary(b: u8) -> bool {
    ||| b == ' ' as u8
    ||| b == '_' as u8
    ||| b == '-' as u8
    ||| b == '/' as u8
    ||| b == '.' as u8
    ||| b == '(' as u8
    ||| b == ')' as u8
    ||| b == '[' as u8
    ||| b == ']' as u8
}

/// Whether `b` is a separator that marks a word boundary.
pub fn is_boundary(b: u8) -> (r: bool)
    ensures
        r == spec_is_boundary(b),
{
    b == ' ' as u8 || b == '_' as u8 || b == '-' as u8 || b == '/' as u8 || b == '.' as u8 || b
        == '(' as u8 || b == ')' as u8 || b == '[' as u8 || b == ']' as u8
}

pub open spec fn is_upper(b: u8) -> bool {
    'A' as u8 <= b && b <= 'Z' as u8
}

pub open spec fn is_lower(b: u8) -> bool {
    'a' as u8 <= b && b <= 'z' as u8
}

/// The scorer's state after some prefix of the name: next query index,
/// position of the last match (-1 when none yet), and score so far.
pub struct ScanState {
    pub qi: int,
    pub last: int,
    pub score: int,
}

/// One scoring step at name position `i`: on a match, add the base
/// score with its bonuses and gap penalty, and advance the query.
pub open spec fn greedy_step(q: Seq<u8>, nb: Seq<u8>, nlc: Seq<u8>, i: int, st: ScanState) -> ScanState {
    if st.qi < q.len() && nlc[i] == q[st.qi] {
        let base: int = 10;
        let prev: u8 = if i == 0 {
            ' ' as u8
        } else {
            nb[i - 1]
        };
        let b1: int = if spec_is_boundary(prev) {
            15
        } else {
            0
        };
        let b2: int = if i > 0 && is_upper(nb[i]) && is_lower(nb[i - 1]) {
            12
        } else {
            0
        };
        let b3: int = if st.last >= 0 {
            if i == st.last + 1 {
                8
            } else {
                let gap = i - st.last - 1;
                -2 * (if gap < 8 {
                    gap
                } else {
                    8
                })
            }
        } else {
            if i < 3 {
                5
            } else {
                0
            }
        };
        ScanState { qi: st.qi + 1, last: i, score: st.score + base + b1 + b2 + b3 }
    } else {
        st
    }
}

/// The scorer's state after the first `i` bytes of the name.
pub open spec fn greedy_run(q: Seq<u8>, nb: Seq<u8>, nlc: Seq<u8>, i: int) -> ScanState
    decreases i,
{
    if i <= 0 {
        ScanState { qi: 0, last: -1, score: 0 }
    } else {
        greedy_step(q, nb, nlc, i - 1, greedy_run(q, nb, nlc, i - 1))
    }
}

/// The score of `name` against lowercased query `q`: the greedy
/// alignment's score when every query byte was matched, nothing
/// otherwise. The empty query scores zero.
pub open spec fn spec_fuzzy_score(q: Seq<u8>, nb: Seq<u8>, nlc: Seq<u8>) -> Option<int> {
    let st = greedy_run(q, nb, nlc, nlc.len() as int);
    if st.qi == q.len() {
        Some(st.score)
    } else {
        None
    }
}

/// Bounds carried by every reachable scanner state.
pub proof fn lemma_greedy_run_bounds(q: Seq<u8>, nb: Seq<u8>, nlc: Seq<u8>, i: int)
    requires
        0 <= i <= nlc.len(),
    ensures
        0 <= greedy_run(q, nb, nlc, i).qi <= q.len(),
        -1 <= greedy_run(q, nb, nlc, i).last < i,
        -16 * greedy_run(q, nb, nlc, i).qi <= greedy_run(q, nb, nlc, i).score <= 50 * greedy_run(
            q,
            nb,
            nlc,
            i,
        ).qi,
    decreases i,
{
    if i > 0 {
        lemma_greedy_run_bounds(q, nb, nlc, i - 1);
    }
}

/// How many query bytes the greedy scan has matched after `i` bytes of
/// the name; the scan state's query index equals this count.
pub open spec fn match_count(q: Seq<u8>, n: Seq<u8>, i: int) -> int
    decreases i,
{
    if i <= 0 {
        0
    } else {
        let prev = match_count(q, n, i - 1);
        if prev < q.len() && n[i - 1] == q[prev] {
            prev + 1
        } else {
            prev
        }
    }
}

pub proof fn lemma_greedy_run_qi(q: Seq<u8>, nb: Seq<u8>, nlc: Seq<u8>, i: int)
    ensures
        greedy_run(q, nb, nlc, i).qi == match_count(q, nlc, i),
    decreases i,
{
    if i > 0 {
        lemma_greedy_run_qi(q, nb, nlc, i - 1);
    }
}

pub proof fn lemma_match_count_le(q: Seq<u8>, n: Seq<u8>, i: int)
    ensures
        0 <= match_count(q, n, i) <= q.len(),
    decreases i,
{
    if i > 0 {
        lemma_match_count_le(q, n, i - 1);
    }
}

/// Prepending one name byte to the scan: a matching head advances the
/// query by one, any other head leaves it alone.
pub proof fn lemma_match_count_shift(q: Seq<u8>, h: u8, t: Seq<u8>, i: int)
    requires
        0 <= i <= t.len(),
    ensures
        q.len() > 0 && h == q[0] ==> match_count(q, seq![h] + t, i + 1) == 1 + match_count(
            q.drop_first(),
            t,
            i,
        ),
        !(q.len() > 0 && h == q[0]) ==> match_count(q, seq![h] + t, i + 1) == match_count(q, t, i),
    decreases i,
{
    let n = seq![h] + t;
    assert(n[0] == h);
    if i == 0 {
        assert(match_count(q, n, 0) == 0);
        assert(match_count(q, n, 1) == if 0 < q.len() && n[0] == q[0] {
            1int
        } else {
            0int
        });
    } else {
        lemma_match_count_shift(q, h, t, i - 1);
        assert(n[i] == t[i - 1]);
        if q.len() > 0 && h == q[0] {
            let prev = match_count(q.drop_first(), t, i - 1);
            lemma_match_count_le(q.drop_first(), t, i - 1);
            assert(q.drop_first().len() == q.len() - 1);
            if prev < q.drop_first().len() {
                assert(q[1 + prev] == q.drop_first()[prev]);
            }
        }
    }
}

/// The greedy scan matches the whole query exactly when the query is a
/// subsequence of the name.
pub proof fn lemma_greedy_complete(q: Seq<u8>, n: Seq<u8>)
    ensures
        (match_count(q, n, n.len() as int) == q.len()) <==> is_subseq(q, n),
    decreases n.len(),
{
    lemma_match_count_le(q, n, n.len() as int);
    if q.len() == 0 {
    } else if n.len() == 0 {
    } else {
        let h = n[0];
        let t = n.drop_first();
        assert(n =~= seq![h] + t);
        lemma_match_count_shift(q, h, t, t.len() as int);
        if h == q[0] {
            lemma_greedy_complete(q.drop_first(), t);
            lemma_match_count_le(q.drop_first(), t, t.len() as int);
            if is_subseq(q, n) {
                if !(q[0] == n[0] && is_subseq(q.drop_first(), t)) {
                    lemma_subseq_drop_first(q, t);
                }
            }
        } else {
            lemma_greedy_complete(q, t);
            if is_subseq(q, n) {
                assert(is_subseq(q, t));
            }
        }
    }
}

/// A name qualifies for the result list exactly when the lowercased
/// query is a subsequence of its lowercased form.
pub proof fn lemma_score_iff_subseq(q: Seq<u8>, nb: Seq<u8>, nlc: Seq<u8>)
    ensures
        spec_fuzzy_score(q, nb, nlc) is Some <==> is_subseq(q, nlc),
{
    lemma_greedy_run_qi(q, nb, nlc, nlc.len() as int);
    lemma_greedy_complete(q, nlc);
}

/// Score `name` against the lowercased query `q_lc`, greedily matching
/// each query byte at its earliest eligible position. Returns the score
/// when the whole query matches, nothing otherwise. Name and query are
/// bounded so every score fits 64-bit arithmetic.
pub fn fuzzy_score(q_lc: &Vec<u8>, name: &Vec<u8>, name_lc: &Vec<u8>) -> (r: Option<i64>)
    requires
        name@.len() == name_lc@.len(),
        name@.len() < 0x1_0000_0000,
        q_lc@.len() < 0x1000_0000,
    ensures
        r == match spec_fuzzy_score(q_lc@, name@, name_lc@) {
            Some(s) => Some(s as i64),
            None => None::<i64>,
        },
        r is Some <==> is_subseq(q_lc@, name_lc@),
{
    proof {
        lemma_score_iff_subseq(q_lc@, name@, name_lc@);
    }
    let ghost q = q_lc@;
    let ghost nb = name@;
    let ghost nlc = name_lc@;
    let mut qi: usize = 0;
    let mut score: i64 = 0;
    let mut last: i64 = -1;
    let mut i: usize = 0;
    while i < name_lc.len()
        invariant
            q == q_lc@,
            nb == name@,
            nlc == name_lc@,
            i <= nlc.len(),
            nb.len() == nlc.len(),
            nb.len() < 0x1_0000_0000,
            q.len() < 0x1000_0000,
            qi == greedy_run(q, nb, nlc, i as int).qi,
            last == greedy_run(q, nb, nlc, i as int).last,
            score == greedy_run(q, nb, nlc, i as int).score,
            qi <= q.len(),
            -1 <= last < i as int,
            -16 * qi <= score <= 50 * qi,
        decreases nlc.len() - i,
    {
        proof {
            lemma_greedy_run_bounds(q, nb, nlc, i + 1 as int);
        }
        if qi < q_lc.len() && name_lc[i] == q_lc[qi] {
            let mut s: i64 = 10;
            let prev: u8 = if i == 0 {
                ' ' as u8
            } else {
                name[i - 1]
            };
            if is_boundary(prev) {
                s = s + 15;
            }
            if i > 0 && 'A' as u8 <= name[i] && name[i] <= 'Z' as u8 && 'a' as u8 <= name[i - 1]
                && name[i - 1] <= 'z' as u8 {
                s = s + 12;
            }
            if last >= 0 {
                if i as i64 == last + 1 {
                    s = s + 8;
                } else {
                    let gap: i64 = i as i64 - last - 1;
                    let capped: i64 = if gap < 8 {
                        gap
                    } else {
                        8
                    };
                    s = s - 2 * capped;
                }
            } else {
                if i < 3 {
                    s = s + 5;
                }
            }
            score = score + s;
            last = i as i64;
            qi = qi + 1;
        }
        i += 1;
    }
    if qi == q_lc.len() {
        Some(score)
    } else {
        None
    }
}

} // verus!
