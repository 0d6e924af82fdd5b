//! Ranked top-N selection of search candidates.
//!
//! Candidates are ordered by score descending, then shorter name, then
//! earlier discovery. The selector keeps a bounded buffer of at most N
//! candidates, discarding the current worst on overflow; its result is
//! proved equal to sorting every candidate and truncating to N.
use vstd::prelude::*;

verus! {

/// One scored candidate: its score, its name's length, and its
/// discovery index in the candidate stream.
#[derive(Clone, Copy, PartialEq, Eq, Structural, Debug)]
pub struct Cand {
    pub score: i64,
    pub len: usize,
    pub idx: usize,
}

/// Strict ranking: higher score first, then shorter name, then earlier
/// discovery index.
pub open spec fn cand_before(a: Cand, b: Cand) -> bool {
    ||| a.score > b.score
    ||| (a.score == b.score && a.len < b.len)
    ||| (a.score == b.score && a.len == b.len && a.idx < b.idx)
}

/// Ranking is total: two candidates that rank neither way are equal.
pub proof fn lemma_cand_total(a: Cand, b: Cand)
    ensures
        !cand_before(a, b) && !cand_before(b, a) ==> a == b,
        !(cand_before(a, b) && cand_before(b, a)),
{
}

pub fn cand_before_exec(a: &Cand, b: &Cand) -> (r: bool)
    ensures
        r == cand_before(*a, *b),
{
    a.score > b.score || (a.score == b.score && a.len < b.len) || (a.score == b.score && a.len
        == b.len && a.idx < b.idx)
}

/// Best first: no later element ranks above an earlier one.
pub open spec fn sorted_desc(s: Seq<Cand>) -> bool {
    forall|i: int, j: int| 0 <= i < j < s.len() ==> !cand_before(s[j], s[i])
}

/// Insert `c` into a best-first sequence, before the first element it
/// outranks.
pub open spec fn insert_desc(c: Cand, s: Seq<Cand>) -> Seq<Cand>
    decreases s.len(),
{
    if s.len() == 0 {
        seq![c]
    } else if cand_before(c, s[0]) {
        seq![c] + s
    } else {
        seq![s[0]] + insert_desc(c, s.drop_first())
    }
}

/// Sort best first, inserting one element at a time.
pub open spec fn sort_desc(s: Seq<Cand>) -> Seq<Cand>
    decreases s.len(),
{
    if s.len() == 0 {
        Seq::empty()
    } else {
        insert_desc(s.last(), sort_desc(s.drop_last()))
    }
}

pub proof fn lemma_insert_desc_len(c: Cand, s: Seq<Cand>)
    ensures
        insert_desc(c, s).len() == s.len() + 1,
    decreases s.len(),
{
    if s.len() > 0 && !cand_before(c, s[0]) {
        lemma_insert_desc_len(c, s.drop_first());
    }
}

pub proof fn lemma_sort_desc_len(s: Seq<Cand>)
    ensures
        sort_desc(s).len() == s.len(),
    decreases s.len(),
{
    if s.len() > 0 {
        lemma_sort_desc_len(s.drop_last());
        lemma_insert_desc_len(s.last(), sort_desc(s.drop_last()));
    }
}

pub proof fn lemma_insert_desc_contains(c: Cand, s: Seq<Cand>, x: Cand)
    ensures
        insert_desc(c, s).contains(x) <==> (x == c || s.contains(x)),
    decreases s.len(),
{
    lemma_insert_desc_len(c, s);
    if s.len() == 0 {
        assert(insert_desc(c, s)[0] == c);
    } else if cand_before(c, s[0]) {
        let r = seq![c] + s;
        assert(r[0] == c);
        assert forall|i: int| 0 <= i < s.len() implies r[i + 1] == s[i] by {}
        if r.contains(x) {
            let i = choose|i: int| 0 <= i < r.len() && r[i] == x;
            if i > 0 {
                assert(s[i - 1] == x);
            }
        }
        if s.contains(x) {
            let i = choose|i: int| 0 <= i < s.len() && s[i] == x;
            assert(r[i + 1] == x);
        }
    } else {
        lemma_insert_desc_contains(c, s.drop_first(), x);
        let rest = insert_desc(c, s.drop_first());
        let r = seq![s[0]] + rest;
        assert(r[0] == s[0]);
        if r.contains(x) {
            let i = choose|i: int| 0 <= i < r.len() && r[i] == x;
            if i > 0 {
                assert(rest[i - 1] == x);
                if x != c {
                    assert(s.drop_first().contains(x));
                    let j = choose|j: int| 0 <= j < s.drop_first().len() && s.drop_first()[j] == x;
                    assert(s[j + 1] == x);
                }
            }
        }
        if x == c || s.contains(x) {
            if x == c {
                assert(rest.contains(x));
                let i = choose|i: int| 0 <= i < rest.len() && rest[i] == x;
                assert(r[i + 1] == x);
            } else {
                let i = choose|i: int| 0 <= i < s.len() && s[i] == x;
                if i == 0 {
                    assert(r[0] == x);
                } else {
                    assert(s.drop_first()[i - 1] == x);
                    assert(rest.contains(x));
                    let j = choose|j: int| 0 <= j < rest.len() && rest[j] == x;
                    assert(r[j + 1] == x);
                }
            }
        }
    }
}

pub proof fn lemma_sort_desc_contains(s: Seq<Cand>, x: Cand)
    ensures
        sort_desc(s).contains(x) <==> s.contains(x),
    decreases s.len(),
{
    if s.len() > 0 {
        lemma_sort_desc_contains(s.drop_last(), x);
        lemma_insert_desc_contains(s.last(), sort_desc(s.drop_last()), x);
        if s.contains(x) {
            let i = choose|i: int| 0 <= i < s.len() && s[i] == x;
            if i < s.len() - 1 {
                assert(s.drop_last()[i] == x);
            }
        }
        if s.drop_last().contains(x) {
            let i = choose|i: int| 0 <= i < s.drop_last().len() && s.drop_last()[i] == x;
            assert(s[i] == x);
        }
    }
}

pub proof fn lemma_insert_desc_sorted(c: Cand, s: Seq<Cand>)
    requires
        sorted_desc(s),
    ensures
        sorted_desc(insert_desc(c, s)),
    decreases s.len(),
{
    lemma_insert_desc_len(c, s);
    if s.len() == 0 {
    } else if cand_before(c, s[0]) {
        let r = seq![c] + s;
        assert forall|i: int, j: int| 0 <= i < j < r.len() implies !cand_before(r[j], r[i]) by {
            if i == 0 {
                assert(r[0] == c);
                assert(r[j] == s[j - 1]);
                if cand_before(s[j - 1], c) {
                    if j > 1 {
                        assert(!cand_before(s[j - 1], s[0]));
                        lemma_cand_total(s[j - 1], s[0]);
                        lemma_cand_total(s[j - 1], c);
                    }
                }
            } else {
                assert(r[i] == s[i - 1] && r[j] == s[j - 1]);
            }
        }
    } else {
        lemma_insert_desc_sorted(c, s.drop_first());
        let rest = insert_desc(c, s.drop_first());
        let r = seq![s[0]] + rest;
        lemma_insert_desc_contains(c, s.drop_first(), s[0]);
        assert forall|i: int, j: int| 0 <= i < j < r.len() implies !cand_before(r[j], r[i]) by {
            if i == 0 {
                assert(r[j] == rest[j - 1]);
                lemma_insert_desc_contains(c, s.drop_first(), rest[j - 1]);
                if rest[j - 1] == c {
                    lemma_cand_total(c, s[0]);
                } else {
                    assert(s.drop_first().contains(rest[j - 1]));
                    let k = choose|k: int|
                        0 <= k < s.drop_first().len() && s.drop_first()[k] == rest[j - 1];
                    assert(s[k + 1] == rest[j - 1]);
                }
            } else {
                assert(r[i] == rest[i - 1] && r[j] == rest[j - 1]);
            }
        }
    }
}

pub proof fn lemma_sort_desc_sorted(s: Seq<Cand>)
    ensures
        sorted_desc(sort_desc(s)),
    decreases s.len(),
{
    if s.len() > 0 {
        lemma_sort_desc_sorted(s.drop_last());
        lemma_insert_desc_sorted(s.last(), sort_desc(s.drop_last()));
    }
}

/// Where the greedy scan from the front puts `c`: splitting `s` at the
/// first element `c` outranks reproduces `insert_desc`.
pub proof fn lemma_insert_desc_split(c: Cand, s: Seq<Cand>, p: int)
    requires
        0 <= p <= s.len(),
        forall|j: int| 0 <= j < p ==> !cand_before(c, s[j]),
        p < s.len() ==> cand_before(c, s[p]),
    ensures
        insert_desc(c, s) == s.take(p) + seq![c] + s.skip(p),
    decreases s.len(),
{
    if s.len() == 0 {
        assert(insert_desc(c, s) =~= s.take(0) + seq![c] + s.skip(0));
    } else if cand_before(c, s[0]) {
        assert(p == 0);
        assert(seq![c] + s =~= s.take(0) + seq![c] + s.skip(0));
    } else {
        assert(p >= 1);
        assert forall|j: int| 0 <= j < p - 1 implies !cand_before(c, s.drop_first()[j]) by {
            assert(s.drop_first()[j] == s[j + 1]);
        }
        if p - 1 < s.drop_first().len() {
            assert(s.drop_first()[p - 1] == s[p]);
        }
        lemma_insert_desc_split(c, s.drop_first(), p - 1);
        assert(seq![s[0]] + (s.drop_first().take(p - 1) + seq![c] + s.drop_first().skip(p - 1))
            =~= s.take(p) + seq![c] + s.skip(p));
    }
}

/// Truncating before or after inserting agrees, so a bounded buffer can
/// stand in for a full sort.
pub proof fn lemma_insert_take(c: Cand, s: Seq<Cand>, k: int)
    requires
        sorted_desc(s),
        0 <= k,
    ensures
        insert_desc(c, s.take(if k <= s.len() {
            k
        } else {
            s.len() as int
        })).take(k) == insert_desc(c, s).take(k),
    decreases s.len(),
{
    let kk: int = if k <= s.len() {
        k
    } else {
        s.len() as int
    };
    let st = s.take(kk);
    lemma_insert_desc_len(c, s);
    lemma_insert_desc_len(c, st);
    if kk == s.len() {
        assert(st =~= s);
        assert(insert_desc(c, st).take(k) =~= insert_desc(c, s).take(k));
    } else {
        // kk == k < s.len()
        if s.len() == 0 {
        } else if cand_before(c, s[0]) {
            if k == 0 {
                assert(insert_desc(c, st).take(0) =~= insert_desc(c, s).take(0));
            } else {
                assert(st[0] == s[0]);
                assert((seq![c] + st).take(k) =~= (seq![c] + s).take(k));
            }
        } else {
            if k == 0 {
                assert(insert_desc(c, st).take(0) =~= insert_desc(c, s).take(0));
            } else {
                assert(st[0] == s[0]);
                assert(st.drop_first() =~= s.drop_first().take(k - 1));
                assert forall|i: int, j: int|
                    0 <= i < j < s.drop_first().len() implies !cand_before(
                    s.drop_first()[j],
                    s.drop_first()[i],
                ) by {
                    assert(s.drop_first()[j] == s[j + 1] && s.drop_first()[i] == s[i + 1]);
                }
                lemma_insert_take(c, s.drop_first(), k - 1);
                lemma_insert_desc_len(c, s.drop_first());
                lemma_insert_desc_len(c, s.drop_first().take(k - 1));
                assert((seq![st[0]] + insert_desc(c, st.drop_first())).take(k) =~= seq![s[0]]
                    + insert_desc(c, s.drop_first().take(k - 1)).take(k - 1));
                assert((seq![s[0]] + insert_desc(c, s.drop_first())).take(k) =~= seq![s[0]]
                    + insert_desc(c, s.drop_first()).take(k - 1));
            }
        }
    }
}

/// Select the best `limit` candidates: kept sorted best first, the
/// result equals sorting all candidates and truncating.
pub fn top_select(cands: &Vec<Cand>, limit: usize) -> (r: Vec<Cand>)
    ensures
        r@ == sort_desc(cands@).take(if limit <= cands@.len() {
            limit as int
        } else {
            cands@.len() as int
        }),
        sorted_desc(r@),
{
    let ghost all = cands@;
    let mut buf: Vec<Cand> = Vec::new();
    let mut i: usize = 0;
    proof {
        lemma_sort_desc_len(all.take(0));
        assert(all.take(0) =~= Seq::<Cand>::empty());
        assert(buf@ =~= sort_desc(all.take(0)).take(0));
    }
    while i < cands.len()
        invariant
            i <= all.len(),
            all == cands@,
            buf@ == sort_desc(all.take(i as int)).take(if limit <= i {
                limit as int
            } else {
                i as int
            }),
            buf@.len() == if limit <= i {
                limit as int
            } else {
                i as int
            },
            sorted_desc(buf@),
        decreases all.len() - i,
    {
        let c = cands[i];
        proof {
            lemma_sort_desc_len(all.take(i as int));
            lemma_sort_desc_sorted(all.take(i as int));
        }
        // find the insertion point in the buffer
        let mut p: usize = 0;
        while p < buf.len() && !cand_before_exec(&c, &buf[p])
            invariant
                0 <= p <= buf@.len(),
                forall|j: int| 0 <= j < p ==> !cand_before(c, buf@[j]),
                sorted_desc(buf@),
            decreases buf@.len() - p,
        {
            p += 1;
        }
        proof {
            lemma_insert_desc_split(c, buf@, p as int);
        }
        let ghost buf_before = buf@;
        buf.insert(p, c);
        proof {
            assert(buf@ =~= buf_before.take(p as int) + seq![c] + buf_before.skip(p as int));
            assert(buf@ == insert_desc(c, buf_before));
            lemma_insert_desc_sorted(c, buf_before);
            lemma_insert_desc_len(c, buf_before);
        }
        if buf.len() > limit {
            let ghost before_pop = buf@;
            let _ = buf.pop();
            proof {
                assert(buf@ =~= before_pop.take(before_pop.len() - 1));
            }
        }
        proof {
            let si = sort_desc(all.take(i as int));
            let klim: int = if limit <= i {
                limit as int
            } else {
                i as int
            };
            // buffer before this step was sort_desc(prefix).take(klim)
            assert(buf_before == si.take(klim));
            lemma_insert_take(c, si, klim);
            // inserting the new candidate extends the sorted prefix
            assert(all.take(i + 1 as int).drop_last() =~= all.take(i as int));
            assert(all.take(i + 1 as int).last() == c);
            assert(sort_desc(all.take(i + 1 as int)) == insert_desc(c, si));
            lemma_sort_desc_len(all.take(i + 1 as int));
            lemma_insert_desc_len(c, si);
            let knext: int = if limit <= i + 1 {
                limit as int
            } else {
                i + 1 as int
            };
            if klim == si.len() {
                // buffer held the whole sorted prefix
                assert(si.take(klim) =~= si);
                assert(insert_desc(c, si.take(klim)) == insert_desc(c, si));
                if insert_desc(c, si).len() <= limit {
                    assert(buf@ =~= insert_desc(c, si).take(knext));
                } else {
                    assert(buf@ =~= insert_desc(c, si).take(knext));
                }
            } else {
                assert(klim == limit as int);
                assert(knext == limit as int);
                assert(insert_desc(c, si.take(klim)).take(klim) == insert_desc(c, si).take(klim));
                assert(buf@ =~= insert_desc(c, buf_before).take(knext));
                assert(insert_desc(c, si.take(klim)).take(knext) == insert_desc(c, si).take(
                    knext,
                ));
            }
            assert(buf@ == sort_desc(all.take(i + 1 as int)).take(knext));
        }
        i += 1;
    }
    proof {
        assert(all.take(all.len() as int) =~= all);
    }
    buf
}

} // verus!
