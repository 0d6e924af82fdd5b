//! Byte-level text utilities: ASCII lowercasing, prefix tests, and the
//! line-start table that turns byte offsets into line/character positions.
use vstd::prelude::*;

use crate::types::Position;
use crate::types::TextRange;

verus! {

/// ASCII lowercasing of one byte.
pub open spec fn lower(b: u8) -> u8 {
    if 'A' as u8 <= b && b <= 'Z' as u8 {
        (b + 32) as u8
    } else {
        b
    }
}

/// A byte sequence lowercased, byte for byte.
pub open spec fn lower_seq(s: Seq<u8>) -> Seq<u8> {
    s.map_values(|b: u8| lower(b))
}

/// Lowercase a byte string, ASCII letters only.
pub fn lowercase_bytes(v: &Vec<u8>) -> (r: Vec<u8>)
    ensures
        r@ == lower_seq(v@),
{
    let mut r: Vec<u8> = Vec::new();
    let mut i: usize = 0;
    while i < v.len()
        invariant
            i <= v@.len(),
            r@ == lower_seq(v@.take(i as int)),
        decreases v@.len() - i,
    {
        let b = v[i];
        if 'A' as u8 <= b && b <= 'Z' as u8 {
            r.push(b + 32);
        } else {
            r.push(b);
        }
        proof {
            assert(r@ =~= lower_seq(v@.take(i + 1 as int)));
        }
        i += 1;
    }
    proof {
        assert(v@.take(v@.len() as int) =~= v@);
    }
    r
}

/// Whether two byte strings are equal.
pub fn bytes_eq(a: &Vec<u8>, b: &Vec<u8>) -> (r: bool)
    ensures
        r == (a@ == b@),
{
    if a.len() != b.len() {
        proof {
            assert(a@ != b@);
        }
        return false;
    }
    let mut i: usize = 0;
    while i < a.len()
        invariant
            i <= a@.len(),
            a@.len() == b@.len(),
            forall|j: int| 0 <= j < i ==> a@[j] == b@[j],
        decreases a@.len() - i,
    {
        if a[i] != b[i] {
            return false;
        }
        i += 1;
    }
    proof {
        assert(a@ =~= b@);
    }
    true
}

/// Whether `v` begins with `prefix`.
pub open spec fn spec_starts_with(v: Seq<u8>, prefix: Seq<u8>) -> bool {
    prefix.len() <= v.len() && v.take(prefix.len() as int) == prefix
}

pub fn starts_with_bytes(v: &Vec<u8>, prefix: &Vec<u8>) -> (r: bool)
    ensures
        r == spec_starts_with(v@, prefix@),
{
    if prefix.len() > v.len() {
        return false;
    }
    let mut i: usize = 0;
    while i < prefix.len()
        invariant
            i <= prefix@.len(),
            prefix@.len() <= v@.len(),
            forall|j: int| 0 <= j < i ==> v@[j] == prefix@[j],
        decreases prefix@.len() - i,
    {
        if v[i] != prefix[i] {
            proof {
                assert(v@.take(prefix@.len() as int)[i as int] != prefix@[i as int]);
            }
            return false;
        }
        i += 1;
    }
    proof {
        assert(v@.take(prefix@.len() as int) =~= prefix@);
    }
    true
}

/// Copy a byte string.
pub fn copy_bytes(v: &Vec<u8>) -> (r: Vec<u8>)
    ensures
        r@ == v@,
{
    let mut r: Vec<u8> = Vec::new();
    let mut i: usize = 0;
    while i < v.len()
        invariant
            i <= v@.len(),
            r@ == v@.take(i as int),
        decreases v@.len() - i,
    {
        r.push(v[i]);
        proof {
            assert(r@ =~= v@.take(i + 1 as int));
        }
        i += 1;
    }
    proof {
        assert(v@.take(v@.len() as int) =~= v@);
    }
    r
}

/// The bytes of an ASCII string literal.
pub fn lit_vec(s: &str) -> (r: Vec<u8>)
    requires
        vstd::string::is_ascii(s),
    ensures
        r@ == s@.map_values(|c: char| c as u8),
{
    broadcast use vstd::string::is_ascii_spec_bytes;

    let b: &[u8] = s.as_bytes();
    let mut v: Vec<u8> = Vec::new();
    let mut i: usize = 0;
    while i < b.len()
        invariant
            i <= b@.len(),
            v@ == b@.take(i as int),
        decreases b@.len() - i,
    {
        v.push(b[i]);
        proof {
            assert(v@ =~= b@.take(i + 1 as int));
        }
        i += 1;
    }
    proof {
        assert(v@ =~= b@);
        assert(v@ =~= s@.map_values(|c: char| c as u8));
    }
    v
}

/// ASCII whitespace, as the query trimmer understands it.
pub open spec fn is_ws(b: u8) -> bool {
    b == ' ' as u8 || b == '\t' as u8 || b == '\n' as u8 || b == '\r' as u8
}

/// `s` without leading whitespace.
pub open spec fn trim_start_seq(s: Seq<u8>) -> Seq<u8>
    decreases s.len(),
{
    if s.len() > 0 && is_ws(s[0]) {
        trim_start_seq(s.drop_first())
    } else {
        s
    }
}

/// `s` without trailing whitespace.
pub open spec fn trim_end_seq(s: Seq<u8>) -> Seq<u8>
    decreases s.len(),
{
    if s.len() > 0 && is_ws(s[s.len() - 1]) {
        trim_end_seq(s.drop_last())
    } else {
        s
    }
}

/// `s` without leading or trailing whitespace.
pub open spec fn trim_seq(s: Seq<u8>) -> Seq<u8> {
    trim_end_seq(trim_start_seq(s))
}

pub proof fn lemma_trim_start_skip(s: Seq<u8>, i: int)
    requires
        0 <= i <= s.len(),
        forall|j: int| 0 <= j < i ==> is_ws(s[j]),
        i < s.len() ==> !is_ws(s[i]),
    ensures
        trim_start_seq(s) == s.skip(i),
    decreases i,
{
    if i == 0 {
        if s.len() > 0 {
            assert(!is_ws(s[0]));
        }
        assert(s.skip(0) =~= s);
    } else {
        assert(is_ws(s[0]));
        assert forall|j: int| 0 <= j < i - 1 implies is_ws(s.drop_first()[j]) by {
            assert(s.drop_first()[j] == s[j + 1]);
        }
        if i - 1 < s.drop_first().len() {
            assert(s.drop_first()[i - 1] == s[i]);
        }
        lemma_trim_start_skip(s.drop_first(), i - 1);
        assert(s.drop_first().skip(i - 1) =~= s.skip(i));
    }
}

pub proof fn lemma_trim_end_take(s: Seq<u8>, i: int)
    requires
        0 <= i <= s.len(),
        forall|j: int| i <= j < s.len() ==> is_ws(s[j]),
        i > 0 ==> !is_ws(s[i - 1]),
    ensures
        trim_end_seq(s) == s.take(i),
    decreases s.len() - i,
{
    if i == s.len() {
        if s.len() > 0 {
            assert(!is_ws(s[s.len() - 1]));
        }
        assert(s.take(i) =~= s);
    } else {
        assert(is_ws(s[s.len() - 1]));
        assert forall|j: int| i <= j < s.drop_last().len() implies is_ws(s.drop_last()[j]) by {
            assert(s.drop_last()[j] == s[j]);
        }
        if i > 0 {
            assert(s.drop_last()[i - 1] == s[i - 1]);
        }
        lemma_trim_end_take(s.drop_last(), i);
        assert(s.drop_last().take(i) =~= s.take(i));
    }
}

/// Trimming never lengthens a byte string.
pub proof fn lemma_trim_le(s: Seq<u8>)
    ensures
        trim_seq(s).len() <= s.len(),
{
    lemma_trim_start_le(s);
    lemma_trim_end_le(trim_start_seq(s));
}

pub proof fn lemma_trim_start_le(s: Seq<u8>)
    ensures
        trim_start_seq(s).len() <= s.len(),
    decreases s.len(),
{
    if s.len() > 0 && is_ws(s[0]) {
        lemma_trim_start_le(s.drop_first());
    }
}

pub proof fn lemma_trim_end_le(s: Seq<u8>)
    ensures
        trim_end_seq(s).len() <= s.len(),
    decreases s.len(),
{
    if s.len() > 0 && is_ws(s[s.len() - 1]) {
        lemma_trim_end_le(s.drop_last());
    }
}

/// Strip leading and trailing ASCII whitespace from a byte string.
pub fn trim_bytes(v: &Vec<u8>) -> (r: Vec<u8>)
    ensures
        r@ == trim_seq(v@),
{
    let mut lo: usize = 0;
    while lo < v.len() && (v[lo] == ' ' as u8 || v[lo] == '\t' as u8 || v[lo] == '\n' as u8 || v[lo]
        == '\r' as u8)
        invariant
            lo <= v@.len(),
            forall|j: int| 0 <= j < lo ==> is_ws(v@[j]),
        decreases v@.len() - lo,
    {
        lo += 1;
    }
    proof {
        lemma_trim_start_skip(v@, lo as int);
    }
    let mut hi: usize = v.len();
    while hi > lo && (v[hi - 1] == ' ' as u8 || v[hi - 1] == '\t' as u8 || v[hi - 1] == '\n' as u8
        || v[hi - 1] == '\r' as u8)
        invariant
            lo <= hi <= v@.len(),
            forall|j: int| 0 <= j < lo ==> is_ws(v@[j]),
            forall|j: int| hi <= j < v@.len() ==> is_ws(v@[j]),
        decreases hi,
    {
        hi -= 1;
    }
    proof {
        let st = v@.skip(lo as int);
        assert forall|j: int| (hi - lo) <= j < st.len() implies is_ws(st[j]) by {
            assert(st[j] == v@[j + lo]);
        }
        if hi > lo {
            assert(st[hi - lo - 1] == v@[hi - 1]);
        }
        lemma_trim_end_take(st, hi - lo);
    }
    let mut r: Vec<u8> = Vec::new();
    let mut i: usize = lo;
    while i < hi
        invariant
            lo <= i <= hi <= v@.len(),
            r@ == v@.skip(lo as int).take(i - lo),
        decreases hi - i,
    {
        r.push(v[i]);
        proof {
            assert(r@ =~= v@.skip(lo as int).take(i + 1 - lo));
        }
        i += 1;
    }
    r
}

/// Byte offsets at which lines begin in `t`, considering only the first
/// `i` bytes: offset 0, then one past each newline.
pub open spec fn line_starts(t: Seq<u8>, i: int) -> Seq<usize>
    decreases i,
{
    if i <= 0 {
        seq![0usize]
    } else {
        line_starts(t, i - 1) + if t[i - 1] == '\n' as u8 {
            seq![i as usize]
        } else {
            Seq::empty()
        }
    }
}

/// Structural facts about the line-start table.
pub proof fn lemma_line_starts_props(t: Seq<u8>, i: int)
    requires
        0 <= i <= t.len(),
        i <= usize::MAX,
    ensures
        line_starts(t, i).len() >= 1,
        line_starts(t, i)[0] == 0,
        forall|a: int, b: int|
            0 <= a < b < line_starts(t, i).len() ==> line_starts(t, i)[a] < line_starts(t, i)[b],
        forall|a: int| 0 <= a < line_starts(t, i).len() ==> line_starts(t, i)[a] <= i,
    decreases i,
{
    if i > 0 {
        lemma_line_starts_props(t, i - 1);
        let prev = line_starts(t, i - 1);
        let cur = line_starts(t, i);
        if t[i - 1] == '\n' as u8 {
            assert forall|a: int, b: int| 0 <= a < b < cur.len() implies cur[a] < cur[b] by {
                if b < prev.len() {
                    assert(cur[a] == prev[a] && cur[b] == prev[b]);
                } else {
                    assert(b == prev.len());
                    assert(cur == prev + seq![i as usize]);
                    assert((prev + seq![i as usize])[b] == i as usize);
                    assert(cur[a] == prev[a]);
                }
            }
        } else {
            assert(cur =~= prev);
        }
    }
}

/// In a strictly increasing table starting at 0, the last entry is at
/// least the index count.
pub proof fn lemma_increasing_gap(s: Seq<usize>)
    requires
        s.len() >= 1,
        s[0] == 0,
        forall|a: int, b: int| 0 <= a < b < s.len() ==> s[a] < s[b],
    ensures
        s[s.len() - 1] >= s.len() - 1,
    decreases s.len(),
{
    if s.len() > 1 {
        lemma_increasing_gap(s.drop_last());
        assert(s.drop_last()[s.len() - 2] == s[s.len() - 2]);
    }
}

/// The index of the line containing byte offset `idx`: the greatest `k`
/// with `s[k] <= idx`.
pub open spec fn spec_line_of(s: Seq<usize>, idx: usize) -> int
    decreases s.len(),
{
    if s.len() <= 1 {
        0
    } else if s[s.len() - 1] <= idx {
        s.len() - 1
    } else {
        spec_line_of(s.drop_last(), idx)
    }
}


/// The greatest-line characterization picks `spec_line_of` uniquely.
pub proof fn lemma_line_of_unique(s: Seq<usize>, idx: usize, k: int)
    requires
        s.len() >= 1,
        s[0] == 0,
        forall|a: int, b: int| 0 <= a < b < s.len() ==> s[a] < s[b],
        0 <= k < s.len(),
        s[k] <= idx,
        k + 1 < s.len() ==> s[k + 1] > idx,
    ensures
        k == spec_line_of(s, idx),
    decreases s.len(),
{
    if s.len() > 1 {
        if s[s.len() - 1] <= idx {
            if k < s.len() - 1 {
                assert(s[k + 1] <= s[s.len() - 1]);
            }
        } else {
            assert(k < s.len() - 1);
            lemma_line_of_unique(s.drop_last(), idx, k);
        }
    }
}

/// Table of line-start offsets for one document, used to convert byte
/// offsets into line/character positions. Documents are bounded to
/// what 32-bit protocol positions can address.
pub struct LineIndex {
    pub starts: Vec<usize>,
}

impl LineIndex {
    /// A usable table: nonempty, beginning at offset 0, strictly
    /// increasing, and small enough for 32-bit positions.
    pub open spec fn wf(self) -> bool {
        &&& self.starts@.len() >= 1
        &&& self.starts@[0] == 0
        &&& forall|a: int, b: int|
            0 <= a < b < self.starts@.len() ==> self.starts@[a] < self.starts@[b]
        &&& self.starts@.len() <= 0x1_0000_0000
    }

    pub fn new(text: &Vec<u8>) -> (r: LineIndex)
        requires
            text@.len() < 0x1_0000_0000,
        ensures
            r.starts@ == line_starts(text@, text@.len() as int),
            r.wf(),
            forall|a: int| 0 <= a < r.starts@.len() ==> r.starts@[a] <= text@.len(),
    {
        let mut starts: Vec<usize> = Vec::new();
        starts.push(0);
        proof {
            assert(starts@ =~= line_starts(text@, 0));
        }
        let mut i: usize = 0;
        while i < text.len()
            invariant
                i <= text@.len(),
                starts@ == line_starts(text@, i as int),
            decreases text@.len() - i,
        {
            if text[i] == '\n' as u8 {
                starts.push(i + 1);
            }
            proof {
                assert(starts@ =~= line_starts(text@, i + 1 as int));
            }
            i += 1;
        }
        proof {
            lemma_line_starts_props(text@, text@.len() as int);
            let s = line_starts(text@, text@.len() as int);
            assert forall|a: int, b: int| 0 <= a < b < s.len() implies s[a] < s[b] by {}
            assert(s.len() <= 0x1_0000_0000) by {
                lemma_increasing_gap(s);
                assert(s[s.len() - 1] <= text@.len());
            }
        }
        LineIndex { starts }
    }

    /// The line/character position of byte offset `idx`, by binary search
    /// for the line whose start is nearest at or below `idx`.
    pub fn to_pos(&self, idx: usize) -> (p: Position)
        requires
            self.wf(),
            idx < 0x1_0000_0000,
        ensures
            p.line == spec_line_of(self.starts@, idx),
            p.character == idx - self.starts@[spec_line_of(self.starts@, idx)],
    {
        let mut lo: usize = 0;
        let mut hi: usize = self.starts.len();
        while lo < hi
            invariant
                0 <= lo <= hi <= self.starts@.len(),
                self.wf(),
                forall|j: int| 0 <= j < lo ==> self.starts@[j] <= idx,
                forall|j: int| hi <= j < self.starts@.len() ==> self.starts@[j] > idx,
            decreases hi - lo,
        {
            let mid = lo + (hi - lo) / 2;
            if self.starts[mid] <= idx {
                proof {
                    assert forall|j: int| 0 <= j < mid + 1 implies self.starts@[j] <= idx by {
                        if j < mid {
                            assert(self.starts@[j] < self.starts@[mid as int]);
                        }
                    }
                }
                lo = mid + 1;
            } else {
                proof {
                    assert forall|j: int| mid <= j < self.starts@.len() implies self.starts@[j]
                        > idx by {
                        if j > mid {
                            assert(self.starts@[mid as int] < self.starts@[j]);
                        }
                    }
                }
                hi = mid;
            }
        }
        proof {
            assert(lo >= 1) by {
                assert(self.starts@[0] == 0);
            }
            lemma_line_of_unique(self.starts@, idx, lo - 1);
        }
        let k = lo - 1;
        Position { line: k as u32, character: (idx - self.starts[k]) as u32 }
    }

    /// The position range covering bytes `start .. end`.
    pub fn range_of(&self, start: usize, end: usize) -> (r: TextRange)
        requires
            self.wf(),
            start < 0x1_0000_0000,
            end < 0x1_0000_0000,
        ensures
            r.start.line == spec_line_of(self.starts@, start),
            r.start.character == start - self.starts@[spec_line_of(self.starts@, start)],
            r.end.line == spec_line_of(self.starts@, end),
            r.end.character == end - self.starts@[spec_line_of(self.starts@, end)],
    {
        TextRange { start: self.to_pos(start), end: self.to_pos(end) }
    }
}

/// The line and column of byte offset `idx`, counted directly from the
/// text: the number of newlines before `idx`, and the distance from the
/// last of them.
pub open spec fn spec_line_col(t: Seq<u8>, idx: int) -> (int, int)
    decreases idx,
{
    if idx <= 0 {
        (0, 0)
    } else if t[idx - 1] == '\n' as u8 {
        (spec_line_col(t, idx - 1).0 + 1, 0)
    } else {
        (spec_line_col(t, idx - 1).0, spec_line_col(t, idx - 1).1 + 1)
    }
}

/// Both coordinates of a position are bounded by the offset.
pub proof fn lemma_line_col_bounds(t: Seq<u8>, idx: int)
    requires
        0 <= idx,
    ensures
        0 <= spec_line_col(t, idx).0 <= idx,
        0 <= spec_line_col(t, idx).1 <= idx,
    decreases idx,
{
    if idx > 0 {
        lemma_line_col_bounds(t, idx - 1);
    }
}

/// Line and column of a byte offset, scanning the text for newlines.
pub fn line_col_of_match(text: &Vec<u8>, byte_idx: usize) -> (r: (u32, u32))
    requires
        byte_idx <= text@.len(),
        text@.len() < 0x1_0000_0000,
    ensures
        r.0 == spec_line_col(text@, byte_idx as int).0,
        r.1 == spec_line_col(text@, byte_idx as int).1,
{
    let mut line: u32 = 0;
    let mut col: u32 = 0;
    let mut i: usize = 0;
    while i < byte_idx
        invariant
            i <= byte_idx <= text@.len(),
            text@.len() < 0x1_0000_0000,
            line == spec_line_col(text@, i as int).0,
            col == spec_line_col(text@, i as int).1,
            line <= i,
            col <= i,
        decreases byte_idx - i,
    {
        if text[i] == '\n' as u8 {
            line = line + 1;
            col = 0;
        } else {
            col = col + 1;
        }
        i += 1;
    }
    (line, col)
}

} // verus!
