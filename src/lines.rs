//! The line-start index of a text buffer, and queries against it.

use vstd::prelude::*;

verus! {

/// The byte value of `'\n'`, the only recognised line terminator.
pub const NEWLINE: u8 = 10;

/// Offsets just past each `'\n'` among the first `n` bytes of `b`, in order.
pub open spec fn newline_ends(b: Seq<u8>, n: nat) -> Seq<int>
    decreases n,
{
    if n == 0 {
        seq![]
    } else {
        let prev = newline_ends(b, (n - 1) as nat);
        if b[n - 1] == NEWLINE {
            prev.push(n as int)
        } else {
            prev
        }
    }
}

/// The line-start table of `b`: offset 0, then the offset after every `'\n'`.
pub open spec fn line_starts_of(b: Seq<u8>) -> Seq<int> {
    seq![0int] + newline_ends(b, b.len())
}

/// The number of lines of `b`.
pub open spec fn line_count(b: Seq<u8>) -> int {
    line_starts_of(b).len() as int
}

/// A table of `usize` offsets read as integers.
pub open spec fn as_ints(v: Seq<usize>) -> Seq<int> {
    v.map_values(|x: usize| x as int)
}

/// Entries strictly increase.
pub open spec fn strictly_increasing(s: Seq<int>) -> bool {
    forall|i: int, j: int| 0 <= i < j < s.len() ==> s[i] < s[j]
}

/// The start of line `i` of `b`; the length of `b` for the line just past the
/// last one; `None` beyond that.
pub open spec fn line_start_spec(b: Seq<u8>, i: int) -> Option<int> {
    let s = line_starts_of(b);
    if 0 <= i < s.len() {
        Some(s[i])
    } else if i == s.len() {
        Some(b.len() as int)
    } else {
        None
    }
}

/// `r` is the last line of table `s` whose start is at most `o`.
pub open spec fn is_line_of(s: Seq<int>, o: int, r: int) -> bool {
    &&& 0 <= r < s.len()
    &&& s[r] <= o
    &&& r + 1 < s.len() ==> o < s[r + 1]
}

/// An optional `usize` read as an optional integer.
pub open spec fn opt_int(o: Option<usize>) -> Option<int> {
    match o {
        Some(x) => Some(x as int),
        None => None,
    }
}

pub proof fn lemma_newline_ends(b: Seq<u8>, n: nat)
    requires
        n <= b.len(),
    ensures
        strictly_increasing(newline_ends(b, n)),
        forall|k: int| 0 <= k < newline_ends(b, n).len() ==> 0 < #[trigger] newline_ends(b, n)[k] <= n,
        newline_ends(b, n).len() <= n,
    decreases n,
{
    if n > 0 {
        lemma_newline_ends(b, (n - 1) as nat);
    }
}

/// The table of any text starts at 0, strictly increases, and stays within the text.
pub proof fn lemma_line_starts(b: Seq<u8>)
    ensures
        line_starts_of(b).len() >= 1,
        line_starts_of(b)[0] == 0,
        strictly_increasing(line_starts_of(b)),
        forall|k: int| 0 <= k < line_starts_of(b).len() ==> 0 <= #[trigger] line_starts_of(b)[k] <= b.len(),
        line_starts_of(b).len() <= b.len() + 1,
{
    lemma_newline_ends(b, b.len());
    let s = line_starts_of(b);
    let e = newline_ends(b, b.len());
    assert forall|k: int| 0 < k < s.len() implies s[k] == e[k - 1] by {}
}

/// The line-start table of `b`, as offsets.
pub fn compute_line_starts(b: &[u8]) -> (r: Vec<usize>)
    ensures
        as_ints(r@) == line_starts_of(b@),
{
    let mut r: Vec<usize> = Vec::new();
    r.push(0);
    let mut i: usize = 0;
    while i < b.len()
        invariant
            i <= b@.len(),
            as_ints(r@) == seq![0int] + newline_ends(b@, i as nat),
        decreases b@.len() - i,
    {
        let ghost before = r@;
        if b[i] == NEWLINE {
            r.push(i + 1);
            assert(as_ints(r@) =~= as_ints(before).push((i + 1) as int));
        }
        i = i + 1;
        assert(as_ints(r@) =~= seq![0int] + newline_ends(b@, i as nat));
    }
    r
}

/// The last line of a table whose start is at most `offset`, by binary search.
pub fn find_line(starts: &Vec<usize>, offset: usize) -> (r: usize)
    requires
        starts@.len() >= 1,
        starts@[0] == 0,
        strictly_increasing(as_ints(starts@)),
    ensures
        is_line_of(as_ints(starts@), offset as int, r as int),
{
    let ghost s = as_ints(starts@);
    let mut lo: usize = 0;
    let mut hi: usize = starts.len();
    while lo + 1 < hi
        invariant
            s == as_ints(starts@),
            strictly_increasing(s),
            0 <= lo < hi <= starts@.len(),
            starts@[lo as int] <= offset,
            hi < starts@.len() ==> offset < starts@[hi as int],
        decreases hi - lo,
    {
        let mid = lo + (hi - lo) / 2;
        if starts[mid] <= offset {
            lo = mid;
        } else {
            hi = mid;
        }
    }
    proof {
        if lo + 1 < s.len() {
            assert(hi == lo + 1);
        }
    }
    lo
}

/// Line 0 starts at offset 0, and the line just past the last one starts at
/// the end of the text.
pub proof fn lemma_first_and_end_line_start(b: Seq<u8>)
    ensures
        line_start_spec(b, 0) == Some(0int),
        line_start_spec(b, line_count(b)) == Some(b.len() as int),
{
    lemma_line_starts(b);
}

/// Within a strictly increasing table, at most one line holds a given offset.
pub proof fn lemma_line_of_unique(s: Seq<int>, o: int, r1: int, r2: int)
    requires
        strictly_increasing(s),
        is_line_of(s, o, r1),
        is_line_of(s, o, r2),
    ensures
        r1 == r2,
{
    if r1 < r2 {
        assert(s[r1 + 1] <= s[r2]);
    } else if r2 < r1 {
        assert(s[r2 + 1] <= s[r1]);
    }
}

/// The start offset of a line maps back to that line, and to no other.
pub proof fn lemma_line_start_maps_back(b: Seq<u8>, i: int, r: int)
    requires
        0 <= i < line_count(b),
        is_line_of(line_starts_of(b), line_starts_of(b)[i], r),
    ensures
        r == i,
{
    lemma_line_starts(b);
    let s = line_starts_of(b);
    if i + 1 < s.len() {
        assert(s[i] < s[i + 1]);
    }
    assert(is_line_of(s, s[i], i));
    lemma_line_of_unique(s, s[i], i, r);
}

/// Every offset from the start of line `i` up to the start of the next line
/// maps to line `i`, and to no other.
pub proof fn lemma_offset_in_line(b: Seq<u8>, i: int, o: int, r: int)
    requires
        0 <= i < line_count(b),
        line_start_spec(b, i)->0 <= o < line_start_spec(b, i + 1)->0,
        is_line_of(line_starts_of(b), o, r),
    ensures
        r == i,
{
    lemma_line_starts(b);
    let s = line_starts_of(b);
    assert(is_line_of(s, o, i));
    lemma_line_of_unique(s, o, i, r);
}

} // verus!
