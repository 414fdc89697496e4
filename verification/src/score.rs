//! The fuzzy match scorer: a pure relevance function over (candidate, query)
//! pairs.
//!
//! A query matches a candidate when the query's characters occur in the
//! candidate, in order, as a (not necessarily contiguous) subsequence,
//! compared case-insensitively over ASCII letters. The relevance of a match
//! is the exact rational number
//!
//! ```text
//! (query length / window length) / candidate length
//! ```
//!
//! where the window length is the shortest contiguous span of the candidate
//! that contains the query as a subsequence anchored at both ends. The score
//! is kept as an exact fraction: [`Score`] carries its numerator and
//! denominator, so no rounding is involved anywhere. A score with numerator
//! zero means "no match"; an empty query scores one on every candidate.

use vstd::prelude::*;

verus! {

/// An exact relevance score: the rational number `num / den`.
///
/// `den` is always at least one, so the value is well defined; `num == 0`
/// exactly when the query does not match the candidate.
#[derive(Clone, Copy)]
pub struct Score {
    pub num: usize,
    pub den: u128,
}

/// ASCII-lowercases one character: uppercase ASCII letters shift down into
/// their lowercase forms and every other character stays itself.
pub open spec fn fold_char(c: char) -> char {
    if 'A' <= c && c <= 'Z' {
        ((c as u32) + 32) as char
    } else {
        c
    }
}

/// ASCII-lowercases a character sequence, element by element.
pub open spec fn fold_seq(s: Seq<char>) -> Seq<char> {
    s.map_values(|c: char| fold_char(c))
}

/// The position of the first occurrence of `c` in `h` at or after `off`,
/// if any.
pub open spec fn spec_find_from(h: Seq<char>, c: char, off: int) -> Option<int>
    decreases h.len() - off,
{
    if off >= h.len() {
        None
    } else if h[off] == c {
        Some(off)
    } else {
        spec_find_from(h, c, off + 1)
    }
}

/// The greedy forward scan: starting just after position `last`, match each
/// needle `n[k], n[k+1], ...` at its first occurrence strictly after the
/// previous one, and return the position of the last matched needle.
pub open spec fn spec_end(h: Seq<char>, n: Seq<char>, k: int, last: int) -> Option<int>
    decreases n.len() - k,
{
    if k >= n.len() {
        Some(last)
    } else {
        match spec_find_from(h, n[k], last + 1) {
            None => None,
            Some(i) => spec_end(h, n, k + 1, i),
        }
    }
}

/// The window length of the match of `n` anchored at start position `i`
/// (which must hold `n[0]`), or zero when the greedy scan fails there.
pub open spec fn window_at(h: Seq<char>, n: Seq<char>, i: int) -> int {
    match spec_end(h, n, 1, i) {
        None => 0,
        Some(e) => e - i + 1,
    }
}

/// Combines two window lengths, where zero means "no match": the minimum of
/// the two, ignoring zeros.
pub open spec fn combine(a: int, b: int) -> int {
    if a == 0 {
        b
    } else if b == 0 {
        a
    } else if a < b {
        a
    } else {
        b
    }
}

/// All positions at or after `off` where `c` occurs in `h`, in ascending
/// order.
pub open spec fn spec_occ(h: Seq<char>, c: char, off: int) -> Seq<int>
    decreases h.len() - off,
{
    if off >= h.len() {
        Seq::empty()
    } else if h[off] == c {
        seq![off] + spec_occ(h, c, off + 1)
    } else {
        spec_occ(h, c, off + 1)
    }
}

/// The smallest nonzero window over the given start positions, or zero if
/// the scan fails at every one of them.
pub open spec fn best_over(h: Seq<char>, n: Seq<char>, occs: Seq<int>) -> int
    decreases occs.len(),
{
    if occs.len() == 0 {
        0
    } else {
        combine(window_at(h, n, occs[0]), best_over(h, n, occs.drop_first()))
    }
}

/// The length of the shortest window of `h` containing `n` as a subsequence
/// anchored at both ends, or zero when `n` is not a subsequence of `h`.
/// Meaningful for nonempty `n`.
pub open spec fn spec_match_length(h: Seq<char>, n: Seq<char>) -> int {
    best_over(h, n, spec_occ(h, n[0], 0))
}

/// The numerator of the score of query `q` against candidate `c`.
pub open spec fn spec_score_num(c: Seq<char>, q: Seq<char>) -> int {
    if q.len() == 0 {
        1
    } else if c.len() == 0 {
        0
    } else if spec_match_length(fold_seq(c), fold_seq(q)) == 0 {
        0
    } else {
        q.len() as int
    }
}

/// The denominator of the score of query `q` against candidate `c`.
pub open spec fn spec_score_den(c: Seq<char>, q: Seq<char>) -> int {
    if q.len() == 0 {
        1
    } else if c.len() == 0 {
        1
    } else {
        let ml = spec_match_length(fold_seq(c), fold_seq(q));
        if ml == 0 {
            1
        } else {
            ml * c.len()
        }
    }
}

/// `n` occurs within `h` in order, not necessarily contiguously.
pub open spec fn is_subseq_of(n: Seq<char>, h: Seq<char>) -> bool
    decreases h.len(),
{
    if n.len() == 0 {
        true
    } else if h.len() == 0 {
        false
    } else if n[0] == h[0] {
        is_subseq_of(n.drop_first(), h.drop_first())
    } else {
        is_subseq_of(n, h.drop_first())
    }
}

/// ASCII-lowercases one character.
fn fold_char_exec(c: char) -> (r: char)
    ensures
        r == fold_char(c),
{
    match c {
        'A' => 'a',
        'B' => 'b',
        'C' => 'c',
        'D' => 'd',
        'E' => 'e',
        'F' => 'f',
        'G' => 'g',
        'H' => 'h',
        'I' => 'i',
        'J' => 'j',
        'K' => 'k',
        'L' => 'l',
        'M' => 'm',
        'N' => 'n',
        'O' => 'o',
        'P' => 'p',
        'Q' => 'q',
        'R' => 'r',
        'S' => 's',
        'T' => 't',
        'U' => 'u',
        'V' => 'v',
        'W' => 'w',
        'X' => 'x',
        'Y' => 'y',
        'Z' => 'z',
        _ => c,
    }
}

/// ASCII-lowercases a string into its character sequence.
fn to_folded_chars(s: &str) -> (v: Vec<char>)
    ensures
        v@ == fold_seq(s@),
{
    let n = s.unicode_len();
    let mut v: Vec<char> = Vec::new();
    let mut i: usize = 0;
    while i < n
        invariant
            n as int == s@.len(),
            i <= n,
            v@.len() == i as int,
            forall|j: int| 0 <= j < i ==> v@[j] == fold_char(s@[j]),
        decreases n - i,
    {
        v.push(fold_char_exec(s.get_char(i)));
        i = i + 1;
    }
    proof {
        assert(v@ =~= fold_seq(s@));
    }
    v
}

/// Implements a character search from an offset, like Ruby's `String#index`.
fn find_from_offset(haystack: &Vec<char>, needle: char, offset: usize) -> (r: Option<usize>)
    ensures
        match r {
            Some(i) => spec_find_from(haystack@, needle, offset as int) == Some(i as int)
                && offset <= i < haystack.len(),
            None => spec_find_from(haystack@, needle, offset as int) is None,
        },
{
    let mut i: usize = offset;
    while i < haystack.len()
        invariant
            offset <= i,
            spec_find_from(haystack@, needle, offset as int) == spec_find_from(
                haystack@,
                needle,
                i as int,
            ),
        decreases haystack@.len() - i,
    {
        if haystack[i] == needle {
            return Some(i);
        }
        i = i + 1;
    }
    None
}

/// `spec_occ` unrolled one occurrence at a time: the occurrence list starting
/// at `off` is empty when `c` is absent from `off` on, and otherwise starts
/// with the first occurrence.
proof fn lemma_occ_find(h: Seq<char>, c: char, off: int)
    ensures
        spec_occ(h, c, off) == match spec_find_from(h, c, off) {
            None => Seq::<int>::empty(),
            Some(i) => seq![i] + spec_occ(h, c, i + 1),
        },
    decreases h.len() - off,
{
    if off >= h.len() {
    } else if h[off] == c {
    } else {
        lemma_occ_find(h, c, off + 1);
    }
}

/// Every listed occurrence is a position of `c` in `h` at or after `off`.
proof fn lemma_occ_elems(h: Seq<char>, c: char, off: int)
    ensures
        forall|t: int|
            0 <= t < spec_occ(h, c, off).len() ==> off <= #[trigger] spec_occ(h, c, off)[t]
                < h.len() && h[spec_occ(h, c, off)[t]] == c,
    decreases h.len() - off,
{
    if off >= h.len() {
    } else {
        lemma_occ_elems(h, c, off + 1);
        let rest = spec_occ(h, c, off + 1);
        if h[off] == c {
            let whole = spec_occ(h, c, off);
            assert forall|t: int|
                0 <= t < whole.len() implies off <= #[trigger] whole[t] < h.len() && h[whole[t]]
                == c by {
                if t == 0 {
                    assert(whole[t] == off);
                } else {
                    assert(whole[t] == rest[t - 1]);
                }
            }
        }
    }
}

/// Find all occurrences of the character in the string, returning their
/// indexes in ascending order.
fn find_char_in_string(haystack: &Vec<char>, needle: char) -> (r: Vec<usize>)
    ensures
        r@.map_values(|x: usize| x as int) == spec_occ(haystack@, needle, 0),
{
    let ghost full = spec_occ(haystack@, needle, 0);
    let mut indexes: Vec<usize> = Vec::new();
    let mut index: usize = 0;
    let mut more = true;
    while more
        invariant
            index <= haystack@.len() + 1,
            more ==> full == indexes@.map_values(|x: usize| x as int) + spec_occ(
                haystack@,
                needle,
                index as int,
            ),
            !more ==> full == indexes@.map_values(|x: usize| x as int),
        decreases haystack@.len() + 2 - index + (if more { 1int } else { 0int }),
    {
        match find_from_offset(haystack, needle, index) {
            Some(i) => {
                proof {
                    lemma_occ_find(haystack@, needle, index as int);
                    assert(indexes@.push(i).map_values(|x: usize| x as int) =~= indexes@.map_values(
                        |x: usize| x as int,
                    ) + seq![i as int]);
                    assert(full =~= indexes@.push(i).map_values(|x: usize| x as int) + spec_occ(
                        haystack@,
                        needle,
                        i + 1,
                    ));
                }
                indexes.push(i);
                index = i + 1;
            },
            None => {
                proof {
                    lemma_occ_find(haystack@, needle, index as int);
                    assert(full =~= indexes@.map_values(|x: usize| x as int));
                }
                more = false;
            },
        }
    }
    indexes
}

/// A successful greedy scan never moves backwards, advances at least one
/// position for each needle it matches, and ends inside the haystack.
proof fn lemma_end_bounds(h: Seq<char>, n: Seq<char>, k: int, last: int)
    requires
        spec_end(h, n, k, last) is Some,
    ensures
        spec_end(h, n, k, last)->Some_0 >= last + if n.len() - k > 0 {
            n.len() - k
        } else {
            0
        },
        k < n.len() ==> spec_end(h, n, k, last)->Some_0 < h.len(),
    decreases n.len() - k,
{
    if k >= n.len() {
    } else {
        let found = spec_find_from(h, n[k], last + 1);
        lemma_find_some(h, n[k], last + 1);
        lemma_end_bounds(h, n, k + 1, found->Some_0);
    }
}

/// What a successful find means: the position holds the needle, lies in
/// range, and nothing earlier in range does.
proof fn lemma_find_some(h: Seq<char>, c: char, off: int)
    requires
        spec_find_from(h, c, off) is Some,
    ensures
        off <= spec_find_from(h, c, off)->Some_0 < h.len(),
        h[spec_find_from(h, c, off)->Some_0] == c,
        forall|j: int| off <= j < spec_find_from(h, c, off)->Some_0 ==> h[j] != c,
    decreases h.len() - off,
{
    if off >= h.len() {
    } else if h[off] == c {
    } else {
        lemma_find_some(h, c, off + 1);
    }
}

/// What a failed find means: the needle is absent from `off` on.
proof fn lemma_find_none(h: Seq<char>, c: char, off: int)
    requires
        spec_find_from(h, c, off) is None,
    ensures
        forall|j: int| off <= j < h.len() ==> h[j] != c,
    decreases h.len() - off,
{
    if off >= h.len() {
    } else if h[off] == c {
    } else {
        lemma_find_none(h, c, off + 1);
    }
}

/// Find each of the characters `needles[from..]` in the haystack, moving
/// strictly left to right from `first_index`, returning the position of the
/// last one.
fn find_end_of_match(
    haystack: &Vec<char>,
    needles: &Vec<char>,
    from: usize,
    first_index: usize,
) -> (r: Option<usize>)
    requires
        first_index < haystack@.len(),
    ensures
        match r {
            Some(e) => spec_end(haystack@, needles@, from as int, first_index as int) == Some(
                e as int,
            ) && first_index <= e < haystack.len(),
            None => spec_end(haystack@, needles@, from as int, first_index as int) is None,
        },
{
    let mut last: usize = first_index;
    let mut j: usize = from;
    while j < needles.len()
        invariant
            from <= j,
            first_index <= last < haystack.len(),
            spec_end(haystack@, needles@, from as int, first_index as int) == spec_end(
                haystack@,
                needles@,
                j as int,
                last as int,
            ),
        decreases needles@.len() - j,
    {
        match find_from_offset(haystack, needles[j], last + 1) {
            Some(i) => {
                last = i;
                j = j + 1;
            },
            None => {
                return None;
            },
        }
    }
    Some(last)
}

/// `combine` is associative: it is the minimum over nonzero entries.
proof fn lemma_combine_assoc(a: int, b: int, c: int)
    ensures
        combine(combine(a, b), c) == combine(a, combine(b, c)),
{
}

/// Appending a start position on the right folds into `best_over` from the
/// right.
proof fn lemma_best_over_push(h: Seq<char>, n: Seq<char>, occs: Seq<int>, x: int)
    ensures
        best_over(h, n, occs.push(x)) == combine(best_over(h, n, occs), window_at(h, n, x)),
    decreases occs.len(),
{
    if occs.len() == 0 {
        assert(occs.push(x).len() == 1);
        assert(occs.push(x)[0] == x);
        assert(occs.push(x).drop_first() =~= Seq::<int>::empty());
        assert(best_over(h, n, occs.push(x).drop_first()) == 0);
        assert(best_over(h, n, occs.push(x)) == combine(window_at(h, n, x), 0));
        assert(best_over(h, n, occs) == 0);
    } else {
        assert(occs.push(x)[0] == occs[0]);
        assert(occs.push(x).drop_first() =~= occs.drop_first().push(x));
        lemma_best_over_push(h, n, occs.drop_first(), x);
        assert(best_over(h, n, occs.push(x)) == combine(
            window_at(h, n, occs[0]),
            combine(best_over(h, n, occs.drop_first()), window_at(h, n, x)),
        ));
        lemma_combine_assoc(
            window_at(h, n, occs[0]),
            best_over(h, n, occs.drop_first()),
            window_at(h, n, x),
        );
        assert(best_over(h, n, occs) == combine(
            window_at(h, n, occs[0]),
            best_over(h, n, occs.drop_first()),
        ));
    }
}

/// Find the length of the shortest substring of the haystack that matches
/// the needles as a subsequence anchored at both ends; zero means there is
/// no match at all.
fn compute_match_length(haystack: &Vec<char>, needles: &Vec<char>) -> (r: usize)
    requires
        needles@.len() >= 1,
    ensures
        r as int == spec_match_length(haystack@, needles@),
{
    let first_char = needles[0];
    let first_indexes = find_char_in_string(haystack, first_char);
    let ghost occs = spec_occ(haystack@, first_char, 0);
    proof {
        lemma_occ_elems(haystack@, first_char, 0);
    }

    let mut min_index: usize = 0;
    let mut k: usize = 0;
    while k < first_indexes.len()
        invariant
            needles@.len() >= 1,
            k <= first_indexes@.len(),
            first_indexes@.map_values(|x: usize| x as int) == occs,
            occs == spec_occ(haystack@, needles@[0], 0),
            forall|t: int| 0 <= t < occs.len() ==> 0 <= #[trigger] occs[t] < haystack.len(),
            min_index as int == best_over(haystack@, needles@, occs.take(k as int)),
            min_index <= haystack.len(),
        decreases first_indexes@.len() - k,
    {
        let first_index = first_indexes[k];
        assert(first_index as int == occs[k as int]);
        let last_index = find_end_of_match(haystack, needles, 1, first_index);
        proof {
            assert(occs.take(k + 1) =~= occs.take(k as int).push(occs[k as int]));
            lemma_best_over_push(haystack@, needles@, occs.take(k as int), occs[k as int]);
        }
        match last_index {
            Some(index) => {
                proof {
                    lemma_end_bounds(haystack@, needles@, 1, first_index as int);
                }
                let new_index = index - first_index + 1;
                if min_index == 0 || new_index < min_index {
                    min_index = new_index;
                }
            },
            None => {},
        }
        k = k + 1;
    }
    proof {
        assert(occs.take(first_indexes@.len() as int) =~= occs);
    }
    min_index
}

/// Structural facts about subsequences: dropping the first needle preserves
/// the relation, and so does putting the first haystack character back.
proof fn lemma_subseq_structural(h: Seq<char>)
    ensures
        forall|n: Seq<char>|
            n.len() > 0 && #[trigger] is_subseq_of(n, h) ==> is_subseq_of(n.drop_first(), h),
        forall|n: Seq<char>|
            h.len() > 0 && #[trigger] is_subseq_of(n, h.drop_first()) ==> is_subseq_of(n, h),
    decreases h.len(),
{
    if h.len() > 0 {
        lemma_subseq_structural(h.drop_first());
        assert forall|n: Seq<char>|
            h.len() > 0 && #[trigger] is_subseq_of(n, h.drop_first()) implies is_subseq_of(
            n,
            h,
        ) by {
            if n.len() > 0 && n[0] == h[0] {
                assert(is_subseq_of(n.drop_first(), h.drop_first()));
            }
        }
        assert forall|n: Seq<char>|
            n.len() > 0 && #[trigger] is_subseq_of(n, h) implies is_subseq_of(
            n.drop_first(),
            h,
        ) by {
            if n[0] == h[0] {
                assert(is_subseq_of(n.drop_first(), h.drop_first()));
            } else {
                assert(is_subseq_of(n, h.drop_first()));
                assert(is_subseq_of(n.drop_first(), h.drop_first()));
            }
        }
    }
}

/// A subsequence of a suffix is a subsequence of any longer suffix.
proof fn lemma_subseq_skip_down(n: Seq<char>, h: Seq<char>, j: int, j2: int)
    requires
        0 <= j2 <= j <= h.len(),
        is_subseq_of(n, h.skip(j)),
    ensures
        is_subseq_of(n, h.skip(j2)),
    decreases j - j2,
{
    if j2 < j {
        lemma_subseq_structural(h.skip(j - 1));
        assert(h.skip(j - 1).drop_first() =~= h.skip(j));
        assert(is_subseq_of(n, h.skip(j - 1)));
        lemma_subseq_skip_down(n, h, j - 1, j2);
    }
}

/// When the greedy scan completes, the remaining needles really are a
/// subsequence of what follows the last consumed position.
proof fn lemma_end_sound(h: Seq<char>, n: Seq<char>, k: int, last: int)
    requires
        0 <= k <= n.len(),
        -1 <= last,
        spec_end(h, n, k, last) is Some,
    ensures
        is_subseq_of(n.skip(k), h.skip(last + 1)),
    decreases n.len() - k,
{
    if k >= n.len() {
        assert(n.skip(k) =~= Seq::<char>::empty());
    } else {
        let i = spec_find_from(h, n[k], last + 1)->Some_0;
        lemma_find_some(h, n[k], last + 1);
        lemma_end_sound(h, n, k + 1, i);
        assert(n.skip(k).drop_first() =~= n.skip(k + 1));
        assert(h.skip(i).drop_first() =~= h.skip(i + 1));
        assert(n.skip(k)[0] == n[k]);
        assert(h.skip(i)[0] == h[i]);
        assert(is_subseq_of(n.skip(k), h.skip(i)));
        lemma_subseq_skip_down(n.skip(k), h, i, last + 1);
    }
}

/// Splitting off the first needle of a subsequence match: it occurs
/// somewhere, and the rest matches strictly afterwards.
proof fn lemma_subseq_head_decompose(m: Seq<char>, t: Seq<char>)
    requires
        m.len() > 0,
        is_subseq_of(m, t),
    ensures
        exists|j: int|
            0 <= j < t.len() && t[j] == m[0] && is_subseq_of(m.drop_first(), #[trigger] t.skip(j + 1)),
    decreases t.len(),
{
    if m[0] == t[0] {
        assert(t.skip(1) =~= t.drop_first());
        assert(t[0] == m[0] && is_subseq_of(m.drop_first(), t.skip(0int + 1)));
    } else {
        lemma_subseq_head_decompose(m, t.drop_first());
        let j0 = choose|j: int|
            0 <= j < t.drop_first().len() && t.drop_first()[j] == m[0] && is_subseq_of(
                m.drop_first(),
                #[trigger] t.drop_first().skip(j + 1),
            );
        assert(t.drop_first().skip(j0 + 1) =~= t.skip(j0 + 2));
        assert(t[j0 + 1] == m[0] && is_subseq_of(m.drop_first(), t.skip((j0 + 1) + 1)));
    }
}

/// When the remaining needles are a subsequence of what follows `last`, the
/// greedy scan completes.
proof fn lemma_end_complete(h: Seq<char>, n: Seq<char>, k: int, last: int)
    requires
        0 <= k <= n.len(),
        -1 <= last,
        last + 1 <= h.len(),
        is_subseq_of(n.skip(k), h.skip(last + 1)),
    ensures
        spec_end(h, n, k, last) is Some,
    decreases n.len() - k,
{
    if k < n.len() {
        let m = n.skip(k);
        let t = h.skip(last + 1);
        assert(m[0] == n[k]);
        lemma_subseq_head_decompose(m, t);
        let j = choose|j: int|
            0 <= j < t.len() && t[j] == m[0] && is_subseq_of(m.drop_first(), #[trigger] t.skip(j + 1));
        let p = last + 1 + j;
        assert(t[j] == h[p]);
        if spec_find_from(h, n[k], last + 1) is None {
            lemma_find_none(h, n[k], last + 1);
            assert(false);
        }
        let i = spec_find_from(h, n[k], last + 1)->Some_0;
        lemma_find_some(h, n[k], last + 1);
        assert(i <= p);
        assert(t.skip(j + 1) =~= h.skip(p + 1));
        assert(m.drop_first() =~= n.skip(k + 1));
        lemma_subseq_skip_down(n.skip(k + 1), h, p + 1, i + 1);
        lemma_end_complete(h, n, k + 1, i);
    }
}

/// How the best window relates to the windows it is drawn from: zero only
/// when all are zero, achieved by one of them otherwise, and never larger
/// than any nonzero one.
proof fn lemma_best_over_props(h: Seq<char>, n: Seq<char>, occs: Seq<int>)
    ensures
        best_over(h, n, occs) == 0 ==> forall|t: int|
            0 <= t < occs.len() ==> window_at(h, n, #[trigger] occs[t]) == 0,
        best_over(h, n, occs) != 0 ==> exists|t: int|
            0 <= t < occs.len() && window_at(h, n, #[trigger] occs[t]) == best_over(h, n, occs),
        forall|t: int|
            0 <= t < occs.len() && window_at(h, n, #[trigger] occs[t]) != 0 ==> best_over(h, n, occs)
                != 0 && best_over(h, n, occs) <= window_at(h, n, occs[t]),
    decreases occs.len(),
{
    if occs.len() > 0 {
        lemma_best_over_props(h, n, occs.drop_first());
        let rest = occs.drop_first();
        let b = best_over(h, n, occs);
        assert(b == combine(window_at(h, n, occs[0]), best_over(h, n, rest)));
        assert forall|t: int| 0 <= t < rest.len() implies #[trigger] rest[t] == occs[t + 1] by {}
        if b == 0 {
            assert forall|t: int|
                0 <= t < occs.len() implies window_at(h, n, #[trigger] occs[t]) == 0 by {
                if t > 0 {
                    assert(occs[t] == rest[t - 1]);
                }
            }
        } else {
            if window_at(h, n, occs[0]) == b {
                assert(0 <= 0 < occs.len() && window_at(h, n, occs[0]) == b);
            } else {
                assert(best_over(h, n, rest) == b);
                let t0 = choose|t: int|
                    0 <= t < rest.len() && window_at(h, n, #[trigger] rest[t]) == b;
                assert(occs[t0 + 1] == rest[t0]);
                assert(0 <= t0 + 1 < occs.len() && window_at(h, n, occs[t0 + 1]) == b);
            }
        }
        assert forall|t: int|
            0 <= t < occs.len() && window_at(h, n, #[trigger] occs[t]) != 0 implies b != 0 && b
            <= window_at(h, n, occs[t]) by {
            if t > 0 {
                assert(occs[t] == rest[t - 1]);
            }
        }
    }
}

/// Positions listed by `spec_occ` are complete: every occurrence at or after
/// `off` appears in the list.
proof fn lemma_occ_complete(h: Seq<char>, c: char, off: int)
    ensures
        forall|p: int|
            off <= p < h.len() && h[p] == c ==> spec_occ(h, c, off).contains(p),
    decreases h.len() - off,
{
    if off < h.len() {
        lemma_occ_complete(h, c, off + 1);
        let rest = spec_occ(h, c, off + 1);
        assert forall|p: int|
            off <= p < h.len() && h[p] == c implies spec_occ(h, c, off).contains(p) by {
            if p == off {
                assert(spec_occ(h, c, off)[0] == p);
            } else {
                assert(rest.contains(p));
                let t = choose|t: int| 0 <= t < rest.len() && rest[t] == p;
                if h[off] == c {
                    assert(spec_occ(h, c, off)[t + 1] == p);
                }
            }
        }
    }
}

/// The central fact about the scorer's window search: it finds a window
/// exactly when the needles are a subsequence of the haystack, and any
/// window it finds spans at least the needles and at most the haystack.
pub proof fn lemma_match_length_positive_iff_subseq(h: Seq<char>, n: Seq<char>)
    requires
        n.len() >= 1,
    ensures
        spec_match_length(h, n) > 0 <==> is_subseq_of(n, h),
        spec_match_length(h, n) >= 0,
        spec_match_length(h, n) > 0 ==> n.len() <= spec_match_length(h, n) <= h.len(),
{
    let occs = spec_occ(h, n[0], 0);
    let ml = spec_match_length(h, n);
    lemma_occ_elems(h, n[0], 0);
    lemma_best_over_props(h, n, occs);
    if ml != 0 {
        let t = choose|t: int| 0 <= t < occs.len() && window_at(h, n, #[trigger] occs[t]) == ml;
        let i = occs[t];
        let e = spec_end(h, n, 1, i)->Some_0;
        lemma_end_bounds(h, n, 1, i);
        lemma_end_sound(h, n, 1, i);
        assert(n.skip(1) =~= n.drop_first());
        assert(h.skip(i)[0] == h[i]);
        assert(h.skip(i).drop_first() =~= h.skip(i + 1));
        assert(is_subseq_of(n, h.skip(i)));
        lemma_subseq_skip_down(n, h, i, 0);
        assert(h.skip(0) =~= h);
        if n.len() == 1 {
            assert(e == i);
        }
        assert(n.len() <= ml <= h.len());
    }
    if is_subseq_of(n, h) {
        lemma_subseq_head_decompose(n, h);
        let j = choose|j: int|
            0 <= j < h.len() && h[j] == n[0] && is_subseq_of(n.drop_first(), #[trigger] h.skip(j + 1));
        if spec_find_from(h, n[0], 0) is None {
            lemma_find_none(h, n[0], 0);
            assert(false);
        }
        let i = spec_find_from(h, n[0], 0)->Some_0;
        lemma_find_some(h, n[0], 0);
        assert(i <= j);
        assert(n.drop_first() =~= n.skip(1));
        lemma_subseq_skip_down(n.skip(1), h, j + 1, i + 1);
        lemma_end_complete(h, n, 1, i);
        lemma_end_bounds(h, n, 1, i);
        lemma_occ_complete(h, n[0], 0);
        assert(occs.contains(i));
        let t = choose|t: int| 0 <= t < occs.len() && occs[t] == i;
        assert(window_at(h, n, occs[t]) != 0);
        assert(ml != 0);
    }
}

/// Matching a sequence against itself, the greedy scan from position `k - 1`
/// consumes the rest of the sequence in lockstep.
proof fn lemma_end_self(h: Seq<char>, k: int)
    requires
        1 <= k <= h.len(),
    ensures
        spec_end(h, h, k, k - 1) == Some(h.len() - 1),
    decreases h.len() - k,
{
    if k < h.len() {
        assert(spec_find_from(h, h[k], k) == Some(k));
        lemma_end_self(h, k + 1);
    }
}

/// A nonempty sequence matched against itself has window length exactly its
/// own length.
pub proof fn lemma_self_match(h: Seq<char>)
    requires
        h.len() >= 1,
    ensures
        spec_match_length(h, h) == h.len(),
{
    let occs = spec_occ(h, h[0], 0);
    lemma_occ_elems(h, h[0], 0);
    lemma_best_over_props(h, h, occs);
    assert(occs[0] == 0);
    lemma_end_self(h, 1);
    assert(spec_end(h, h, 1, 0) == Some(h.len() - 1));
    assert(window_at(h, h, 0) == h.len());
    assert forall|t: int|
        0 <= t < occs.len() && window_at(h, h, #[trigger] occs[t]) != 0 implies window_at(
        h,
        h,
        occs[t],
    ) == h.len() by {
        let i = occs[t];
        let e = spec_end(h, h, 1, i)->Some_0;
        lemma_end_bounds(h, h, 1, i);
        if h.len() == 1 {
            assert(e == i);
        } else {
            assert(e < h.len());
            assert(e >= i + h.len() - 1);
            assert(i == 0);
        }
    }
    let b = spec_match_length(h, h);
    assert(b != 0);
    let t0 = choose|t: int| 0 <= t < occs.len() && window_at(h, h, #[trigger] occs[t]) == b;
    assert(window_at(h, h, occs[t0]) == h.len());
}

/// ASCII case folding is idempotent.
proof fn lemma_fold_idempotent(s: Seq<char>)
    ensures
        fold_seq(fold_seq(s)) == fold_seq(s),
{
    assert forall|j: int| 0 <= j < s.len() implies fold_char(fold_char(s[j])) == fold_char(
        s[j],
    ) by {
        let c = s[j];
        if 'A' <= c && c <= 'Z' {
            assert(((c as u32) + 32) as char > 'Z');
        }
    }
    assert(fold_seq(fold_seq(s)) =~= fold_seq(s));
}

/// The score is positive exactly when the query is empty or its characters
/// occur, in order and compared case-insensitively, within the candidate.
pub proof fn lemma_score_positive_iff_subsequence(c: Seq<char>, q: Seq<char>)
    ensures
        spec_score_num(c, q) > 0 <==> (q.len() == 0 || is_subseq_of(fold_seq(q), fold_seq(c))),
        spec_score_num(c, q) >= 0,
{
    if q.len() > 0 {
        if c.len() == 0 {
            assert(fold_seq(c) =~= Seq::<char>::empty());
        } else {
            lemma_match_length_positive_iff_subseq(fold_seq(c), fold_seq(q));
        }
    }
}

/// The score is case-insensitive: lowercasing either input changes nothing.
pub proof fn lemma_score_case_insensitive(c: Seq<char>, q: Seq<char>)
    ensures
        spec_score_num(fold_seq(c), fold_seq(q)) == spec_score_num(c, q),
        spec_score_den(fold_seq(c), fold_seq(q)) == spec_score_den(c, q),
{
    lemma_fold_idempotent(c);
    lemma_fold_idempotent(q);
}

/// A candidate equal to the query scores exactly `1 / len`: the numerator is
/// the length and the denominator is its square.
pub proof fn lemma_score_exact_match(c: Seq<char>)
    requires
        c.len() >= 1,
    ensures
        spec_score_num(c, c) == c.len(),
        spec_score_den(c, c) == c.len() * c.len(),
{
    lemma_self_match(fold_seq(c));
    lemma_match_length_positive_iff_subseq(fold_seq(c), fold_seq(c));
}

/// Score `q` against `c1` strictly exceeds score `q` against `c2`, as a
/// comparison of the two exact fractions.
pub open spec fn score_exceeds(c1: Seq<char>, c2: Seq<char>, q: Seq<char>) -> bool {
    spec_score_num(c1, q) * spec_score_den(c2, q) > spec_score_num(c2, q) * spec_score_den(c1, q)
}

/// Score `q` against `c1` is at least score `q` against `c2`, as a
/// comparison of the two exact fractions.
pub open spec fn score_at_least(c1: Seq<char>, c2: Seq<char>, q: Seq<char>) -> bool {
    spec_score_num(c1, q) * spec_score_den(c2, q) >= spec_score_num(c2, q) * spec_score_den(c1, q)
}

/// Between two matching candidates of the same length, the one whose match
/// window is tighter scores strictly higher.
pub proof fn lemma_prefers_tighter_match(c1: Seq<char>, c2: Seq<char>, q: Seq<char>)
    requires
        q.len() > 0,
        c1.len() == c2.len(),
        c1.len() > 0,
        0 < spec_match_length(fold_seq(c1), fold_seq(q)),
        spec_match_length(fold_seq(c1), fold_seq(q)) < spec_match_length(
            fold_seq(c2),
            fold_seq(q),
        ),
    ensures
        score_exceeds(c1, c2, q),
{
    let ml1 = spec_match_length(fold_seq(c1), fold_seq(q));
    let ml2 = spec_match_length(fold_seq(c2), fold_seq(q));
    let ql = q.len() as int;
    let cl = c1.len() as int;
    assert(ql * (ml2 * cl) > ql * (ml1 * cl)) by (nonlinear_arith)
        requires
            0 < ml1 < ml2,
            ql > 0,
            cl > 0,
    ;
}

/// Between two candidates whose match windows are equally tight, the
/// shorter candidate scores strictly higher.
pub proof fn lemma_prefers_shorter_candidate(c1: Seq<char>, c2: Seq<char>, q: Seq<char>)
    requires
        q.len() > 0,
        0 < c1.len() < c2.len(),
        0 < spec_match_length(fold_seq(c1), fold_seq(q)),
        spec_match_length(fold_seq(c1), fold_seq(q)) == spec_match_length(
            fold_seq(c2),
            fold_seq(q),
        ),
    ensures
        score_exceeds(c1, c2, q),
{
    let ml = spec_match_length(fold_seq(c1), fold_seq(q));
    let ql = q.len() as int;
    let cl1 = c1.len() as int;
    let cl2 = c2.len() as int;
    assert(ql * (ml * cl2) > ql * (ml * cl1)) by (nonlinear_arith)
        requires
            0 < ml,
            ql > 0,
            0 < cl1 < cl2,
    ;
}

/// Scores the query against the candidate; see the module description for
/// the relevance formula this returns, as an exact fraction.
pub fn score(choice: &str, query: &str) -> (r: Score)
    ensures
        r.num as int == spec_score_num(choice@, query@),
        r.den as int == spec_score_den(choice@, query@),
        r.den >= 1,
{
    if query.unicode_len() == 0 {
        return Score { num: 1, den: 1 };
    }
    if choice.unicode_len() == 0 {
        return Score { num: 0, den: 1 };
    }

    let lower_choice = to_folded_chars(choice);
    let lower_query = to_folded_chars(query);
    let choice_len = choice.unicode_len();

    let match_length = compute_match_length(&lower_choice, &lower_query);
    if match_length == 0 {
        return Score { num: 0, den: 1 };
    }

    let num = query.unicode_len();
    proof {
        assert(match_length as int <= u64::MAX as int);
        assert(choice_len as int <= u64::MAX as int);
        assert((match_length as int) * (choice_len as int) <= u128::MAX as int && 1 <= (
        match_length as int) * (choice_len as int)) by (nonlinear_arith)
            requires
                1 <= match_length as int <= u64::MAX as int,
                1 <= choice_len as int <= u64::MAX as int,
        ;
    }
    let den = (match_length as u128) * (choice_len as u128);
    Score { num, den }
}

} // verus!
