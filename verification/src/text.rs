//! The edge-list text format: lines separated by `'\n'`, a `'#'` starts a
//! comment that runs to the end of its line, and a line whose remaining text
//! holds at least two whitespace-separated words names the edge between its
//! first two words.

use vstd::prelude::*;

verus! {

/// The characters that `char::is_whitespace` accepts (Unicode `White_Space`).
pub open spec fn is_space(c: char) -> bool {
    let u = c as u32;
    ||| 0x09 <= u <= 0x0d
    ||| u == 0x20
    ||| u == 0x85
    ||| u == 0xa0
    ||| u == 0x1680
    ||| 0x2000 <= u <= 0x200a
    ||| u == 0x2028
    ||| u == 0x2029
    ||| u == 0x202f
    ||| u == 0x205f
    ||| u == 0x3000
}

/// Whether `c` is Unicode whitespace.
pub fn is_space_char(c: char) -> (r: bool)
    ensures
        r == is_space(c),
{
    let u = c as u32;
    (0x09 <= u && u <= 0x0d) || u == 0x20 || u == 0x85 || u == 0xa0 || u == 0x1680 || (0x2000
        <= u && u <= 0x200a) || u == 0x2028 || u == 0x2029 || u == 0x202f || u == 0x205f || u
        == 0x3000
}

/// The first index in `[from, end)` that holds `c`, or `end` when there is none.
pub open spec fn find_in(s: Seq<char>, c: char, from: int, end: int) -> int
    decreases end - from,
{
    if from >= end {
        end
    } else if s[from] == c {
        from
    } else {
        find_in(s, c, from + 1, end)
    }
}

/// The first index in `[from, end)` that holds a non-whitespace character, or `end`.
pub open spec fn skip_spaces(s: Seq<char>, from: int, end: int) -> int
    decreases end - from,
{
    if from >= end {
        end
    } else if !is_space(s[from]) {
        from
    } else {
        skip_spaces(s, from + 1, end)
    }
}

/// The first index in `[from, end)` that holds a whitespace character, or `end`.
pub open spec fn skip_word(s: Seq<char>, from: int, end: int) -> int
    decreases end - from,
{
    if from >= end {
        end
    } else if is_space(s[from]) {
        from
    } else {
        skip_word(s, from + 1, end)
    }
}

/// The positions `(a, b, c, d)` of the first two words of the line `s[lo..hi]`
/// once its comment is cut off: the first word is `s[a..b]`, the second
/// `s[c..d]`, and `h` the end of the text before the comment.
pub open spec fn word_bounds(s: Seq<char>, lo: int, hi: int) -> (int, int, int, int, int) {
    let h = find_in(s, '#', lo, hi);
    let a = skip_spaces(s, lo, h);
    let b = skip_word(s, a, h);
    let c = skip_spaces(s, b, h);
    let d = skip_word(s, c, h);
    (h, a, b, c, d)
}

/// The edge that the line `s[lo..hi]` names: its first two words, where it has two.
pub open spec fn line_edge(s: Seq<char>, lo: int, hi: int) -> Option<(Seq<char>, Seq<char>)> {
    let (h, a, b, c, d) = word_bounds(s, lo, hi);
    if c < h {
        Some((s.subrange(a, b), s.subrange(c, d)))
    } else {
        None
    }
}

/// The edges named by the lines of `s` that start at or after `pos`, in order.
pub open spec fn edge_list_from(s: Seq<char>, pos: int) -> Seq<(Seq<char>, Seq<char>)>
    decreases s.len() - pos,
{
    if pos < 0 || pos > s.len() {
        seq![]
    } else {
        let k = find_in(s, '\n', pos, s.len() as int);
        let here = match line_edge(s, pos, k) {
            Some(e) => seq![e],
            None => seq![],
        };
        if k < s.len() {
            proof {
                lemma_find_in_bounds(s, '\n', pos, s.len() as int);
            }
            here + edge_list_from(s, k + 1)
        } else {
            here
        }
    }
}

/// The edges that the text `s` names, one per line that holds two words, in order.
pub open spec fn edge_list(s: Seq<char>) -> Seq<(Seq<char>, Seq<char>)> {
    edge_list_from(s, 0)
}

pub proof fn lemma_find_in_bounds(s: Seq<char>, c: char, from: int, end: int)
    requires
        from <= end,
    ensures
        from <= find_in(s, c, from, end) <= end,
    decreases end - from,
{
    if from < end && s[from] != c {
        lemma_find_in_bounds(s, c, from + 1, end);
    }
}

/// The first index in `[from, end)` that holds `c`, or `end`.
pub fn find_char(s: &Vec<char>, c: char, from: usize, end: usize) -> (j: usize)
    requires
        from <= end <= s@.len(),
    ensures
        j == find_in(s@, c, from as int, end as int),
        from <= j <= end,
        j < end ==> s@[j as int] == c,
{
    let mut j = from;
    while j < end && s[j] != c
        invariant
            from <= j <= end <= s@.len(),
            find_in(s@, c, from as int, end as int) == find_in(s@, c, j as int, end as int),
        decreases end - j,
    {
        j = j + 1;
    }
    j
}

/// The first index in `[from, end)` that holds a non-whitespace character, or `end`.
pub fn skip_spaces_from(s: &Vec<char>, from: usize, end: usize) -> (j: usize)
    requires
        from <= end <= s@.len(),
    ensures
        j == skip_spaces(s@, from as int, end as int),
        from <= j <= end,
        j < end ==> !is_space(s@[j as int]),
{
    let mut j = from;
    while j < end && is_space_char(s[j])
        invariant
            from <= j <= end <= s@.len(),
            skip_spaces(s@, from as int, end as int) == skip_spaces(s@, j as int, end as int),
        decreases end - j,
    {
        j = j + 1;
    }
    j
}

/// The first index in `[from, end)` that holds a whitespace character, or `end`.
pub fn skip_word_from(s: &Vec<char>, from: usize, end: usize) -> (j: usize)
    requires
        from <= end <= s@.len(),
    ensures
        j == skip_word(s@, from as int, end as int),
        from <= j <= end,
        j < end ==> is_space(s@[j as int]),
{
    let mut j = from;
    while j < end && !is_space_char(s[j])
        invariant
            from <= j <= end <= s@.len(),
            skip_word(s@, from as int, end as int) == skip_word(s@, j as int, end as int),
        decreases end - j,
    {
        j = j + 1;
    }
    j
}

/// The bounds `(h, a, b, c, d)` of the first two words of the line `s[lo..hi]`
/// (see `word_bounds`).
pub fn line_words(s: &Vec<char>, lo: usize, hi: usize) -> (r: (usize, usize, usize, usize, usize))
    requires
        lo <= hi <= s@.len(),
    ensures
        (r.0 as int, r.1 as int, r.2 as int, r.3 as int, r.4 as int) == word_bounds(
            s@,
            lo as int,
            hi as int,
        ),
        lo <= r.1 <= r.2 <= r.3 <= r.4 <= r.0 <= hi,
        r.3 < r.0 ==> lo + 2 <= r.3,
{
    let h = find_char(s, '#', lo, hi);
    let a = skip_spaces_from(s, lo, h);
    let b = skip_word_from(s, a, h);
    let c = skip_spaces_from(s, b, h);
    let d = skip_word_from(s, c, h);
    (h, a, b, c, d)
}

/// `t` holds the characters of `s[a..b]` at the positions `o + a .. o + b`.
pub open spec fn agree_at(s: Seq<char>, t: Seq<char>, o: int, a: int, b: int) -> bool {
    &&& 0 <= a <= b <= s.len()
    &&& 0 <= o + a
    &&& o + b <= t.len()
    &&& forall|i: int| a <= i < b ==> t[o + i] == #[trigger] s[i]
}

pub proof fn lemma_find_in_shift(s: Seq<char>, t: Seq<char>, o: int, c: char, a: int, b: int)
    requires
        agree_at(s, t, o, a, b),
    ensures
        find_in(t, c, o + a, o + b) == o + find_in(s, c, a, b),
    decreases b - a,
{
    if a < b {
        assert(t[o + a] == s[a]);
        lemma_find_in_shift(s, t, o, c, a + 1, b);
    }
}

pub proof fn lemma_skip_spaces_shift(s: Seq<char>, t: Seq<char>, o: int, a: int, b: int)
    requires
        agree_at(s, t, o, a, b),
    ensures
        skip_spaces(t, o + a, o + b) == o + skip_spaces(s, a, b),
    decreases b - a,
{
    if a < b {
        assert(t[o + a] == s[a]);
        lemma_skip_spaces_shift(s, t, o, a + 1, b);
    }
}

pub proof fn lemma_skip_word_shift(s: Seq<char>, t: Seq<char>, o: int, a: int, b: int)
    requires
        agree_at(s, t, o, a, b),
    ensures
        skip_word(t, o + a, o + b) == o + skip_word(s, a, b),
    decreases b - a,
{
    if a < b {
        assert(t[o + a] == s[a]);
        lemma_skip_word_shift(s, t, o, a + 1, b);
    }
}

proof fn lemma_skip_spaces_bounds(s: Seq<char>, a: int, b: int)
    requires
        a <= b,
    ensures
        a <= skip_spaces(s, a, b) <= b,
    decreases b - a,
{
    if a < b {
        lemma_skip_spaces_bounds(s, a + 1, b);
    }
}

proof fn lemma_skip_word_bounds(s: Seq<char>, a: int, b: int)
    requires
        a <= b,
    ensures
        a <= skip_word(s, a, b) <= b,
    decreases b - a,
{
    if a < b {
        lemma_skip_word_bounds(s, a + 1, b);
    }
}

/// What a line names depends only on its own characters.
pub proof fn lemma_line_edge_shift(s: Seq<char>, t: Seq<char>, o: int, lo: int, hi: int)
    requires
        agree_at(s, t, o, lo, hi),
    ensures
        line_edge(t, o + lo, o + hi) == line_edge(s, lo, hi),
{
    lemma_find_in_shift(s, t, o, '#', lo, hi);
    lemma_find_in_bounds(s, '#', lo, hi);
    let (h, a, b, c, d) = word_bounds(s, lo, hi);
    lemma_skip_spaces_shift(s, t, o, lo, h);
    lemma_skip_spaces_bounds(s, lo, h);
    lemma_skip_word_shift(s, t, o, a, h);
    lemma_skip_word_bounds(s, a, h);
    lemma_skip_spaces_shift(s, t, o, b, h);
    lemma_skip_spaces_bounds(s, b, h);
    lemma_skip_word_shift(s, t, o, c, h);
    lemma_skip_word_bounds(s, c, h);
    assert(t.subrange(o + a, o + b) =~= s.subrange(a, b));
    assert(t.subrange(o + c, o + d) =~= s.subrange(c, d));
}

/// The lines of `s2` read the same inside `s1 + s2`.
pub proof fn lemma_edge_list_from_suffix(s1: Seq<char>, s2: Seq<char>, p: int)
    requires
        0 <= p <= s2.len(),
    ensures
        edge_list_from(s1 + s2, s1.len() + p) == edge_list_from(s2, p),
    decreases s2.len() - p,
{
    let t = s1 + s2;
    let o = s1.len() as int;
    assert(agree_at(s2, t, o, p, s2.len() as int));
    lemma_find_in_shift(s2, t, o, '\n', p, s2.len() as int);
    lemma_find_in_bounds(s2, '\n', p, s2.len() as int);
    let k = find_in(s2, '\n', p, s2.len() as int);
    assert(agree_at(s2, t, o, p, k));
    lemma_line_edge_shift(s2, t, o, p, k);
    if k < s2.len() {
        lemma_edge_list_from_suffix(s1, s2, k + 1);
    }
}

/// A character `c` in `s[a..e]` is found there, before `e`.
proof fn lemma_find_in_found(s: Seq<char>, c: char, a: int, e: int, j: int)
    requires
        a <= j < e,
        s[j] == c,
    ensures
        a <= find_in(s, c, a, e) <= j,
    decreases j - a,
{
    if s[a] != c {
        lemma_find_in_found(s, c, a + 1, e, j);
    }
}

/// A search that finds `c` before the end of `s` finds it at the same place in
/// any longer text that begins with `s`.
proof fn lemma_find_in_prefix(s: Seq<char>, t: Seq<char>, c: char, a: int, e: int, et: int)
    requires
        0 <= a <= e <= s.len(),
        e <= et <= t.len(),
        forall|i: int| 0 <= i < e ==> t[i] == #[trigger] s[i],
        find_in(s, c, a, e) < e,
    ensures
        find_in(t, c, a, et) == find_in(s, c, a, e),
    decreases e - a,
{
    if s[a] != c {
        lemma_find_in_prefix(s, t, c, a + 1, e, et);
    }
}

/// The lines of `s1` read the same at the start of `s1 + s2` when `s1` ends
/// with a line break.
pub proof fn lemma_edge_list_from_prefix(s1: Seq<char>, s2: Seq<char>, p: int)
    requires
        0 <= p <= s1.len(),
        s1.len() > 0,
        s1.last() == '\n',
    ensures
        edge_list_from(s1 + s2, p) == edge_list_from(s1, p) + edge_list(s2),
    decreases s1.len() - p,
{
    let t = s1 + s2;
    if p == s1.len() {
        lemma_edge_list_from_suffix(s1, s2, 0);
        assert(edge_list_from(s1, p) =~= Seq::<(Seq<char>, Seq<char>)>::empty());
        assert(edge_list_from(s1, p) + edge_list(s2) =~= edge_list(s2));
    } else {
        let n1 = s1.len() as int;
        lemma_find_in_found(s1, '\n', p, n1, n1 - 1);
        let k = find_in(s1, '\n', p, n1);
        assert forall|i: int| 0 <= i < n1 implies t[i] == #[trigger] s1[i] by {}
        lemma_find_in_prefix(s1, t, '\n', p, n1, t.len() as int);
        assert(agree_at(s1, t, 0, p, k));
        lemma_line_edge_shift(s1, t, 0, p, k);
        lemma_edge_list_from_prefix(s1, s2, k + 1);
        let here = match line_edge(s1, p, k) {
            Some(e) => seq![e],
            None => seq![],
        };
        assert(edge_list_from(t, p) == here + edge_list_from(t, k + 1));
        assert(edge_list_from(s1, p) == here + edge_list_from(s1, k + 1));
        assert(here + (edge_list_from(s1, k + 1) + edge_list(s2)) =~= (here + edge_list_from(
            s1,
            k + 1,
        )) + edge_list(s2));
    }
}

} // verus!
