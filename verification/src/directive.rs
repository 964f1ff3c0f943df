//! The grammar of the inclusion directive.
//!
//! A line is a directive when, after any leading white space, it goes on with
//! `#include`, one blank and a path in double quotes. The path is what stands
//! between the opening quote and the next double quote, and is not empty;
//! whatever follows the closing quote is ignored.

use vstd::prelude::*;

verus! {

/// White space: the characters with the Unicode property `White_Space`.
pub open spec fn is_space(c: char) -> bool {
    let u = c as u32;
    ||| 0x09 <= u <= 0x0d
    ||| u == 0x20
    ||| u == 0x85
    ||| u == 0xa0
    ||| u == 0x1680
    ||| 0x2000 <= u <= 0x200a
    ||| u == 0x2028
    ||| u == 0x2029
    ||| u == 0x202f
    ||| u == 0x205f
    ||| u == 0x3000
}

/// Number of white-space characters that `s` begins with.
pub open spec fn leading_spaces(s: Seq<char>) -> int
    decreases s.len(),
{
    if s.len() == 0 || !is_space(s[0]) {
        0
    } else {
        1 + leading_spaces(s.drop_first())
    }
}

/// Index of the last `c` in `s`, or -1 where `s` holds none.
pub open spec fn last_index_of(s: Seq<char>, c: char) -> int
    decreases s.len(),
{
    if s.len() == 0 {
        -1
    } else if s.last() == c {
        s.len() - 1
    } else {
        last_index_of(s.drop_last(), c)
    }
}

/// The text that opens a directive, up to and with the opening quote.
pub open spec fn opening() -> Seq<char> {
    seq!['#', 'i', 'n', 'c', 'l', 'u', 'd', 'e', ' ', '"']
}

/// Index of the first `c` in `s` at `from` or behind it, or the length of
/// `s` where there is none.
pub open spec fn first_index_from(s: Seq<char>, c: char, from: int) -> int
    decreases s.len() - from,
{
    if from < 0 || from >= s.len() {
        s.len() as int
    } else if s[from] == c {
        from
    } else {
        first_index_from(s, c, from + 1)
    }
}

/// Where the path of a directive stands in `line`: the index of its first
/// character and the index of the closing quote, which is the first double
/// quote behind the opening one. `None` where `line` is no directive: where
/// it does not open as one, where the opening quote is never closed, or
/// where the path is empty.
pub open spec fn directive_span(line: Seq<char>) -> Option<(int, int)> {
    let w = leading_spaces(line);
    let p = w + opening().len();
    let q = first_index_from(line, '"', p);
    if p <= line.len() && line.subrange(w, p) == opening() && p < q < line.len() {
        Some((p, q))
    } else {
        None
    }
}

/// The first `c` from `from` on: `c` stands there and nowhere between `from`
/// and it.
pub proof fn lemma_first_index_from(s: Seq<char>, c: char, from: int)
    requires
        0 <= from <= s.len(),
    ensures
        from <= first_index_from(s, c, from) <= s.len(),
        first_index_from(s, c, from) < s.len() ==> s[first_index_from(s, c, from)] == c,
        forall|j: int| from <= j < first_index_from(s, c, from) ==> s[j] != c,
    decreases s.len() - from,
{
    if from < s.len() && s[from] != c {
        lemma_first_index_from(s, c, from + 1);
    }
}

/// The first `c` from `from` on is at `n` where `c` stands nowhere between
/// `from` and `n`, and at `n` unless `n` is the length of the text.
pub proof fn lemma_first_index_from_at(s: Seq<char>, c: char, from: int, n: int)
    requires
        0 <= from <= n <= s.len(),
        forall|j: int| from <= j < n ==> s[j] != c,
        n < s.len() ==> s[n] == c,
    ensures
        first_index_from(s, c, from) == n,
{
    lemma_first_index_from(s, c, from);
    let f = first_index_from(s, c, from);
    if f < n {
        assert(s[f] == c);
    } else if f > n {
        assert(s[n] == c);
    }
}

/// The white space that a line begins with: only white space stands before
/// its end, and none at it.
pub proof fn lemma_leading_spaces(s: Seq<char>)
    ensures
        0 <= leading_spaces(s) <= s.len(),
        forall|j: int| 0 <= j < leading_spaces(s) ==> is_space(s[j]),
        leading_spaces(s) < s.len() ==> !is_space(s[leading_spaces(s)]),
    decreases s.len(),
{
    if s.len() == 0 || !is_space(s[0]) {
    } else {
        let t = s.drop_first();
        lemma_leading_spaces(t);
        assert forall|j: int| 0 <= j < leading_spaces(s) implies is_space(s[j]) by {
            if j > 0 {
                assert(s[j] == t[j - 1]);
            }
        }
        assert(leading_spaces(s) < s.len() ==> s[leading_spaces(s)] == t[leading_spaces(t)]);
    }
}

/// The white space that a line begins with ends at `n` where only white space
/// stands before `n` and none at `n`.
pub proof fn lemma_leading_spaces_at(s: Seq<char>, n: int)
    requires
        0 <= n <= s.len(),
        forall|j: int| 0 <= j < n ==> is_space(s[j]),
        n < s.len() ==> !is_space(s[n]),
    ensures
        leading_spaces(s) == n,
{
    lemma_leading_spaces(s);
    let f = leading_spaces(s);
    if f < n {
        assert(is_space(s[f]));
    } else if f > n {
        assert(is_space(s[n]));
    }
}

/// The last `c` of a text: `c` stands there and nowhere behind it.
pub proof fn lemma_last_index_of(s: Seq<char>, c: char)
    ensures
        -1 <= last_index_of(s, c) < s.len(),
        last_index_of(s, c) >= 0 ==> s[last_index_of(s, c)] == c,
        forall|j: int| last_index_of(s, c) < j < s.len() ==> s[j] != c,
    decreases s.len(),
{
    if s.len() > 0 && s.last() != c {
        let t = s.drop_last();
        lemma_last_index_of(t, c);
        assert forall|j: int| last_index_of(s, c) < j < s.len() implies s[j] != c by {
            if j < t.len() {
                assert(s[j] == t[j]);
            }
        }
        assert(last_index_of(s, c) >= 0 ==> s[last_index_of(s, c)] == t[last_index_of(t, c)]);
    }
}

/// The last `c` is at `n` where `c` stands at `n` and nowhere behind it.
pub proof fn lemma_last_index_of_at(s: Seq<char>, c: char, n: int)
    requires
        -1 <= n < s.len(),
        n >= 0 ==> s[n] == c,
        forall|j: int| n < j < s.len() ==> s[j] != c,
    ensures
        last_index_of(s, c) == n,
{
    lemma_last_index_of(s, c);
    let f = last_index_of(s, c);
    if f > n {
        assert(s[f] == c);
    } else if f < n {
        assert(s[n] == c);
    }
}

/// The span of a directive lies within its line.
pub proof fn lemma_directive_span(line: Seq<char>)
    ensures
        match directive_span(line) {
            Some((start, end)) => 0 <= start < end < line.len(),
            None => true,
        },
{
    lemma_leading_spaces(line);
    let p = leading_spaces(line) + opening().len();
    if p <= line.len() {
        lemma_first_index_from(line, '"', p);
    }
}

/// Whether `c` is white space.
pub fn is_white_space(c: char) -> (r: bool)
    ensures
        r == is_space(c),
{
    let u: u32 = c as u32;
    (0x09 <= u && u <= 0x0d) || u == 0x20 || u == 0x85 || u == 0xa0 || u == 0x1680 || (0x2000 <= u
        && u <= 0x200a) || u == 0x2028 || u == 0x2029 || u == 0x202f || u == 0x205f || u == 0x3000
}

/// Index of the last `c` in `s`, where there is one.
pub fn find_last(s: &Vec<char>, c: char) -> (r: Option<usize>)
    ensures
        match r {
            Some(i) => last_index_of(s@, c) == i && i < s.len(),
            None => last_index_of(s@, c) == -1,
        },
{
    let mut i: usize = s.len();
    while i > 0
        invariant
            i <= s.len(),
            forall|j: int| i <= j < s.len() ==> s@[j] != c,
        decreases i,
    {
        i = i - 1;
        if s[i] == c {
            proof {
                lemma_last_index_of_at(s@, c, i as int);
            }
            return Some(i);
        }
    }
    proof {
        lemma_last_index_of_at(s@, c, -1);
    }
    None
}

/// Reads `line` as a directive: the span of the path it names, from the index
/// of its first character to the index of the closing quote.
pub fn parse_directive(line: &Vec<char>) -> (r: Option<(usize, usize)>)
    ensures
        match r {
            Some((start, end)) => directive_span(line@) == Some((start as int, end as int)),
            None => directive_span(line@) is None,
        },
{
    let mut w: usize = 0;
    while w < line.len() && is_white_space(line[w])
        invariant
            w <= line.len(),
            forall|j: int| 0 <= j < w ==> is_space(line@[j]),
        decreases line.len() - w,
    {
        w = w + 1;
    }
    proof {
        lemma_leading_spaces_at(line@, w as int);
    }
    if line.len() - w < 10 {
        return None;
    }
    let p: usize = w + 10;
    let opens = line[w] == '#' && line[w + 1] == 'i' && line[w + 2] == 'n' && line[w + 3] == 'c'
        && line[w + 4] == 'l' && line[w + 5] == 'u' && line[w + 6] == 'd' && line[w + 7] == 'e'
        && line[w + 8] == ' ' && line[w + 9] == '"';
    proof {
        let part = line@.subrange(w as int, p as int);
        if opens {
            assert(part =~= opening());
        } else {
            assert(part != opening()) by {
                if part == opening() {
                    assert(part[0] == '#' && part[1] == 'i' && part[2] == 'n' && part[3] == 'c'
                        && part[4] == 'l' && part[5] == 'u' && part[6] == 'd' && part[7] == 'e'
                        && part[8] == ' ' && part[9] == '"');
                }
            }
        }
    }
    if !opens {
        return None;
    }
    let mut q: usize = p;
    while q < line.len() && line[q] != '"'
        invariant
            p <= q <= line.len(),
            forall|j: int| p <= j < q ==> line@[j] != '"',
        decreases line.len() - q,
    {
        q = q + 1;
    }
    proof {
        lemma_first_index_from_at(line@, '"', p as int, q as int);
    }
    if p < q && q < line.len() {
        Some((p, q))
    } else {
        None
    }
}

} // verus!
