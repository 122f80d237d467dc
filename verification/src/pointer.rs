//! Where a position lies in a text: its line, its column in bytes, and the
//! line itself, for error messages that point at a character.
use vstd::prelude::*;
use crate::text::{
    lines, next_newline, lemma_next_newline_range, split_lines, subrange_chars, utf8_len,
    utf8_len_of, lemma_utf8_len_subrange,
};

verus! {

/// Index of the last `'\n'` in `s[..j]`, or `-1`.
pub open spec fn last_newline_before(s: Seq<char>, j: int) -> int
    decreases j,
{
    if j <= 0 || j > s.len() {
        -1
    } else if s[j - 1] == '\n' {
        j - 1
    } else {
        last_newline_before(s, j - 1)
    }
}

pub proof fn lemma_last_newline_before(s: Seq<char>, j: int)
    requires
        0 <= j <= s.len(),
    ensures
        -1 <= last_newline_before(s, j) < j,
    decreases j,
{
    if j > 0 && s[j - 1] != '\n' {
        lemma_last_newline_before(s, j - 1);
    }
}

/// Where the line holding position `pos` starts.
pub open spec fn line_start(s: Seq<char>, pos: int) -> int {
    last_newline_before(s, pos) + 1
}

/// How many lines `s[..pos]` has, as `str::lines` counts them.
pub open spec fn line_number(s: Seq<char>, pos: int) -> nat {
    lines(s.subrange(0, pos)).len()
}

/// The column of `pos` in bytes from the start of its line, counted from 0.
pub open spec fn byte_column(s: Seq<char>, pos: int) -> nat {
    utf8_len(s.subrange(line_start(s, pos), pos))
}

/// The line holding `pos`, without its `'\n'`.
pub open spec fn line_at(s: Seq<char>, pos: int) -> Seq<char> {
    s.subrange(line_start(s, pos), next_newline(s, pos))
}

/// Where `pos` lies: `(line_number, byte_column, line_at)`.
pub fn locate(s: &[char], pos: usize) -> (r: (usize, usize, Vec<char>))
    requires
        pos <= s.len(),
        utf8_len(s@) < usize::MAX,
    ensures
        r.0 == line_number(s@, pos as int),
        r.1 == byte_column(s@, pos as int),
        r.1 < usize::MAX,
        r.2@ == line_at(s@, pos as int),
{
    let prefix = subrange_chars(s, 0, pos);
    let ls = split_lines(&prefix);
    proof {
        assert(crate::text::views(ls@).len() == ls@.len());
    }
    let mut a: usize = pos;
    while a > 0 && s[a - 1] != '\n'
        invariant
            a <= pos <= s.len(),
            last_newline_before(s@, a as int) == last_newline_before(s@, pos as int),
        decreases a,
    {
        a -= 1;
    }
    let mut b: usize = pos;
    while b < s.len() && s[b] != '\n'
        invariant
            pos <= b <= s.len(),
            next_newline(s@, b as int) == next_newline(s@, pos as int),
        decreases s.len() - b,
    {
        b += 1;
    }
    proof {
        lemma_utf8_len_subrange(s@, a as int, pos as int);
    }
    let col = utf8_len_of(s, a, pos);
    let line = subrange_chars(s, a, b);
    (ls.len(), col, line)
}

} // verus!
