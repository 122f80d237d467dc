//! The library's two calls into the `regex` crate: replacing every match of a
//! pattern, and listing the named groups of every match. The patterns and the
//! group names are the callers' own; the contracts say what the crate returns
//! for them.
use vstd::prelude::*;
use regex::Regex;
use crate::cleaning::{squeeze_blanks, without_block_comments, without_line_comments};
use crate::text::utf8_len;

verus! {

/// A block comment: `/*`, then anything, newlines included, up to the first `*/`.
pub open spec fn block_comment_pattern() -> Seq<char> {
    r"(?s)/\*.*?\*/"@
}

/// A line comment: `//` and the rest of its line.
pub open spec fn line_comment_pattern() -> Seq<char> {
    r"//.*"@
}

/// A run of spaces and tabs.
pub open spec fn blank_run_pattern() -> Seq<char> {
    r"[ \t]+"@
}

/// `Regex::new(pattern)`, then `Regex::replace_all(text, rep)`: every
/// leftmost-first, non-overlapping match replaced by `rep`. Of the three
/// pattern and replacement pairs that the library uses the contract claims,
/// in terms of the spec functions that model them: a block comment removed
/// from its `/*` to the first `*/` after it (`without_block_comments`), a line
/// comment removed up to its `'\n'` (`without_line_comments`), a blank run
/// replaced by one space (`squeeze_blanks`). The patterns compile, so the
/// `unwrap` does not panic.
#[verifier::external_body]
pub(crate) fn replace_all(pattern: &str, text: &str, rep: &str) -> (r: String)
    requires
        (pattern@ == block_comment_pattern() && rep@ == ""@) || (pattern@ == line_comment_pattern()
            && rep@ == ""@) || (pattern@ == blank_run_pattern() && rep@ == " "@),
    ensures
        pattern@ == block_comment_pattern() ==> r@ == without_block_comments(text@, 0),
        pattern@ == line_comment_pattern() ==> r@ == without_line_comments(text@, 0),
        pattern@ == blank_run_pattern() ==> r@ == squeeze_blanks(text@, 0),
{
    Regex::new(pattern).unwrap().replace_all(text, rep).into_owned()
}

/// For each successive match of `pattern` in `line`, the named `groups` in the
/// order given: each the byte offset and the text that the group matched, or
/// `None`.
pub uninterp spec fn regex_captures(
    pattern: Seq<char>,
    groups: Seq<Seq<char>>,
    line: Seq<char>,
) -> Seq<Seq<Option<(usize, Seq<char>)>>>;

pub open spec fn capture_view(c: Vec<Option<(usize, String)>>) -> Seq<Option<(usize, Seq<char>)>> {
    c@.map_values(
        |g: Option<(usize, String)>|
            match g {
                Some((st, t)) => Some((st, t@)),
                None => None,
            },
    )
}

pub open spec fn names_view(groups: Seq<&str>) -> Seq<Seq<char>> {
    groups.map_values(|g: &str| g@)
}

/// The matches come in order and do not overlap: each group of a match ends,
/// in bytes, no later than any group of a later match starts.
pub open spec fn successive(ms: Seq<Seq<Option<(usize, Seq<char>)>>>) -> bool {
    forall|i: int, j: int, k: int, l: int|
        0 <= i < j < ms.len() && 0 <= k < ms[i].len() && 0 <= l < ms[j].len() ==> (
        #[trigger] ms[i][k] matches Some((s1, t1)) ==> (#[trigger] ms[j][l] matches Some((s2, _))
            ==> s1 + utf8_len(t1) <= s2))
}

/// `Regex::new(pattern)`, then `Regex::captures_iter(line)`, each match given
/// as its `groups` (`Captures::name`, with `Match::start` and
/// `Match::as_str`). The result is named `regex_captures`; besides that the
/// contract claims only what the crate documents: the matches are successive
/// and do not overlap, each group lies within its match, and a group's offset
/// lies within the line's bytes, on a character boundary, with the group's
/// text the line's text from there. The patterns compile, so the `unwrap`
/// does not panic.
#[verifier::external_body]
pub(crate) fn captures(pattern: &str, groups: &[&str], line: &str) -> (r: Vec<
    Vec<Option<(usize, String)>>,
>)
    requires
        pattern@ == crate::syntax::tokens::token_pattern() || pattern@
            == crate::compiler::tokens::token_pattern(),
    ensures
        r@.map_values(|c: Vec<Option<(usize, String)>>| capture_view(c)) == regex_captures(
            pattern@,
            names_view(groups@),
            line@,
        ),
        forall|i: int, k: int|
            0 <= i < r@.len() && 0 <= k < r@[i]@.len() ==> (#[trigger] r@[i]@[k] matches Some(
                (st, _),
            ) ==> st <= utf8_len(line@)),
        forall|i: int, k: int|
            0 <= i < r@.len() && 0 <= k < r@[i]@.len() ==> (#[trigger] r@[i]@[k] matches Some(
                (st, t),
            ) ==> exists|j: int|
                #![trigger line@.subrange(0, j)]
                0 <= j && j + t@.len() <= line@.len() && utf8_len(line@.subrange(0, j)) == st
                    && line@.subrange(j, j + t@.len()) == t@),
        successive(r@.map_values(|c: Vec<Option<(usize, String)>>| capture_view(c))),
{
    let mut out = Vec::new();
    for cap in Regex::new(pattern).unwrap().captures_iter(line) {
        let mut found = Vec::new();
        for g in groups {
            found.push(cap.name(g).map(|m| (m.start(), m.as_str().to_string())));
        }
        out.push(found);
    }
    out
}

} // verus!
