//! Removal of comments and blank lines, shared by every stage. The two comment
//! patterns and the blank-run pattern are matched by the `regex` crate; what
//! each replacement leaves is modelled here, and the laws of cleaning are
//! proved over those models.
use vstd::prelude::*;
use crate::text::{
    chars_of, find_from, lemma_find_from, lemma_next_newline_range, lines, lines_from,
    next_newline, occurs_at, push_char, push_chars, split_lines, strip_cr, trim, trim_chars,
    utf8_len, utf8_width, views, lemma_utf8_len_concat, lemma_trim_len, is_white, no_newline,
    lemma_lines_no_newline, lemma_lines_join, lemma_lines_single, lemma_trim_ends,
    lemma_trim_fixed, skip_white, back_white, lemma_skip_white_range, lemma_back_white_range,
};
use crate::pattern::replace_all;

verus! {

pub open spec fn block_open() -> Seq<char> {
    seq!['/', '*']
}

pub open spec fn block_close() -> Seq<char> {
    seq!['*', '/']
}

pub open spec fn line_open() -> Seq<char> {
    seq!['/', '/']
}

/// `s[i..]` with every `/* ... */` removed: a comment starts at a `/*` that some
/// later `*/` closes, and ends at the first such `*/`.
pub open spec fn without_block_comments(s: Seq<char>, i: int) -> Seq<char>
    decreases s.len() - i,
{
    if i < 0 || i >= s.len() {
        Seq::empty()
    } else if occurs_at(s, block_open(), i) && find_from(s, block_close(), i + 2) >= 0 {
        let j = find_from(s, block_close(), i + 2);
        proof {
            lemma_find_from(s, block_close(), i + 2);
        }
        without_block_comments(s, j + 2)
    } else {
        seq![s[i]] + without_block_comments(s, i + 1)
    }
}

/// `s[i..]` with every `//` and the rest of its line (up to the `'\n'`) removed.
pub open spec fn without_line_comments(s: Seq<char>, i: int) -> Seq<char>
    decreases s.len() - i,
{
    if i < 0 || i >= s.len() {
        Seq::empty()
    } else if occurs_at(s, line_open(), i) {
        proof {
            lemma_next_newline_range(s, i);
            assert(s.subrange(i, i + 2)[0] == s[i]);
        }
        without_line_comments(s, next_newline(s, i))
    } else {
        seq![s[i]] + without_line_comments(s, i + 1)
    }
}

pub open spec fn is_blank(c: char) -> bool {
    c == ' ' || c == '\t'
}

pub open spec fn skip_blanks(s: Seq<char>, i: int) -> int
    decreases s.len() - i,
{
    if i < 0 || i >= s.len() {
        s.len() as int
    } else if is_blank(s[i]) {
        skip_blanks(s, i + 1)
    } else {
        i
    }
}

pub proof fn lemma_skip_blanks(s: Seq<char>, i: int)
    requires
        0 <= i <= s.len(),
    ensures
        i <= skip_blanks(s, i) <= s.len(),
        i < s.len() && is_blank(s[i]) ==> i < skip_blanks(s, i),
        forall|k: int| i <= k < skip_blanks(s, i) ==> is_blank(s[k]),
        skip_blanks(s, i) < s.len() ==> !is_blank(s[skip_blanks(s, i)]),
    decreases s.len() - i,
{
    if i < s.len() && is_blank(s[i]) {
        lemma_skip_blanks(s, i + 1);
    }
}

/// `s[i..]` with every run of spaces and tabs replaced by one space.
pub open spec fn squeeze_blanks(s: Seq<char>, i: int) -> Seq<char>
    decreases s.len() - i,
{
    if i < 0 || i >= s.len() {
        Seq::empty()
    } else if is_blank(s[i]) {
        proof {
            lemma_skip_blanks(s, i);
        }
        seq![' '] + squeeze_blanks(s, skip_blanks(s, i))
    } else {
        seq![s[i]] + squeeze_blanks(s, i + 1)
    }
}

/// `s` with every block comment removed.
pub fn strip_block_comments(s: &str) -> (r: String)
    ensures
        r@ == without_block_comments(s@, 0),
{
    replace_all(r"(?s)/\*.*?\*/", s, "")
}

/// `s` with every line comment removed, up to its `'\n'`.
pub fn strip_line_comments(s: &str) -> (r: String)
    ensures
        r@ == without_line_comments(s@, 0),
{
    replace_all(r"//.*", s, "")
}

/// `s` with every run of spaces and tabs replaced by one space.
pub fn squeeze_blank_runs(s: &str) -> (r: String)
    ensures
        r@ == squeeze_blanks(s@, 0),
{
    replace_all(r"[ \t]+", s, " ")
}

/// `s` without its comments: block comments first, then line comments.
pub open spec fn without_comments(s: Seq<char>) -> Seq<char> {
    without_line_comments(without_block_comments(s, 0), 0)
}

/// Whether a trimmed line is kept: it is not empty, and, where `drop_hash`
/// holds, it does not start with `#`.
pub open spec fn kept(l: Seq<char>, drop_hash: bool) -> bool {
    l.len() > 0 && !(drop_hash && l[0] == '#')
}

/// The trimmed lines among the first `k` of `ls` that are kept.
pub open spec fn kept_lines(ls: Seq<Seq<char>>, k: int, drop_hash: bool) -> Seq<Seq<char>>
    decreases k,
{
    if k <= 0 || k > ls.len() {
        Seq::empty()
    } else if kept(trim(ls[k - 1]), drop_hash) {
        kept_lines(ls, k - 1, drop_hash).push(trim(ls[k - 1]))
    } else {
        kept_lines(ls, k - 1, drop_hash)
    }
}

/// The first `k` of `ls` joined by `'\n'`.
pub open spec fn join_lines(ls: Seq<Seq<char>>, k: int) -> Seq<char>
    decreases k,
{
    if k <= 0 || k > ls.len() {
        Seq::empty()
    } else if k == 1 {
        ls[0]
    } else {
        join_lines(ls, k - 1) + seq!['\n'] + ls[k - 1]
    }
}

pub open spec fn joined(ls: Seq<Seq<char>>) -> Seq<char> {
    join_lines(ls, ls.len() as int)
}

/// The text of `s` without comments: its lines trimmed, empty ones (and, where
/// `drop_hash` holds, those starting with `#`) dropped, the rest joined by `'\n'`.
pub open spec fn cleaned(s: Seq<char>, drop_hash: bool) -> Seq<char> {
    let ls = lines(without_comments(s));
    joined(kept_lines(ls, ls.len() as int, drop_hash))
}

/// A line that joining by `'\n'` keeps apart: not empty, without `'\n'`, and
/// not ending in `'\r'`.
pub open spec fn plain_line(l: Seq<char>) -> bool {
    l.len() > 0 && no_newline(l) && l.last() != '\r'
}

proof fn lemma_join_ends(ls: Seq<Seq<char>>, k: int)
    requires
        1 <= k <= ls.len(),
        ls[k - 1].len() > 0,
    ensures
        join_lines(ls, k).len() > 0,
        join_lines(ls, k).last() == ls[k - 1].last(),
{
    if k > 1 {
        let a = join_lines(ls, k - 1) + seq!['\n'];
        assert((a + ls[k - 1]).last() == ls[k - 1].last());
    }
}

/// Plain lines joined by `'\n'` split back into themselves.
pub proof fn lemma_lines_of_join(ls: Seq<Seq<char>>, k: int)
    requires
        0 <= k <= ls.len(),
        forall|m: int| 0 <= m < ls.len() ==> plain_line(#[trigger] ls[m]),
    ensures
        lines(join_lines(ls, k)) == ls.take(k),
    decreases k,
{
    if k == 0 {
        assert(ls.take(0) =~= Seq::<Seq<char>>::empty());
    } else if k == 1 {
        assert(plain_line(ls[0]));
        lemma_lines_single(ls[0]);
        assert(ls.take(1) =~= seq![ls[0]]);
    } else {
        lemma_lines_of_join(ls, k - 1);
        assert(plain_line(ls[k - 2]));
        assert(plain_line(ls[k - 1]));
        lemma_join_ends(ls, k - 1);
        let a = join_lines(ls, k - 1);
        assert(a.last() != '\n') by {
            assert(ls[k - 2][ls[k - 2].len() - 1] != '\n');
        }
        lemma_lines_join(a, ls[k - 1]);
        lemma_lines_single(ls[k - 1]);
        assert(ls.take(k) =~= ls.take(k - 1) + seq![ls[k - 1]]);
    }
}

/// A line as cleaning leaves it: not empty, without `'\n'`, starting and ending
/// with a character that is not white space.
pub open spec fn tidy_line(l: Seq<char>) -> bool {
    l.len() > 0 && no_newline(l) && !is_white(l[0]) && !is_white(l.last())
}

proof fn lemma_kept_tidy(ls: Seq<Seq<char>>, k: int, drop_hash: bool)
    requires
        0 <= k <= ls.len(),
        forall|m: int| 0 <= m < ls.len() ==> no_newline(#[trigger] ls[m]),
    ensures
        forall|m: int|
            0 <= m < kept_lines(ls, k, drop_hash).len() ==> tidy_line(
                #[trigger] kept_lines(ls, k, drop_hash)[m],
            ) && !(drop_hash && kept_lines(ls, k, drop_hash)[m][0] == '#'),
    decreases k,
{
    if k > 0 {
        lemma_kept_tidy(ls, k - 1, drop_hash);
        assert(no_newline(ls[k - 1]));
        lemma_trim_ends(ls[k - 1]);
        let before = kept_lines(ls, k - 1, drop_hash);
        if kept(trim(ls[k - 1]), drop_hash) {
            assert forall|m: int| 0 <= m < kept_lines(ls, k, drop_hash).len() implies tidy_line(
                #[trigger] kept_lines(ls, k, drop_hash)[m],
            ) && !(drop_hash && kept_lines(ls, k, drop_hash)[m][0] == '#') by {
                if m < before.len() {
                    assert(kept_lines(ls, k, drop_hash)[m] == before[m]);
                }
            }
        }
    }
}

/// Every line of a cleaned text is non-empty and trimmed; where `drop_hash`
/// holds, none starts with `#`.
pub proof fn lemma_cleaned_lines(s: Seq<char>, drop_hash: bool)
    ensures
        forall|m: int|
            0 <= m < lines(cleaned(s, drop_hash)).len() ==> {
                let l = #[trigger] lines(cleaned(s, drop_hash))[m];
                l.len() > 0 && trim(l) == l && !(drop_hash && l[0] == '#')
            },
{
    let t = without_comments(s);
    let ls = lines(t);
    lemma_lines_no_newline(t, 0);
    let k = kept_lines(ls, ls.len() as int, drop_hash);
    lemma_kept_tidy(ls, ls.len() as int, drop_hash);
    assert forall|m: int| 0 <= m < k.len() implies plain_line(#[trigger] k[m]) by {
        assert(tidy_line(k[m]));
    }
    lemma_lines_of_join(k, k.len() as int);
    assert(k.take(k.len() as int) == k);
    assert forall|m: int| 0 <= m < lines(cleaned(s, drop_hash)).len() implies {
        let l = #[trigger] lines(cleaned(s, drop_hash))[m];
        l.len() > 0 && trim(l) == l && !(drop_hash && l[0] == '#')
    } by {
        assert(tidy_line(k[m]));
        lemma_trim_fixed(k[m]);
    }
}

proof fn lemma_kept_contains(ls: Seq<Seq<char>>, k: int, j: int, drop_hash: bool)
    requires
        0 <= j < k <= ls.len(),
        kept(trim(ls[j]), drop_hash),
    ensures
        kept_lines(ls, k, drop_hash).contains(trim(ls[j])),
    decreases k,
{
    let x = trim(ls[j]);
    let r = kept_lines(ls, k, drop_hash);
    if j == k - 1 {
        assert(r[r.len() - 1] == x);
    } else {
        lemma_kept_contains(ls, k - 1, j, drop_hash);
        let before = kept_lines(ls, k - 1, drop_hash);
        let i = choose|i: int| 0 <= i < before.len() && before[i] == x;
        if kept(trim(ls[k - 1]), drop_hash) {
            assert(r[i] == x);
        }
    }
}

/// Law: cleaning drops only the lines that are empty once trimmed, and, where
/// `drop_hash` holds, those starting with `#`. Every other line of the text
/// without comments is, trimmed, a line of the cleaned text.
pub proof fn lemma_cleaned_keeps_lines(s: Seq<char>, drop_hash: bool, j: int)
    requires
        0 <= j < lines(without_comments(s)).len(),
        trim(lines(without_comments(s))[j]).len() > 0,
        !(drop_hash && trim(lines(without_comments(s))[j])[0] == '#'),
    ensures
        lines(cleaned(s, drop_hash)).contains(trim(lines(without_comments(s))[j])),
{
    let t = without_comments(s);
    let ls = lines(t);
    lemma_lines_no_newline(t, 0);
    let k = kept_lines(ls, ls.len() as int, drop_hash);
    lemma_kept_tidy(ls, ls.len() as int, drop_hash);
    assert forall|m: int| 0 <= m < k.len() implies plain_line(#[trigger] k[m]) by {
        assert(tidy_line(k[m]));
    }
    lemma_lines_of_join(k, k.len() as int);
    assert(k.take(k.len() as int) == k);
    lemma_kept_contains(ls, ls.len() as int, j, drop_hash);
}

/// No two `/` in a row: no line comment is left in `t`.
pub open spec fn no_line_comment(t: Seq<char>) -> bool {
    forall|k: int| 0 <= k < t.len() - 1 ==> !(#[trigger] t[k] == '/' && t[k + 1] == '/')
}

pub proof fn lemma_no_line_comment_subrange(t: Seq<char>, a: int, b: int)
    requires
        0 <= a <= b <= t.len(),
        no_line_comment(t),
    ensures
        no_line_comment(t.subrange(a, b)),
{
    let u = t.subrange(a, b);
    assert forall|k: int| 0 <= k < u.len() - 1 implies !(#[trigger] u[k] == '/' && u[k + 1] == '/') by {
        assert(u[k] == t[a + k] && u[k + 1] == t[a + k + 1]);
    }
}

/// What line-comment removal leaves holds no `//`; it starts with `'\n'`, or
/// with `s[i]` where no `//` starts at `i`.
proof fn lemma_without_line_comments(s: Seq<char>, i: int)
    requires
        0 <= i <= s.len(),
    ensures
        no_line_comment(without_line_comments(s, i)),
        without_line_comments(s, i).len() > 0 ==> without_line_comments(s, i)[0] == '\n' || (
        without_line_comments(s, i)[0] == s[i] && !occurs_at(s, line_open(), i)),
    decreases s.len() - i,
{
    if i < s.len() {
        if occurs_at(s, line_open(), i) {
            lemma_next_newline_range(s, i);
            assert(s.subrange(i, i + 2)[0] == s[i]);
            let j = next_newline(s, i);
            lemma_without_line_comments(s, j);
        } else {
            lemma_without_line_comments(s, i + 1);
            let rest = without_line_comments(s, i + 1);
            let r = without_line_comments(s, i);
            assert(r == seq![s[i]] + rest);
            assert forall|k: int| 0 <= k < r.len() - 1 implies !(#[trigger] r[k] == '/' && r[k + 1]
                == '/') by {
                if k == 0 {
                    if s[i] == '/' && rest[0] == '/' {
                        assert(s.subrange(i, i + 2) =~= line_open());
                    }
                } else {
                    assert(r[k] == rest[k - 1] && r[k + 1] == rest[k]);
                }
            }
        }
    }
}

/// No line of a text without `//` holds one.
proof fn lemma_lines_no_line_comment(s: Seq<char>, i: int)
    requires
        0 <= i <= s.len(),
        no_line_comment(s),
    ensures
        forall|m: int|
            0 <= m < lines_from(s, i).len() ==> no_line_comment(#[trigger] lines_from(s, i)[m]),
    decreases s.len() - i,
{
    if i < s.len() {
        let j = next_newline(s, i);
        lemma_next_newline_range(s, i);
        let x = s.subrange(i, j);
        lemma_no_line_comment_subrange(s, i, j);
        lemma_no_line_comment_subrange(x, 0, if x.len() > 0 { x.len() - 1 } else { 0 });
        assert(no_line_comment(strip_cr(x))) by {
            if x.len() > 0 && x.last() == '\r' {
                assert(strip_cr(x) =~= x.subrange(0, x.len() - 1));
            }
        }
        if j < s.len() {
            lemma_lines_no_line_comment(s, j + 1);
            let rest = lines_from(s, j + 1);
            assert forall|m: int| 0 <= m < lines_from(s, i).len() implies no_line_comment(
                #[trigger] lines_from(s, i)[m],
            ) by {
                if m > 0 {
                    assert(lines_from(s, i)[m] == rest[m - 1]);
                }
            }
        } else {
            assert(lines_from(s, i) == seq![x]);
        }
    }
}

/// Trimming a text without `//` leaves none.
pub proof fn lemma_trim_no_line_comment(l: Seq<char>)
    requires
        no_line_comment(l),
    ensures
        no_line_comment(trim(l)),
{
    lemma_skip_white_range(l, 0);
    lemma_back_white_range(l, l.len() as int);
    if skip_white(l, 0) < back_white(l, l.len() as int) {
        lemma_no_line_comment_subrange(l, skip_white(l, 0), back_white(l, l.len() as int));
    }
}

/// Joining lines without `//` by `'\n'` makes none.
pub proof fn lemma_join_no_line_comment(ls: Seq<Seq<char>>, k: int)
    requires
        0 <= k <= ls.len(),
        forall|m: int| 0 <= m < ls.len() ==> no_line_comment(#[trigger] ls[m]),
    ensures
        no_line_comment(join_lines(ls, k)),
    decreases k,
{
    if k == 1 {
        assert(no_line_comment(ls[0]));
    } else if k > 1 {
        lemma_join_no_line_comment(ls, k - 1);
        let a = join_lines(ls, k - 1);
        let b = ls[k - 1];
        assert(no_line_comment(b));
        let r = a + seq!['\n'] + b;
        assert forall|i: int| 0 <= i < r.len() - 1 implies !(#[trigger] r[i] == '/' && r[i + 1]
            == '/') by {
            if i + 1 < a.len() {
                assert(r[i] == a[i] && r[i + 1] == a[i + 1]);
            } else if i > a.len() {
                assert(r[i] == b[i - a.len() - 1] && r[i + 1] == b[i - a.len()]);
            } else if i == a.len() {
                assert(r[i] == '\n');
            } else {
                assert(r[i + 1] == '\n');
            }
        }
    }
}

proof fn lemma_kept_no_line_comment(ls: Seq<Seq<char>>, k: int, drop_hash: bool)
    requires
        0 <= k <= ls.len(),
        forall|m: int| 0 <= m < ls.len() ==> no_line_comment(#[trigger] ls[m]),
    ensures
        forall|m: int|
            0 <= m < kept_lines(ls, k, drop_hash).len() ==> no_line_comment(
                #[trigger] kept_lines(ls, k, drop_hash)[m],
            ),
    decreases k,
{
    if k > 0 {
        lemma_kept_no_line_comment(ls, k - 1, drop_hash);
        assert(no_line_comment(ls[k - 1]));
        lemma_trim_no_line_comment(ls[k - 1]);
        let before = kept_lines(ls, k - 1, drop_hash);
        if kept(trim(ls[k - 1]), drop_hash) {
            assert forall|m: int| 0 <= m < kept_lines(ls, k, drop_hash).len() implies no_line_comment(
                #[trigger] kept_lines(ls, k, drop_hash)[m],
            ) by {
                if m < before.len() {
                    assert(kept_lines(ls, k, drop_hash)[m] == before[m]);
                }
            }
        }
    }
}

/// The lines of `s` once comments are removed: none holds `//`.
pub proof fn lemma_uncommented_lines(s: Seq<char>)
    ensures
        forall|m: int|
            0 <= m < lines(without_comments(s)).len() ==> no_line_comment(
                #[trigger] lines(without_comments(s))[m],
            ),
{
    let b = without_block_comments(s, 0);
    lemma_without_line_comments(b, 0);
    lemma_lines_no_line_comment(without_comments(s), 0);
}

/// No line comment is left in a cleaned text: it holds no `//`.
pub proof fn lemma_cleaned_no_line_comment(s: Seq<char>, drop_hash: bool)
    ensures
        no_line_comment(cleaned(s, drop_hash)),
{
    let ls = lines(without_comments(s));
    lemma_uncommented_lines(s);
    lemma_kept_no_line_comment(ls, ls.len() as int, drop_hash);
    let k = kept_lines(ls, ls.len() as int, drop_hash);
    lemma_join_no_line_comment(k, k.len() as int);
}

/// `without_comments(s)`.
pub fn remove_comments(s: &str) -> (r: String)
    ensures
        r@ == without_comments(s@),
{
    let t = strip_block_comments(s);
    strip_line_comments(t.as_str())
}

/// The lines of `text`, trimmed, those not kept dropped.
pub fn kept_trimmed_lines(text: &str, drop_hash: bool) -> (r: Vec<Vec<char>>)
    ensures
        views(r@) == kept_lines(lines(text@), lines(text@).len() as int, drop_hash),
{
    let chars = chars_of(text);
    let ls = split_lines(&chars);
    let ghost lv = lines(text@);
    let mut r: Vec<Vec<char>> = Vec::new();
    let mut k: usize = 0;
    while k < ls.len()
        invariant
            views(ls@) == lv,
            k <= ls@.len(),
            views(r@) == kept_lines(lv, k as int, drop_hash),
        decreases ls.len() - k,
    {
        assert(views(ls@)[k as int] == ls@[k as int]@);
        let t = trim_chars(&ls[k]);
        if t.len() > 0 && !(drop_hash && t[0] == '#') {
            let ghost before = views(r@);
            r.push(t);
            assert(views(r@) == before.push(t@));
        }
        k += 1;
    }
    assert(views(ls@).len() == ls@.len());
    r
}

/// `joined(ls)`.
pub fn join_with_newlines(ls: &Vec<Vec<char>>) -> (s: String)
    ensures
        s@ == joined(views(ls@)),
{
    let mut s = String::new();
    let ghost lv = views(ls@);
    let mut k: usize = 0;
    while k < ls.len()
        invariant
            lv == views(ls@),
            k <= ls@.len(),
            s@ == join_lines(lv, k as int),
        decreases ls.len() - k,
    {
        assert(lv[k as int] == ls@[k as int]@);
        if k > 0 {
            push_char(&mut s, '\n');
        }
        push_chars(&mut s, &ls[k]);
        k += 1;
    }
    s
}

/// `cleaned(input, drop_hash)`.
pub fn clean_text(input: &str, drop_hash: bool) -> (s: String)
    ensures
        s@ == cleaned(input@, drop_hash),
{
    let text = remove_comments(input);
    let ls = kept_trimmed_lines(text.as_str(), drop_hash);
    join_with_newlines(&ls)
}

// ---------------------------------------------------------------------------
// Cleaning never makes a text longer in UTF-8.
proof fn lemma_utf8_single(c: char)
    ensures
        utf8_len(seq![c]) == utf8_width(c),
{
    assert(seq![c].drop_last() =~= Seq::<char>::empty());
    assert(utf8_len(Seq::<char>::empty()) == 0);
    assert(seq![c].last() == c);
}

/// `s[i..]` is `s[i]` followed by `s[i + 1..]`.
proof fn lemma_utf8_tail(s: Seq<char>, i: int)
    requires
        0 <= i < s.len(),
    ensures
        utf8_len(s.subrange(i, s.len() as int)) == utf8_width(s[i]) + utf8_len(
            s.subrange(i + 1, s.len() as int),
        ),
{
    lemma_utf8_single(s[i]);
    lemma_utf8_len_concat(seq![s[i]], s.subrange(i + 1, s.len() as int));
    assert(seq![s[i]] + s.subrange(i + 1, s.len() as int) =~= s.subrange(i, s.len() as int));
}

/// A later suffix takes no more bytes.
proof fn lemma_utf8_suffix(s: Seq<char>, b: int, a: int)
    requires
        0 <= b <= a <= s.len(),
    ensures
        utf8_len(s.subrange(a, s.len() as int)) <= utf8_len(s.subrange(b, s.len() as int)),
{
    lemma_utf8_len_concat(s.subrange(b, a), s.subrange(a, s.len() as int));
    assert(s.subrange(b, a) + s.subrange(a, s.len() as int) =~= s.subrange(b, s.len() as int));
}

proof fn lemma_block_utf8(s: Seq<char>, i: int)
    requires
        0 <= i <= s.len(),
    ensures
        utf8_len(without_block_comments(s, i)) <= utf8_len(s.subrange(i, s.len() as int)),
    decreases s.len() - i,
{
    if i < s.len() {
        if occurs_at(s, block_open(), i) && find_from(s, block_close(), i + 2) >= 0 {
            let j = find_from(s, block_close(), i + 2);
            lemma_find_from(s, block_close(), i + 2);
            lemma_block_utf8(s, j + 2);
            lemma_utf8_suffix(s, i, j + 2);
        } else {
            lemma_block_utf8(s, i + 1);
            lemma_utf8_single(s[i]);
            lemma_utf8_len_concat(seq![s[i]], without_block_comments(s, i + 1));
            lemma_utf8_tail(s, i);
        }
    }
}

proof fn lemma_line_comment_utf8(s: Seq<char>, i: int)
    requires
        0 <= i <= s.len(),
    ensures
        utf8_len(without_line_comments(s, i)) <= utf8_len(s.subrange(i, s.len() as int)),
    decreases s.len() - i,
{
    if i < s.len() {
        if occurs_at(s, line_open(), i) {
            lemma_next_newline_range(s, i);
            assert(s.subrange(i, i + 2)[0] == s[i]);
            let j = next_newline(s, i);
            lemma_line_comment_utf8(s, j);
            lemma_utf8_suffix(s, i, j);
        } else {
            lemma_line_comment_utf8(s, i + 1);
            lemma_utf8_single(s[i]);
            lemma_utf8_len_concat(seq![s[i]], without_line_comments(s, i + 1));
            lemma_utf8_tail(s, i);
        }
    }
}

/// Bytes of the pieces of `ls`, each counted with one byte more for its line end.
pub open spec fn utf8_total(ls: Seq<Seq<char>>) -> nat
    decreases ls.len(),
{
    if ls.len() == 0 {
        0
    } else {
        utf8_total(ls.drop_last()) + utf8_len(ls.last()) + 1
    }
}

proof fn lemma_utf8_total_concat(a: Seq<Seq<char>>, b: Seq<Seq<char>>)
    ensures
        utf8_total(a + b) == utf8_total(a) + utf8_total(b),
    decreases b.len(),
{
    if b.len() > 0 {
        lemma_utf8_total_concat(a, b.drop_last());
        assert((a + b).drop_last() == a + b.drop_last());
    } else {
        assert(a + b == a);
    }
}

proof fn lemma_utf8_total_single(x: Seq<char>)
    ensures
        utf8_total(seq![x]) == utf8_len(x) + 1,
{
    assert(seq![x].drop_last() =~= Seq::<Seq<char>>::empty());
    assert(utf8_total(Seq::<Seq<char>>::empty()) == 0);
}

proof fn lemma_join_utf8(ls: Seq<Seq<char>>, k: int)
    requires
        1 <= k <= ls.len(),
    ensures
        utf8_len(join_lines(ls, k)) + 1 == utf8_total(ls.take(k)),
    decreases k,
{
    if k == 1 {
        assert(ls.take(1) =~= seq![ls[0]]);
        lemma_utf8_total_single(ls[0]);
    } else {
        lemma_join_utf8(ls, k - 1);
        lemma_utf8_len_concat(join_lines(ls, k - 1), seq!['\n']);
        lemma_utf8_len_concat(join_lines(ls, k - 1) + seq!['\n'], ls[k - 1]);
        lemma_utf8_single('\n');
        assert(ls.take(k).drop_last() == ls.take(k - 1));
    }
}

proof fn lemma_kept_utf8(ls: Seq<Seq<char>>, k: int, drop_hash: bool)
    requires
        0 <= k <= ls.len(),
    ensures
        utf8_total(kept_lines(ls, k, drop_hash)) <= utf8_total(ls.take(k)),
    decreases k,
{
    if k > 0 {
        lemma_kept_utf8(ls, k - 1, drop_hash);
        lemma_trim_len(ls[k - 1]);
        assert(ls.take(k).drop_last() == ls.take(k - 1));
        if kept(trim(ls[k - 1]), drop_hash) {
            assert(kept_lines(ls, k, drop_hash).drop_last() == kept_lines(ls, k - 1, drop_hash));
        }
    }
}

proof fn lemma_lines_utf8_total(s: Seq<char>, i: int)
    requires
        0 <= i <= s.len(),
    ensures
        utf8_total(lines_from(s, i)) <= utf8_len(s.subrange(i, s.len() as int)) + 1,
    decreases s.len() - i,
{
    if i < s.len() {
        let j = next_newline(s, i);
        lemma_next_newline_range(s, i);
        let x = s.subrange(i, j);
        lemma_utf8_len_concat(x, s.subrange(j, s.len() as int));
        assert(x + s.subrange(j, s.len() as int) =~= s.subrange(i, s.len() as int));
        if j < s.len() {
            lemma_lines_utf8_total(s, j + 1);
            lemma_utf8_tail(s, j);
            lemma_utf8_total_concat(seq![strip_cr(x)], lines_from(s, j + 1));
            lemma_utf8_total_single(strip_cr(x));
            if x.len() > 0 && x.last() == '\r' {
                lemma_utf8_len_concat(x.drop_last(), seq![x.last()]);
                assert(x.drop_last() + seq![x.last()] =~= x);
            }
        } else {
            lemma_utf8_total_single(x);
            assert(s.subrange(j, s.len() as int) =~= Seq::<char>::empty());
        }
    } else {
        assert(utf8_total(Seq::<Seq<char>>::empty()) == 0);
    }
}

/// Cleaning never makes a text longer in UTF-8.
pub proof fn lemma_cleaned_utf8(s: Seq<char>, drop_hash: bool)
    ensures
        utf8_len(cleaned(s, drop_hash)) <= utf8_len(s),
{
    lemma_block_utf8(s, 0);
    assert(s.subrange(0, s.len() as int) == s);
    let b = without_block_comments(s, 0);
    lemma_line_comment_utf8(b, 0);
    assert(b.subrange(0, b.len() as int) == b);
    let t = without_comments(s);
    let ls = lines(t);
    let k = kept_lines(ls, ls.len() as int, drop_hash);
    lemma_lines_utf8_total(t, 0);
    assert(t.subrange(0, t.len() as int) == t);
    lemma_kept_utf8(ls, ls.len() as int, drop_hash);
    assert(ls.take(ls.len() as int) == ls);
    if k.len() > 0 {
        lemma_join_utf8(k, k.len() as int);
        assert(k.take(k.len() as int) == k);
    }
}

} // verus!
