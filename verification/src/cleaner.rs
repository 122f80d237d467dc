//! The first stage: diagnostics on raw source (unclosed comments, characters
//! outside ASCII), cleaning of comments and blank runs, and a line-level check
//! of the cleaned code before it is compiled.
use vstd::prelude::*;
use vstd::string::StringExecFns;
use crate::text::{
    chars_of, contains_sub, contains_sub_exec, decimal, int_decimal, is_ascii_char, lines,
    occurs_at, occurs_at_exec, push_char, push_chars, push_decimal, push_int_decimal,
    push_spaces, push_str, spaces, split_lines, string_of, trim, trim_chars, utf8_len,
    utf8_len_of, views, lemma_utf8_len_subrange, lemma_lines_utf8, lemma_utf8_len_bounds,
    count_char, count_char_exec, lemma_count_char_bound, lemma_lines_total, lemma_total_len_concat,
    lemma_trim_len, total_len, no_newline, is_white, lemma_lines_no_newline, lemma_trim_ends,
    lemma_trim_fixed,
};
use crate::pointer::{byte_column, line_at, line_number, locate};
use crate::cleaning::{
    joined, join_with_newlines, remove_comments, squeeze_blank_runs, squeeze_blanks,
    without_comments, is_blank, skip_blanks, lemma_skip_blanks, tidy_line, plain_line,
    lemma_lines_of_join, no_line_comment, lemma_trim_no_line_comment, lemma_uncommented_lines,
    lemma_join_no_line_comment,
};

verus! {

pub struct CleanResult {
    pub cleaned_code: String,
    pub messages: Vec<String>,
    pub errors: Vec<String>,
}

pub open spec fn strs(v: Seq<String>) -> Seq<Seq<char>> {
    v.map_values(|s: String| s@)
}

/// `msg (строка L, колонка C)`, the line that holds `pos`, and a caret under `pos`.
pub open spec fn error_pointer(s: Seq<char>, pos: int, msg: Seq<char>) -> Seq<char> {
    let col = byte_column(s, pos);
    msg + " (строка "@ + decimal(line_number(s, pos)) + ", колонка "@ + decimal(col + 1) + ")\n"@
        + line_at(s, pos) + "\n"@ + spaces(col) + "^"@
}

/// The message for character `pos` of `input` (a position within it), pointing at it.
pub fn get_error_pointer(input: &[char], pos: usize, msg: &str) -> (s: String)
    requires
        pos <= input.len(),
        utf8_len(input@) < usize::MAX,
    ensures
        s@ == error_pointer(input@, pos as int, msg@),
{
    let (line_num, col, line) = locate(input, pos);
    let mut s = String::from_str(msg);
    push_str(&mut s, " (строка ");
    push_decimal(&mut s, line_num);
    push_str(&mut s, ", колонка ");
    push_decimal(&mut s, col + 1);
    push_str(&mut s, ")\n");
    push_chars(&mut s, &line);
    push_str(&mut s, "\n");
    push_spaces(&mut s, col);
    push_str(&mut s, "^");
    s
}

pub open spec fn invalid_char_msg(c: char) -> Seq<char> {
    "Недопустимый символ '"@ + seq![c] + "'"@
}

/// Errors for the characters outside ASCII among the first `k` of `s`, in order.
pub open spec fn invalid_char_errors(s: Seq<char>, k: int) -> Seq<Seq<char>>
    decreases k,
{
    if k <= 0 || k > s.len() {
        Seq::empty()
    } else if !is_ascii_char(s[k - 1]) {
        invalid_char_errors(s, k - 1).push(error_pointer(s, k - 1, invalid_char_msg(s[k - 1])))
    } else {
        invalid_char_errors(s, k - 1)
    }
}

/// One error per character outside ASCII, pointing at it.
pub fn check_invalid_chars(input: &[char]) -> (errors: Vec<String>)
    requires
        utf8_len(input@) < usize::MAX,
    ensures
        strs(errors@) == invalid_char_errors(input@, input@.len() as int),
{
    let mut errors: Vec<String> = Vec::new();
    let mut i: usize = 0;
    while i < input.len()
        invariant
            i <= input.len(),
            utf8_len(input@) < usize::MAX,
            strs(errors@) == invalid_char_errors(input@, i as int),
        decreases input.len() - i,
    {
        let ch = input[i];
        if !(ch < '\u{80}' || ch == '\n' || ch == '\t' || ch == '\r') {
            let mut msg = String::from_str("Недопустимый символ '");
            push_char(&mut msg, ch);
            push_str(&mut msg, "'");
            assert(msg@ =~= invalid_char_msg(ch));
            let e = get_error_pointer(input, i, msg.as_str());
            let ghost before = strs(errors@);
            errors.push(e);
            assert(strs(errors@) == before.push(e@));
        }
        i += 1;
    }
    errors
}

/// Number of occurrences of `p` starting in `s[..k]`.
pub open spec fn count_occurrences(s: Seq<char>, p: Seq<char>, k: int) -> nat
    decreases k,
{
    if k <= 0 {
        0
    } else if occurs_at(s, p, k - 1) {
        count_occurrences(s, p, k - 1) + 1
    } else {
        count_occurrences(s, p, k - 1)
    }
}

/// The last index below `k` where `p` occurs in `s`, or `-1`.
pub open spec fn last_occurrence(s: Seq<char>, p: Seq<char>, k: int) -> int
    decreases k,
{
    if k <= 0 {
        -1
    } else if occurs_at(s, p, k - 1) {
        k - 1
    } else {
        last_occurrence(s, p, k - 1)
    }
}

pub open spec fn unclosed_msg() -> Seq<char> {
    "Ошибка: незакрытый многострочный комментарий"@
}

/// When `s` opens more `/*` than it closes with `*/`, an error pointing at the
/// last `/*`. (Neither pattern can overlap itself, so counting every occurrence
/// counts the non-overlapping matches.)
pub open spec fn unclosed_multiline(s: Seq<char>) -> Option<Seq<char>> {
    let n = s.len() as int;
    if count_occurrences(s, "/*"@, n) > count_occurrences(s, "*/"@, n) {
        Some(error_pointer(s, last_occurrence(s, "/*"@, n), unclosed_msg()))
    } else {
        None
    }
}

pub proof fn lemma_last_occurrence(s: Seq<char>, p: Seq<char>, k: int)
    requires
        0 <= k,
    ensures
        count_occurrences(s, p, k) > 0 ==> 0 <= last_occurrence(s, p, k) < k,
    decreases k,
{
    if k > 0 && !occurs_at(s, p, k - 1) {
        lemma_last_occurrence(s, p, k - 1);
    }
}

pub fn check_unclosed_multiline(input: &[char]) -> (r: Option<String>)
    requires
        utf8_len(input@) < usize::MAX,
    ensures
        match r {
            Some(e) => unclosed_multiline(input@) == Some(e@),
            None => unclosed_multiline(input@) is None,
        },
{
    let mut opens: usize = 0;
    let mut closes: usize = 0;
    let mut last_open: usize = 0;
    let mut i: usize = 0;
    while i < input.len()
        invariant
            i <= input.len(),
            opens == count_occurrences(input@, "/*"@, i as int),
            closes == count_occurrences(input@, "*/"@, i as int),
            opens <= i,
            closes <= i,
            opens > 0 ==> last_open == last_occurrence(input@, "/*"@, i as int),
        decreases input.len() - i,
    {
        if occurs_at_exec(input, "/*", i) {
            opens += 1;
            last_open = i;
        }
        if occurs_at_exec(input, "*/", i) {
            closes += 1;
        }
        i += 1;
    }
    if opens > closes {
        proof {
            lemma_last_occurrence(input@, "/*"@, input@.len() as int);
        }
        Some(get_error_pointer(input, last_open, "Ошибка: незакрытый многострочный комментарий"))
    } else {
        None
    }
}

/// The first `k` lines of `ls`, trimmed and with blank runs squeezed, empty ones dropped.
pub open spec fn squeezed_lines(ls: Seq<Seq<char>>, k: int) -> Seq<Seq<char>>
    decreases k,
{
    if k <= 0 || k > ls.len() {
        Seq::empty()
    } else {
        let l = squeeze_blanks(trim(ls[k - 1]), 0);
        if l.len() > 0 {
            squeezed_lines(ls, k - 1).push(l)
        } else {
            squeezed_lines(ls, k - 1)
        }
    }
}

/// The cleaned text: comments removed, each line trimmed and its blank runs
/// squeezed to one space, empty lines dropped, the rest joined by `'\n'`.
pub open spec fn cleaned_code(s: Seq<char>) -> Seq<char> {
    let ls = lines(without_comments(s));
    joined(squeezed_lines(ls, ls.len() as int))
}

/// `l` holds no tab and no two spaces in a row.
pub open spec fn single_spaced(l: Seq<char>) -> bool {
    &&& forall|k: int| 0 <= k < l.len() ==> l[k] != '\t'
    &&& forall|k: int| 0 <= k < l.len() - 1 ==> !(#[trigger] l[k] == ' ' && l[k + 1] == ' ')
}

/// Squeezing `s[i..]` leaves no tab, no two spaces in a row and no new `'\n'`;
/// it starts with a space where `s[i]` is blank and with `s[i]` otherwise, and
/// ends as `s` does where that end is not blank.
proof fn lemma_squeeze(s: Seq<char>, i: int)
    requires
        0 <= i <= s.len(),
    ensures
        i < s.len() ==> squeeze_blanks(s, i).len() > 0 && squeeze_blanks(s, i)[0] == (if is_blank(
            s[i],
        ) {
            ' '
        } else {
            s[i]
        }),
        single_spaced(squeeze_blanks(s, i)),
        no_newline(s) ==> no_newline(squeeze_blanks(s, i)),
        no_line_comment(s) ==> no_line_comment(squeeze_blanks(s, i)),
        i < s.len() && !is_blank(s.last()) ==> squeeze_blanks(s, i).last() == s.last(),
    decreases s.len() - i,
{
    if i < s.len() {
        let r = squeeze_blanks(s, i);
        if is_blank(s[i]) {
            lemma_skip_blanks(s, i);
            let p = skip_blanks(s, i);
            lemma_squeeze(s, p);
            let rest = squeeze_blanks(s, p);
            assert(r == seq![' '] + rest);
            assert(single_spaced(r)) by {
                assert forall|k: int| 0 <= k < r.len() - 1 implies !(#[trigger] r[k] == ' ' && r[k + 1] == ' ') by {
                    if k > 0 {
                        assert(r[k] == rest[k - 1] && r[k + 1] == rest[k]);
                    }
                }
                assert forall|k: int| 0 <= k < r.len() implies r[k] != '\t' by {
                    if k > 0 {
                        assert(r[k] == rest[k - 1]);
                    }
                }
            }
            assert(no_newline(s) ==> no_newline(r)) by {
                if no_newline(s) {
                    assert forall|k: int| 0 <= k < r.len() implies r[k] != '\n' by {
                        if k > 0 {
                            assert(r[k] == rest[k - 1]);
                        }
                    }
                }
            }
            assert(no_line_comment(s) ==> no_line_comment(r)) by {
                if no_line_comment(s) {
                    assert forall|k: int| 0 <= k < r.len() - 1 implies !(#[trigger] r[k] == '/'
                        && r[k + 1] == '/') by {
                        if k > 0 {
                            assert(r[k] == rest[k - 1] && r[k + 1] == rest[k]);
                        }
                    }
                }
            }
            if !is_blank(s.last()) {
                assert(p < s.len()) by {
                    if p >= s.len() {
                        assert(is_blank(s[s.len() - 1]));
                    }
                }
            }
        } else {
            lemma_squeeze(s, i + 1);
            let rest = squeeze_blanks(s, i + 1);
            assert(r == seq![s[i]] + rest);
            assert(single_spaced(r)) by {
                assert forall|k: int| 0 <= k < r.len() - 1 implies !(#[trigger] r[k] == ' ' && r[k + 1] == ' ') by {
                    if k > 0 {
                        assert(r[k] == rest[k - 1] && r[k + 1] == rest[k]);
                    }
                }
                assert forall|k: int| 0 <= k < r.len() implies r[k] != '\t' by {
                    if k > 0 {
                        assert(r[k] == rest[k - 1]);
                    }
                }
            }
            assert(no_newline(s) ==> no_newline(r)) by {
                if no_newline(s) {
                    assert forall|k: int| 0 <= k < r.len() implies r[k] != '\n' by {
                        if k > 0 {
                            assert(r[k] == rest[k - 1]);
                        }
                    }
                }
            }
            assert(no_line_comment(s) ==> no_line_comment(r)) by {
                if no_line_comment(s) {
                    assert forall|k: int| 0 <= k < r.len() - 1 implies !(#[trigger] r[k] == '/'
                        && r[k + 1] == '/') by {
                        if k > 0 {
                            assert(r[k] == rest[k - 1] && r[k + 1] == rest[k]);
                        } else if i + 1 < s.len() && s[i] == '/' && s[i + 1] == '/' {
                            assert(s[i] == '/' && s[i + 1] == '/');
                        }
                    }
                }
            }
        }
    }
}

proof fn lemma_squeezed_tidy(ls: Seq<Seq<char>>, k: int)
    requires
        0 <= k <= ls.len(),
        forall|m: int| 0 <= m < ls.len() ==> no_newline(#[trigger] ls[m]),
        forall|m: int| 0 <= m < ls.len() ==> no_line_comment(#[trigger] ls[m]),
    ensures
        forall|m: int|
            0 <= m < squeezed_lines(ls, k).len() ==> tidy_line(#[trigger] squeezed_lines(ls, k)[m])
                && single_spaced(squeezed_lines(ls, k)[m]) && no_line_comment(
                squeezed_lines(ls, k)[m],
            ),
    decreases k,
{
    if k > 0 {
        lemma_squeezed_tidy(ls, k - 1);
        let x = trim(ls[k - 1]);
        assert(no_newline(ls[k - 1]));
        assert(no_line_comment(ls[k - 1]));
        lemma_trim_ends(ls[k - 1]);
        lemma_trim_no_line_comment(ls[k - 1]);
        lemma_squeeze(x, 0);
        let l = squeeze_blanks(x, 0);
        let before = squeezed_lines(ls, k - 1);
        if l.len() > 0 {
            assert(tidy_line(l)) by {
                assert(x.len() > 0);
            }
            assert forall|m: int| 0 <= m < squeezed_lines(ls, k).len() implies tidy_line(
                #[trigger] squeezed_lines(ls, k)[m],
            ) && single_spaced(squeezed_lines(ls, k)[m]) && no_line_comment(
                squeezed_lines(ls, k)[m],
            ) by {
                if m < before.len() {
                    assert(squeezed_lines(ls, k)[m] == before[m]);
                }
            }
        }
    }
}

/// Every line of the cleaned code is non-empty and trimmed, with no tab and no
/// two spaces in a row.
pub proof fn lemma_cleaned_code_lines(s: Seq<char>)
    ensures
        forall|m: int|
            0 <= m < lines(cleaned_code(s)).len() ==> {
                let l = #[trigger] lines(cleaned_code(s))[m];
                l.len() > 0 && trim(l) == l && single_spaced(l)
            },
{
    let t = without_comments(s);
    let ls = lines(t);
    lemma_lines_no_newline(t, 0);
    lemma_uncommented_lines(s);
    let k = squeezed_lines(ls, ls.len() as int);
    lemma_squeezed_tidy(ls, ls.len() as int);
    assert forall|m: int| 0 <= m < k.len() implies plain_line(#[trigger] k[m]) by {
        assert(tidy_line(k[m]));
    }
    lemma_lines_of_join(k, k.len() as int);
    assert(k.take(k.len() as int) == k);
    assert forall|m: int| 0 <= m < lines(cleaned_code(s)).len() implies {
        let l = #[trigger] lines(cleaned_code(s))[m];
        l.len() > 0 && trim(l) == l && single_spaced(l)
    } by {
        assert(tidy_line(k[m]));
        lemma_trim_fixed(k[m]);
    }
}

proof fn lemma_squeezed_contains(ls: Seq<Seq<char>>, k: int, j: int)
    requires
        0 <= j < k <= ls.len(),
        squeeze_blanks(trim(ls[j]), 0).len() > 0,
    ensures
        squeezed_lines(ls, k).contains(squeeze_blanks(trim(ls[j]), 0)),
    decreases k,
{
    let x = squeeze_blanks(trim(ls[j]), 0);
    let r = squeezed_lines(ls, k);
    if j == k - 1 {
        assert(r[r.len() - 1] == x);
    } else {
        lemma_squeezed_contains(ls, k - 1, j);
        let before = squeezed_lines(ls, k - 1);
        let i = choose|i: int| 0 <= i < before.len() && before[i] == x;
        if squeeze_blanks(trim(ls[k - 1]), 0).len() > 0 {
            assert(r[i] == x);
        }
    }
}

/// Law: cleaning drops only the lines that trimming and squeezing leave
/// empty. Every other line of the text without comments, a `#` directive
/// included, is a line of the cleaned code once trimmed and squeezed.
pub proof fn lemma_cleaned_code_keeps_lines(s: Seq<char>, j: int)
    requires
        0 <= j < lines(without_comments(s)).len(),
        squeeze_blanks(trim(lines(without_comments(s))[j]), 0).len() > 0,
    ensures
        lines(cleaned_code(s)).contains(squeeze_blanks(trim(lines(without_comments(s))[j]), 0)),
{
    let t = without_comments(s);
    let ls = lines(t);
    lemma_lines_no_newline(t, 0);
    lemma_uncommented_lines(s);
    let k = squeezed_lines(ls, ls.len() as int);
    lemma_squeezed_tidy(ls, ls.len() as int);
    assert forall|m: int| 0 <= m < k.len() implies plain_line(#[trigger] k[m]) by {
        assert(tidy_line(k[m]));
    }
    lemma_lines_of_join(k, k.len() as int);
    assert(k.take(k.len() as int) == k);
    lemma_squeezed_contains(ls, ls.len() as int, j);
}

/// How many of the first `k` lines of `ls` trimming and squeezing leave non-empty.
pub open spec fn nonblank_count(ls: Seq<Seq<char>>, k: int) -> nat
    decreases k,
{
    if k <= 0 || k > ls.len() {
        0
    } else if squeeze_blanks(trim(ls[k - 1]), 0).len() > 0 {
        nonblank_count(ls, k - 1) + 1
    } else {
        nonblank_count(ls, k - 1)
    }
}

proof fn lemma_squeezed_count(ls: Seq<Seq<char>>, k: int)
    requires
        0 <= k <= ls.len(),
    ensures
        squeezed_lines(ls, k).len() == nonblank_count(ls, k),
    decreases k,
{
    if k > 0 {
        lemma_squeezed_count(ls, k - 1);
    }
}

/// Law: the cleaned code has exactly as many lines as the text without
/// comments has lines that trimming and squeezing leave non-empty.
pub proof fn lemma_cleaned_code_line_count(s: Seq<char>)
    ensures
        lines(cleaned_code(s)).len() == nonblank_count(
            lines(without_comments(s)),
            lines(without_comments(s)).len() as int,
        ),
{
    let t = without_comments(s);
    let ls = lines(t);
    lemma_lines_no_newline(t, 0);
    lemma_uncommented_lines(s);
    let k = squeezed_lines(ls, ls.len() as int);
    lemma_squeezed_tidy(ls, ls.len() as int);
    assert forall|m: int| 0 <= m < k.len() implies plain_line(#[trigger] k[m]) by {
        assert(tidy_line(k[m]));
    }
    lemma_lines_of_join(k, k.len() as int);
    assert(k.take(k.len() as int) == k);
    lemma_squeezed_count(ls, ls.len() as int);
}

/// No line comment is left in the cleaned code: it holds no `//`.
pub proof fn lemma_cleaned_code_no_line_comment(s: Seq<char>)
    ensures
        no_line_comment(cleaned_code(s)),
{
    let t = without_comments(s);
    let ls = lines(t);
    lemma_lines_no_newline(t, 0);
    lemma_uncommented_lines(s);
    lemma_squeezed_tidy(ls, ls.len() as int);
    let k = squeezed_lines(ls, ls.len() as int);
    assert forall|m: int| 0 <= m < k.len() implies no_line_comment(#[trigger] k[m]) by {
        assert(tidy_line(k[m]));
    }
    lemma_join_no_line_comment(k, k.len() as int);
}

pub open spec fn no_errors_msg() -> Seq<char> {
    "Проверка завершена: ошибок не обнаружено"@
}

pub open spec fn cleaned_msg() -> Seq<char> {
    "Удалены комментарии, пустые строки и лишние пробелы"@
}

/// The errors of `s`: the unclosed-comment error, if any, then the invalid characters.
pub open spec fn source_errors(s: Seq<char>) -> Seq<Seq<char>> {
    let head = match unclosed_multiline(s) {
        Some(e) => seq![e],
        None => Seq::empty(),
    };
    head + invalid_char_errors(s, s.len() as int)
}

/// Checks `input` and cleans it.
pub fn clean_source_code(input: &str) -> (r: CleanResult)
    requires
        utf8_len(input@) < usize::MAX,
    ensures
        strs(r.errors@) == source_errors(input@),
        strs(r.messages@) == if source_errors(input@).len() == 0 {
            seq![no_errors_msg(), cleaned_msg()]
        } else {
            seq![cleaned_msg()]
        },
        r.cleaned_code@ == cleaned_code(input@),
{
    let chars = chars_of(input);
    let mut messages: Vec<String> = Vec::new();
    let mut errors: Vec<String> = Vec::new();
    if let Some(err) = check_unclosed_multiline(&chars) {
        errors.push(err);
    }
    let invalid = check_invalid_chars(&chars);
    let ghost e0 = strs(errors@);
    let mut k: usize = 0;
    while k < invalid.len()
        invariant
            k <= invalid@.len(),
            strs(errors@) == e0 + strs(invalid@).take(k as int),
        decreases invalid.len() - k,
    {
        let ghost before = strs(errors@);
        errors.push(invalid[k].clone());
        assert(strs(errors@) == before.push(invalid@[k as int]@));
        assert(strs(invalid@).take(k + 1) == strs(invalid@).take(k as int).push(invalid@[k as int]@));
        k += 1;
    }
    assert(strs(invalid@).take(invalid@.len() as int) == strs(invalid@));
    assert(strs(errors@) == source_errors(input@));
    if errors.len() == 0 {
        messages.push(String::from_str("Проверка завершена: ошибок не обнаружено"));
    }
    let text = remove_comments(input);
    let tchars = chars_of(text.as_str());
    let ls = split_lines(&tchars);
    let ghost lv = lines(text@);
    let mut kept: Vec<Vec<char>> = Vec::new();
    let mut j: usize = 0;
    while j < ls.len()
        invariant
            views(ls@) == lv,
            j <= ls@.len(),
            views(kept@) == squeezed_lines(lv, j as int),
        decreases ls.len() - j,
    {
        assert(views(ls@)[j as int] == ls@[j as int]@);
        let t = trim_chars(&ls[j]);
        let ts = string_of(&t);
        let sq = squeeze_blank_runs(ts.as_str());
        let sqc = chars_of(sq.as_str());
        if sqc.len() > 0 {
            let ghost before = views(kept@);
            kept.push(sqc);
            assert(views(kept@) == before.push(sqc@));
        }
        j += 1;
    }
    assert(views(ls@).len() == ls@.len());
    messages.push(String::from_str("Удалены комментарии, пустые строки и лишние пробелы"));
    let cleaned = join_with_newlines(&kept);
    proof {
        reveal_strlit("Проверка завершена: ошибок не обнаружено");
        assert(strs(messages@) =~= if source_errors(input@).len() == 0 {
            seq![no_errors_msg(), cleaned_msg()]
        } else {
            seq![cleaned_msg()]
        });
    }
    CleanResult { cleaned_code: cleaned, messages, errors }
}

/// Whether a cleaned line seems to lack its `;`: it is not empty, does not end
/// with `{`, `}` or `;`, does not start with `#` or `if`, and does not mention `main`.
pub open spec fn lacks_semicolon(l: Seq<char>) -> bool {
    &&& l.len() > 0
    &&& l.last() != '{' && l.last() != '}' && l.last() != ';'
    &&& l[0] != '#'
    &&& !occurs_at(l, "if"@, 0)
    &&& !contains_sub(l, "main"@)
}

pub open spec fn missing_semicolon_msg(n: nat, l: Seq<char>) -> Seq<char> {
    let w = utf8_len(l);
    "Возможно, пропущена ';' в строке "@ + decimal(n) + ":\n"@ + l + "\n"@ + spaces(
        if w >= 1 {
            (w - 1) as nat
        } else {
            0
        },
    ) + "^"@
}

/// Messages for the first `k` lines of `ls` (each trimmed) that lack a `;`.
pub open spec fn semicolon_errors(ls: Seq<Seq<char>>, k: int) -> Seq<Seq<char>>
    decreases k,
{
    if k <= 0 || k > ls.len() {
        Seq::empty()
    } else if lacks_semicolon(trim(ls[k - 1])) {
        semicolon_errors(ls, k - 1).push(missing_semicolon_msg(k as nat, trim(ls[k - 1])))
    } else {
        semicolon_errors(ls, k - 1)
    }
}

/// `{` minus `}` over the first `k` lines of `ls`.
pub open spec fn balance_of(ls: Seq<Seq<char>>, k: int) -> int
    decreases k,
{
    if k <= 0 || k > ls.len() {
        0
    } else {
        let l = trim(ls[k - 1]);
        balance_of(ls, k - 1) + count_char(l, '{', l.len() as int) - count_char(
            l,
            '}',
            l.len() as int,
        )
    }
}

pub open spec fn balance_msg(b: int) -> Seq<char> {
    "Ошибка: нарушен баланс фигурных скобок ("@ + int_decimal(b) + ")"@
}

/// The syntax warnings of cleaned `code`: the lines that lack a `;`, then the
/// brace imbalance if the braces do not balance.
pub open spec fn syntax_errors(code: Seq<char>) -> Seq<Seq<char>> {
    let ls = lines(code);
    let b = balance_of(ls, ls.len() as int);
    if b != 0 {
        semicolon_errors(ls, ls.len() as int).push(balance_msg(b))
    } else {
        semicolon_errors(ls, ls.len() as int)
    }
}

proof fn lemma_balance_bound(ls: Seq<Seq<char>>, k: int)
    requires
        0 <= k <= ls.len(),
    ensures
        -(total_len(ls.take(k)) as int) <= balance_of(ls, k) <= total_len(ls.take(k)),
    decreases k,
{
    if k > 0 {
        lemma_balance_bound(ls, k - 1);
        let l = trim(ls[k - 1]);
        lemma_trim_len(ls[k - 1]);
        lemma_count_char_bound(l, '{', '}', l.len() as int);
        assert(ls.take(k).drop_last() == ls.take(k - 1));
    }
}

/// Checks each line of cleaned `code` for a missing `;`, and the braces for balance.
pub fn check_syntax_after_cleaning(code: &str) -> (errors: Vec<String>)
    requires
        code@.len() <= i32::MAX,
        utf8_len(code@) < usize::MAX,
    ensures
        strs(errors@) == syntax_errors(code@),
{
    let chars = chars_of(code);
    let ls = split_lines(&chars);
    let ghost lv = lines(code@);
    proof {
        lemma_lines_total(code@, 0);
    }
    let mut syntax_errors: Vec<String> = Vec::new();
    let mut brace_balance: i32 = 0;
    let mut i: usize = 0;
    while i < ls.len()
        invariant
            views(ls@) == lv,
            lv == lines(code@),
            i <= ls@.len(),
            total_len(lv) <= code@.len() <= i32::MAX,
            utf8_len(code@) < usize::MAX,
            strs(syntax_errors@) == semicolon_errors(lv, i as int),
            brace_balance == balance_of(lv, i as int),
            -(total_len(lv.take(i as int)) as int) <= brace_balance <= total_len(lv.take(i as int)),
        decreases ls.len() - i,
    {
        assert(views(ls@)[i as int] == ls@[i as int]@);
        let l = trim_chars(&ls[i]);
        proof {
            lemma_trim_len(lv[i as int]);
            lemma_lines_utf8(code@, 0, i as int);
            lemma_count_char_bound(l@, '{', '}', l@.len() as int);
            lemma_total_len_concat(lv.take(i + 1), lv.skip(i + 1));
            assert(lv.take(i + 1) + lv.skip(i + 1) == lv);
            assert(lv.take(i + 1).drop_last() == lv.take(i as int));
        }
        let n = l.len();
        if n > 0 && l[n - 1] != '{' && l[n - 1] != '}' && l[n - 1] != ';' && l[0] != '#'
            && !occurs_at_exec(&l, "if", 0) && !contains_sub_exec(&l, "main") {
            let w = utf8_len_of(&l, 0, n);
            assert(l@.subrange(0, n as int) == l@);
            let mut msg = String::from_str("Возможно, пропущена ';' в строке ");
            push_decimal(&mut msg, i + 1);
            push_str(&mut msg, ":\n");
            push_chars(&mut msg, &l);
            push_str(&mut msg, "\n");
            push_spaces(&mut msg, w.saturating_sub(1));
            push_str(&mut msg, "^");
            let ghost before = strs(syntax_errors@);
            syntax_errors.push(msg);
            assert(strs(syntax_errors@) == before.push(msg@));
        }
        let opens = count_char_exec(&l, '{');
        let closes = count_char_exec(&l, '}');
        brace_balance += opens as i32;
        brace_balance -= closes as i32;
        i += 1;
    }
    assert(views(ls@).len() == ls@.len());
    if brace_balance != 0 {
        let mut msg = String::from_str("Ошибка: нарушен баланс фигурных скобок (");
        push_int_decimal(&mut msg, brace_balance);
        push_str(&mut msg, ")");
        let ghost before = strs(syntax_errors@);
        syntax_errors.push(msg);
        assert(strs(syntax_errors@) == before.push(msg@));
    }
    syntax_errors
}

} // verus!
