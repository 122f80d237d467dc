//! Character-level building blocks shared by every stage: the views of
//! `str::trim`, `str::lines` and UTF-8 widths, decimal rendering, and the
//! helpers that move between `&str`, `String` and character vectors.
use vstd::prelude::*;

verus! {

/// The Unicode `White_Space` property, which `char::is_whitespace` tests.
pub open spec fn is_white(c: char) -> bool {
    ||| ('\t' <= c && c <= '\r')
    ||| c == ' '
    ||| c == '\u{85}'
    ||| c == '\u{a0}'
    ||| c == '\u{1680}'
    ||| ('\u{2000}' <= c && c <= '\u{200a}')
    ||| c == '\u{2028}'
    ||| c == '\u{2029}'
    ||| c == '\u{202f}'
    ||| c == '\u{205f}'
    ||| c == '\u{3000}'
}

pub fn is_whitespace(c: char) -> (r: bool)
    ensures
        r == is_white(c),
{
    ('\t' <= c && c <= '\r') || c == ' ' || c == '\u{85}' || c == '\u{a0}' || c == '\u{1680}'
        || ('\u{2000}' <= c && c <= '\u{200a}') || c == '\u{2028}' || c == '\u{2029}'
        || c == '\u{202f}' || c == '\u{205f}' || c == '\u{3000}'
}

pub open spec fn is_ascii_char(c: char) -> bool {
    c < '\u{80}'
}

pub open spec fn is_ascii_digit(c: char) -> bool {
    '0' <= c && c <= '9'
}

pub open spec fn is_ascii_alpha(c: char) -> bool {
    ('a' <= c && c <= 'z') || ('A' <= c && c <= 'Z')
}

pub fn ascii_digit(c: char) -> (b: bool)
    ensures
        b == is_ascii_digit(c),
{
    '0' <= c && c <= '9'
}

pub fn ascii_alpha(c: char) -> (b: bool)
    ensures
        b == is_ascii_alpha(c),
{
    ('a' <= c && c <= 'z') || ('A' <= c && c <= 'Z')
}

// ---------------------------------------------------------------------------
// Trimming, as `str::trim` does it.
/// Index of the first character at or after `i` that is not white space.
pub open spec fn skip_white(s: Seq<char>, i: int) -> int
    decreases s.len() - i,
{
    if i < 0 || i >= s.len() {
        s.len() as int
    } else if is_white(s[i]) {
        skip_white(s, i + 1)
    } else {
        i
    }
}

/// End of `s[..j]` once its trailing white space is dropped.
pub open spec fn back_white(s: Seq<char>, j: int) -> int
    decreases j,
{
    if j <= 0 || j > s.len() {
        0
    } else if is_white(s[j - 1]) {
        back_white(s, j - 1)
    } else {
        j
    }
}

/// `s` without leading and trailing white space.
pub open spec fn trim(s: Seq<char>) -> Seq<char> {
    let a = skip_white(s, 0);
    let b = back_white(s, s.len() as int);
    if a < b {
        s.subrange(a, b)
    } else {
        Seq::empty()
    }
}

pub proof fn lemma_skip_white_range(s: Seq<char>, i: int)
    requires
        0 <= i <= s.len(),
    ensures
        i <= skip_white(s, i) <= s.len(),
        forall|k: int| i <= k < skip_white(s, i) ==> is_white(s[k]),
        skip_white(s, i) < s.len() ==> !is_white(s[skip_white(s, i)]),
    decreases s.len() - i,
{
    if i < s.len() && is_white(s[i]) {
        lemma_skip_white_range(s, i + 1);
    }
}

pub proof fn lemma_back_white_range(s: Seq<char>, j: int)
    requires
        0 <= j <= s.len(),
    ensures
        0 <= back_white(s, j) <= j,
        forall|k: int| back_white(s, j) <= k < j ==> is_white(s[k]),
        back_white(s, j) > 0 ==> !is_white(s[back_white(s, j) - 1]),
    decreases j,
{
    if j > 0 && is_white(s[j - 1]) {
        lemma_back_white_range(s, j - 1);
    }
}

/// A trimmed text, when not empty, starts and ends with a character that is not
/// white space, and lies within `s`; one without `'\n'` stays so.
pub proof fn lemma_trim_ends(s: Seq<char>)
    ensures
        trim(s).len() > 0 ==> !is_white(trim(s)[0]) && !is_white(trim(s).last()),
        no_newline(s) ==> no_newline(trim(s)),
{
    lemma_skip_white_range(s, 0);
    lemma_back_white_range(s, s.len() as int);
    let a = skip_white(s, 0);
    let b = back_white(s, s.len() as int);
    if a < b {
        assert(trim(s)[0] == s[a]);
        assert(trim(s).last() == s[b - 1]);
        assert(no_newline(s) ==> no_newline(trim(s))) by {
            if no_newline(s) {
                assert forall|k: int| 0 <= k < trim(s).len() implies trim(s)[k] != '\n' by {
                    assert(trim(s)[k] == s[a + k]);
                }
            }
        }
    }
}

/// A text that starts and ends with a character that is not white space is its own trim.
pub proof fn lemma_trim_fixed(s: Seq<char>)
    requires
        s.len() > 0,
        !is_white(s[0]),
        !is_white(s.last()),
    ensures
        trim(s) == s,
{
    assert(skip_white(s, 0) == 0);
    assert(back_white(s, s.len() as int) == s.len());
    assert(s.subrange(0, s.len() as int) == s);
}

/// `trim(v)`.
pub fn trim_chars(v: &[char]) -> (r: Vec<char>)
    ensures
        r@ == trim(v@),
{
    let mut a: usize = 0;
    while a < v.len() && is_whitespace(v[a])
        invariant
            a <= v.len(),
            skip_white(v@, a as int) == skip_white(v@, 0),
        decreases v.len() - a,
    {
        a += 1;
    }
    let mut b: usize = v.len();
    while b > 0 && is_whitespace(v[b - 1])
        invariant
            b <= v.len(),
            back_white(v@, b as int) == back_white(v@, v@.len() as int),
        decreases b,
    {
        b -= 1;
    }
    let mut r: Vec<char> = Vec::new();
    if a < b {
        let mut k: usize = a;
        while k < b
            invariant
                a <= k <= b <= v.len(),
                r@ == v@.subrange(a as int, k as int),
            decreases b - k,
        {
            r.push(v[k]);
            k += 1;
        }
    }
    r
}

// ---------------------------------------------------------------------------
// Lines, as `str::lines` splits them.
/// Index of the first `'\n'` at or after `i`, or the length of `s`.
pub open spec fn next_newline(s: Seq<char>, i: int) -> int
    decreases s.len() - i,
{
    if i < 0 || i >= s.len() {
        s.len() as int
    } else if s[i] == '\n' {
        i
    } else {
        next_newline(s, i + 1)
    }
}

/// A line without the `'\r'` that ended it before its `'\n'`.
pub open spec fn strip_cr(l: Seq<char>) -> Seq<char> {
    if l.len() > 0 && l.last() == '\r' {
        l.drop_last()
    } else {
        l
    }
}

/// The lines of `s[i..]`: pieces ended by `'\n'` (a `'\r'` just before it dropped),
/// the final piece only if it is not empty.
pub open spec fn lines_from(s: Seq<char>, i: int) -> Seq<Seq<char>>
    decreases s.len() - i,
{
    if i < 0 || i >= s.len() {
        Seq::empty()
    } else {
        let j = next_newline(s, i);
        if j < s.len() {
            proof {
                lemma_next_newline_range(s, i);
            }
            seq![strip_cr(s.subrange(i, j))] + lines_from(s, j + 1)
        } else {
            seq![s.subrange(i, j)]
        }
    }
}

pub open spec fn lines(s: Seq<char>) -> Seq<Seq<char>> {
    lines_from(s, 0)
}

pub open spec fn views(vs: Seq<Vec<char>>) -> Seq<Seq<char>> {
    vs.map_values(|v: Vec<char>| v@)
}

pub proof fn lemma_next_newline_range(s: Seq<char>, i: int)
    requires
        0 <= i <= s.len(),
    ensures
        i <= next_newline(s, i) <= s.len(),
        forall|k: int| i <= k < next_newline(s, i) ==> s[k] != '\n',
        next_newline(s, i) < s.len() ==> s[next_newline(s, i)] == '\n',
    decreases s.len() - i,
{
    if i < s.len() && s[i] != '\n' {
        lemma_next_newline_range(s, i + 1);
    }
}

/// `l` holds no `'\n'`.
pub open spec fn no_newline(l: Seq<char>) -> bool {
    forall|k: int| 0 <= k < l.len() ==> l[k] != '\n'
}

/// No line of `s[i..]` holds a `'\n'`.
pub proof fn lemma_lines_no_newline(s: Seq<char>, i: int)
    requires
        0 <= i <= s.len(),
    ensures
        forall|m: int| 0 <= m < lines_from(s, i).len() ==> no_newline(#[trigger] lines_from(s, i)[m]),
    decreases s.len() - i,
{
    if i < s.len() {
        let j = next_newline(s, i);
        lemma_next_newline_range(s, i);
        let x = s.subrange(i, j);
        assert(no_newline(x));
        assert(no_newline(strip_cr(x)));
        if j < s.len() {
            lemma_lines_no_newline(s, j + 1);
            let rest = lines_from(s, j + 1);
            assert forall|m: int| 0 <= m < lines_from(s, i).len() implies no_newline(
                #[trigger] lines_from(s, i)[m],
            ) by {
                if m > 0 {
                    assert(lines_from(s, i)[m] == rest[m - 1]);
                }
            }
        }
    }
}

/// Where `s` holds no `'\n'` from `i` on, the next one is at the end.
proof fn lemma_next_newline_none(s: Seq<char>, i: int)
    requires
        0 <= i <= s.len(),
        forall|k: int| i <= k < s.len() ==> s[k] != '\n',
    ensures
        next_newline(s, i) == s.len(),
    decreases s.len() - i,
{
    if i < s.len() {
        lemma_next_newline_none(s, i + 1);
    }
}

proof fn lemma_next_newline_shift(p: Seq<char>, q: Seq<char>, i: int)
    requires
        0 <= i <= q.len(),
    ensures
        next_newline(p + q, p.len() + i) == p.len() + next_newline(q, i),
    decreases q.len() - i,
{
    if i < q.len() {
        assert((p + q)[p.len() + i] == q[i]);
        if q[i] != '\n' {
            lemma_next_newline_shift(p, q, i + 1);
        }
    }
}

/// The lines of `q[i..]` are those of `(p + q)[p.len() + i..]`.
proof fn lemma_lines_shift(p: Seq<char>, q: Seq<char>, i: int)
    requires
        0 <= i <= q.len(),
    ensures
        lines_from(p + q, p.len() + i) == lines_from(q, i),
    decreases q.len() - i,
{
    if i < q.len() {
        lemma_next_newline_shift(p, q, i);
        lemma_next_newline_range(q, i);
        let j = next_newline(q, i);
        assert((p + q).subrange(p.len() + i, p.len() + j) =~= q.subrange(i, j));
        if j < q.len() {
            lemma_lines_shift(p, q, j + 1);
        }
    }
}

/// Up to the `'\n'` appended after `a`, `a + "\n" + b` breaks where `a` does.
proof fn lemma_next_newline_prefix(a: Seq<char>, b: Seq<char>, i: int)
    requires
        0 <= i <= a.len(),
    ensures
        next_newline(a + seq!['\n'] + b, i) == next_newline(a, i),
    decreases a.len() - i,
{
    let s = a + seq!['\n'] + b;
    assert(s[a.len() as int] == '\n');
    if i < a.len() {
        assert(s[i] == a[i]);
        if a[i] != '\n' {
            lemma_next_newline_prefix(a, b, i + 1);
        }
    }
}

/// A text that ends in neither `'\n'` nor `'\r'`, then `'\n'`, then another
/// text: its lines are those of the first text, then those of the second.
proof fn lemma_lines_join_from(a: Seq<char>, b: Seq<char>, i: int)
    requires
        0 <= i < a.len(),
        a.last() != '\n',
        a.last() != '\r',
    ensures
        lines_from(a + seq!['\n'] + b, i) == lines_from(a, i) + lines(b),
    decreases a.len() - i,
{
    let s = a + seq!['\n'] + b;
    lemma_next_newline_prefix(a, b, i);
    lemma_next_newline_range(a, i);
    let j = next_newline(a, i);
    assert(s.subrange(i, j) =~= a.subrange(i, j));
    if j < a.len() {
        assert(j + 1 < a.len());
        lemma_lines_join_from(a, b, j + 1);
        assert(lines_from(s, i) == seq![strip_cr(a.subrange(i, j))] + lines_from(s, j + 1));
        assert(lines_from(a, i) == seq![strip_cr(a.subrange(i, j))] + lines_from(a, j + 1));
    } else {
        let x = a.subrange(i, j);
        assert(x.last() == a.last());
        assert(strip_cr(x) == x);
        lemma_lines_shift(a + seq!['\n'], b, 0);
        assert((a + seq!['\n']).len() == a.len() + 1);
        assert(lines_from(s, i) == seq![x] + lines_from(s, j + 1));
    }
}

/// `lines(a + "\n" + b) == lines(a) + lines(b)` where `a` is not empty and ends
/// in neither `'\n'` nor `'\r'`.
pub proof fn lemma_lines_join(a: Seq<char>, b: Seq<char>)
    requires
        a.len() > 0,
        a.last() != '\n',
        a.last() != '\r',
    ensures
        lines(a + seq!['\n'] + b) == lines(a) + lines(b),
{
    lemma_lines_join_from(a, b, 0);
}

/// A non-empty text without `'\n'` is one line.
pub proof fn lemma_lines_single(l: Seq<char>)
    requires
        l.len() > 0,
        no_newline(l),
    ensures
        lines(l) == seq![l],
{
    lemma_next_newline_none(l, 0);
    assert(l.subrange(0, l.len() as int) == l);
}

/// `s[i..]` has no more lines than characters.
pub proof fn lemma_lines_count(s: Seq<char>, i: int)
    requires
        0 <= i <= s.len(),
    ensures
        lines_from(s, i).len() <= s.len() - i,
    decreases s.len() - i,
{
    if i < s.len() {
        lemma_next_newline_range(s, i);
        let j = next_newline(s, i);
        if j < s.len() {
            lemma_lines_count(s, j + 1);
        }
    }
}

/// `lines(v)`.
pub fn split_lines(v: &[char]) -> (r: Vec<Vec<char>>)
    ensures
        views(r@) == lines(v@),
{
    let mut r: Vec<Vec<char>> = Vec::new();
    let mut i: usize = 0;
    while i < v.len()
        invariant
            i <= v.len(),
            views(r@) + lines_from(v@, i as int) == lines(v@),
        decreases v.len() - i,
    {
        let ghost g = views(r@);
        let mut line: Vec<char> = Vec::new();
        let mut j: usize = i;
        while j < v.len() && v[j] != '\n'
            invariant
                i <= j <= v.len(),
                next_newline(v@, j as int) == next_newline(v@, i as int),
                line@ == v@.subrange(i as int, j as int),
            decreases v.len() - j,
        {
            line.push(v[j]);
            j += 1;
        }
        if j < v.len() {
            if line.len() > 0 && line[line.len() - 1] == '\r' {
                line.pop();
            }
            r.push(line);
            i = j + 1;
        } else {
            r.push(line);
            i = j;
        }
        proof {
            assert(views(r@) == g.push(r@.last()@));
            assert(lines_from(v@, i as int) == Seq::<Seq<char>>::empty() || j < v.len());
        }
    }
    r
}

// ---------------------------------------------------------------------------
// UTF-8 widths, for byte offsets.
/// `char::len_utf8`.
pub open spec fn utf8_width(c: char) -> nat {
    if (c as u32) < 0x80 {
        1
    } else if (c as u32) < 0x800 {
        2
    } else if (c as u32) < 0x10000 {
        3
    } else {
        4
    }
}

/// Number of bytes that `s` takes in UTF-8.
pub open spec fn utf8_len(s: Seq<char>) -> nat
    decreases s.len(),
{
    if s.len() == 0 {
        0
    } else {
        utf8_len(s.drop_last()) + utf8_width(s.last())
    }
}

pub fn char_width(c: char) -> (n: usize)
    ensures
        n == utf8_width(c),
{
    if (c as u32) < 0x80 {
        1
    } else if (c as u32) < 0x800 {
        2
    } else if (c as u32) < 0x10000 {
        3
    } else {
        4
    }
}

pub proof fn lemma_utf8_len_bounds(s: Seq<char>)
    ensures
        s.len() <= utf8_len(s) <= 4 * s.len(),
    decreases s.len(),
{
    if s.len() > 0 {
        lemma_utf8_len_bounds(s.drop_last());
    }
}

pub proof fn lemma_utf8_len_concat(a: Seq<char>, b: Seq<char>)
    ensures
        utf8_len(a + b) == utf8_len(a) + utf8_len(b),
    decreases b.len(),
{
    if b.len() > 0 {
        lemma_utf8_len_concat(a, b.drop_last());
        assert((a + b).drop_last() == a + b.drop_last());
    } else {
        assert(a + b == a);
    }
}

pub proof fn lemma_utf8_len_subrange(s: Seq<char>, i: int, j: int)
    requires
        0 <= i <= j <= s.len(),
    ensures
        utf8_len(s.subrange(i, j)) <= utf8_len(s),
{
    lemma_utf8_len_concat(s.subrange(0, i), s.subrange(i, j));
    lemma_utf8_len_concat(s.subrange(0, i) + s.subrange(i, j), s.subrange(j, s.len() as int));
    assert(s.subrange(0, i) + s.subrange(i, j) + s.subrange(j, s.len() as int) == s);
}

/// No line of `s` takes more bytes than `s`.
pub proof fn lemma_lines_utf8(s: Seq<char>, i: int, k: int)
    requires
        0 <= i,
        0 <= k < lines_from(s, i).len(),
    ensures
        utf8_len(lines_from(s, i)[k]) <= utf8_len(s),
    decreases s.len() - i,
{
    let j = next_newline(s, i);
    lemma_next_newline_range(s, i);
    lemma_utf8_len_subrange(s, i, j);
    if j < s.len() {
        if k > 0 {
            lemma_lines_utf8(s, j + 1, k - 1);
        } else {
            let l = s.subrange(i, j);
            if l.len() > 0 && l.last() == '\r' {
                assert(l.drop_last() == s.subrange(i, j - 1));
                lemma_utf8_len_subrange(s, i, j - 1);
            }
        }
    }
}

/// Bytes that `v[from..to]` takes in UTF-8.
pub fn utf8_len_of(v: &[char], from: usize, to: usize) -> (n: usize)
    requires
        from <= to <= v.len(),
        utf8_len(v@) <= usize::MAX,
    ensures
        n == utf8_len(v@.subrange(from as int, to as int)),
{
    let mut n: usize = 0;
    let mut k: usize = from;
    while k < to
        invariant
            from <= k <= to <= v.len(),
            utf8_len(v@) <= usize::MAX,
            n == utf8_len(v@.subrange(from as int, k as int)),
        decreases to - k,
    {
        proof {
            let a = v@.subrange(from as int, k as int);
            let b = v@.subrange(from as int, k + 1);
            assert(b.drop_last() == a);
            lemma_utf8_len_subrange(v@, from as int, k + 1);
        }
        n = n + char_width(v[k]);
        k += 1;
    }
    n
}

// ---------------------------------------------------------------------------
// Numbers and padding.
pub open spec fn digit_char(d: nat) -> char {
    (('0' as u32) + d) as char
}

/// The decimal digits of `n`, as `usize`'s `Display` writes them.
pub open spec fn decimal(n: nat) -> Seq<char>
    decreases n,
{
    if n < 10 {
        seq![digit_char(n)]
    } else {
        decimal(n / 10).push(digit_char(n % 10))
    }
}

/// An integer as `Display` writes it: a minus sign before a negative one.
pub open spec fn int_decimal(i: int) -> Seq<char> {
    if i < 0 {
        seq!['-'] + decimal((-i) as nat)
    } else {
        decimal(i as nat)
    }
}

pub open spec fn spaces(n: nat) -> Seq<char> {
    Seq::new(n, |_i: int| ' ')
}

#[verifier::external_body]
fn push_char_raw(s: &mut String, c: char)
    ensures
        final(s)@ == old(s)@.push(c),
{
    s.push(c);
}

pub fn push_char(s: &mut String, c: char)
    ensures
        final(s)@ == old(s)@.push(c),
{
    push_char_raw(s, c);
}

pub fn push_str(s: &mut String, t: &str)
    ensures
        final(s)@ == old(s)@ + t@,
{
    s.append(t);
}

pub fn push_chars(s: &mut String, v: &[char])
    ensures
        final(s)@ == old(s)@ + v@,
{
    let ghost s0 = s@;
    let mut i: usize = 0;
    while i < v.len()
        invariant
            i <= v.len(),
            s@ == s0 + v@.take(i as int),
        decreases v.len() - i,
    {
        push_char(s, v[i]);
        i += 1;
        proof {
            assert(v@.take(i as int) == v@.take(i - 1).push(v@[i - 1]));
        }
    }
    proof {
        assert(v@.take(v@.len() as int) == v@);
    }
}

pub fn push_decimal(s: &mut String, n: usize)
    ensures
        final(s)@ == old(s)@ + decimal(n as nat),
    decreases n,
{
    if n >= 10 {
        push_decimal(s, n / 10);
    }
    let d = n % 10;
    let c: char = match d {
        0 => '0',
        1 => '1',
        2 => '2',
        3 => '3',
        4 => '4',
        5 => '5',
        6 => '6',
        7 => '7',
        8 => '8',
        _ => '9',
    };
    assert(c == digit_char(d as nat));
    push_char(s, c);
}

pub fn push_int_decimal(s: &mut String, i: i32)
    ensures
        final(s)@ == old(s)@ + int_decimal(i as int),
{
    if i < 0 {
        let m: u32 = (-(i as i64)) as u32;
        push_char(s, '-');
        push_decimal(s, m as usize);
        assert(s@ == old(s)@ + int_decimal(i as int));
    } else {
        let m: u32 = i as u32;
        push_decimal(s, m as usize);
    }
}

pub fn push_spaces(s: &mut String, n: usize)
    ensures
        final(s)@ == old(s)@ + spaces(n as nat),
{
    let ghost s0 = s@;
    let mut i: usize = 0;
    while i < n
        invariant
            i <= n,
            s@ == s0 + spaces(i as nat),
        decreases n - i,
    {
        push_char(s, ' ');
        i += 1;
        proof {
            assert(spaces(i as nat) == spaces((i - 1) as nat).push(' '));
        }
    }
}

// ---------------------------------------------------------------------------
// Conversions and comparisons.
/// The characters of `s`, in order.
pub fn chars_of(s: &str) -> (v: Vec<char>)
    ensures
        v@ == s@,
{
    let mut v: Vec<char> = Vec::new();
    for c in it: s.chars()
        invariant
            v@ == it.seq().take(it.index() as int),
    {
        v.push(c);
    }
    v
}

pub fn string_of(v: &[char]) -> (s: String)
    ensures
        s@ == v@,
{
    let mut s = String::new();
    push_chars(&mut s, v);
    s
}

/// Whether `a` and `b` hold the same characters.
pub fn str_eq(a: &str, b: &str) -> (r: bool)
    ensures
        r == (a@ == b@),
{
    let n = a.unicode_len();
    if n != b.unicode_len() {
        return false;
    }
    let mut i: usize = 0;
    while i < n
        invariant
            n == a@.len() == b@.len(),
            i <= n,
            forall|k: int| 0 <= k < i ==> a@[k] == b@[k],
        decreases n - i,
    {
        if a.get_char(i) != b.get_char(i) {
            return false;
        }
        i += 1;
    }
    assert(a@ == b@);
    true
}

/// Whether `v` holds the same characters as `b`.
pub fn chars_eq_str(v: &[char], b: &str) -> (r: bool)
    ensures
        r == (v@ == b@),
{
    let n = b.unicode_len();
    if n != v.len() {
        return false;
    }
    let mut i: usize = 0;
    while i < n
        invariant
            n == v@.len() == b@.len(),
            i <= n,
            forall|k: int| 0 <= k < i ==> v@[k] == b@[k],
        decreases n - i,
    {
        if v[i] != b.get_char(i) {
            return false;
        }
        i += 1;
    }
    assert(v@ == b@);
    true
}

/// Whether `p` occurs in `s` at index `i`.
pub open spec fn occurs_at(s: Seq<char>, p: Seq<char>, i: int) -> bool {
    0 <= i && i + p.len() <= s.len() && s.subrange(i, i + p.len()) == p
}

pub open spec fn contains_sub(s: Seq<char>, p: Seq<char>) -> bool {
    exists|i: int| occurs_at(s, p, i)
}

/// Whether `p` occurs in `v` at index `i`.
pub fn occurs_at_exec(v: &[char], p: &str, i: usize) -> (r: bool)
    ensures
        r == occurs_at(v@, p@, i as int),
{
    let n = p.unicode_len();
    if i > v.len() || n > v.len() - i {
        return false;
    }
    let mut k: usize = 0;
    while k < n
        invariant
            n == p@.len(),
            i + n <= v.len(),
            k <= n,
            forall|m: int| 0 <= m < k ==> v@[i + m] == p@[m],
        decreases n - k,
    {
        if v[i + k] != p.get_char(k) {
            assert(v@.subrange(i as int, i + n)[k as int] != p@[k as int]);
            return false;
        }
        k += 1;
    }
    assert(v@.subrange(i as int, i + n) == p@);
    true
}

pub fn contains_sub_exec(v: &[char], p: &str) -> (r: bool)
    ensures
        r == contains_sub(v@, p@),
{
    let mut i: usize = 0;
    loop
        invariant
            i <= v.len(),
            forall|k: int| 0 <= k < i ==> !occurs_at(v@, p@, k),
        ensures
            forall|k: int| 0 <= k <= v.len() ==> !occurs_at(v@, p@, k),
        decreases v.len() - i,
    {
        if occurs_at_exec(v, p, i) {
            return true;
        }
        if i == v.len() {
            break;
        }
        i += 1;
    }
    assert forall|k: int| !occurs_at(v@, p@, k) by {
        if 0 <= k && k + p@.len() <= v@.len() {
            assert(k <= v.len());
        }
    }
    false
}

/// Index of the first occurrence of `p` in `s` at or after `i`, or `-1`.
pub open spec fn find_from(s: Seq<char>, p: Seq<char>, i: int) -> int
    decreases s.len() + 1 - i,
{
    if i < 0 || i + p.len() > s.len() {
        -1
    } else if occurs_at(s, p, i) {
        i
    } else {
        find_from(s, p, i + 1)
    }
}

pub proof fn lemma_find_from(s: Seq<char>, p: Seq<char>, i: int)
    requires
        0 <= i,
    ensures
        find_from(s, p, i) == -1 || (i <= find_from(s, p, i) && find_from(s, p, i) + p.len()
            <= s.len() && occurs_at(s, p, find_from(s, p, i))),
        forall|k: int|
            i <= k && (find_from(s, p, i) == -1 || k < find_from(s, p, i)) ==> !occurs_at(s, p, k),
    decreases s.len() + 1 - i,
{
    if i + p.len() <= s.len() && !occurs_at(s, p, i) {
        lemma_find_from(s, p, i + 1);
    }
}

/// `find_from` is the first occurrence at or after `i`.
pub proof fn lemma_find_from_first(s: Seq<char>, p: Seq<char>, i: int, j: int)
    requires
        0 <= i <= j,
        occurs_at(s, p, j),
        forall|k: int| i <= k < j ==> !occurs_at(s, p, k),
    ensures
        find_from(s, p, i) == j,
    decreases j - i,
{
    if i < j {
        lemma_find_from_first(s, p, i + 1, j);
    }
}

/// The pieces of `s[i..]` between occurrences of `p`, as `str::split` gives them.
pub open spec fn split_from(s: Seq<char>, p: Seq<char>, i: int) -> Seq<Seq<char>>
    decreases s.len() - i,
{
    if p.len() == 0 || i < 0 || i > s.len() {
        seq![s]
    } else {
        let j = find_from(s, p, i);
        if j < 0 {
            seq![s.subrange(i, s.len() as int)]
        } else {
            proof {
                lemma_find_from(s, p, i);
            }
            seq![s.subrange(i, j)] + split_from(s, p, j + p.len())
        }
    }
}

pub proof fn lemma_split_from_len(s: Seq<char>, p: Seq<char>, i: int)
    requires
        p.len() > 0,
        0 <= i <= s.len(),
    ensures
        split_from(s, p, i).len() >= 1,
        (exists|k: int| i <= k && #[trigger] occurs_at(s, p, k)) ==> split_from(s, p, i).len() >= 2,
    decreases s.len() - i,
{
    lemma_find_from(s, p, i);
    let j = find_from(s, p, i);
    if j >= 0 {
        lemma_split_from_len(s, p, j + p.len());
    }
}

pub open spec fn is_paren(c: char) -> bool {
    c == '(' || c == ')'
}

pub open spec fn skip_parens(s: Seq<char>, i: int) -> int
    decreases s.len() - i,
{
    if i < 0 || i >= s.len() {
        s.len() as int
    } else if is_paren(s[i]) {
        skip_parens(s, i + 1)
    } else {
        i
    }
}

pub open spec fn back_parens(s: Seq<char>, j: int) -> int
    decreases j,
{
    if j <= 0 || j > s.len() {
        0
    } else if is_paren(s[j - 1]) {
        back_parens(s, j - 1)
    } else {
        j
    }
}

/// `s` without the `(` and `)` at its ends, as `trim_matches` leaves it.
pub open spec fn trim_parens(s: Seq<char>) -> Seq<char> {
    let a = skip_parens(s, 0);
    let b = back_parens(s, s.len() as int);
    if a < b {
        s.subrange(a, b)
    } else {
        Seq::empty()
    }
}

/// `trim_parens(v)`.
pub fn trim_parens_chars(v: &[char]) -> (r: Vec<char>)
    ensures
        r@ == trim_parens(v@),
{
    let mut a: usize = 0;
    while a < v.len() && (v[a] == '(' || v[a] == ')')
        invariant
            a <= v.len(),
            skip_parens(v@, a as int) == skip_parens(v@, 0),
        decreases v.len() - a,
    {
        a += 1;
    }
    let mut b: usize = v.len();
    while b > 0 && (v[b - 1] == '(' || v[b - 1] == ')')
        invariant
            b <= v.len(),
            back_parens(v@, b as int) == back_parens(v@, v@.len() as int),
        decreases b,
    {
        b -= 1;
    }
    let mut r: Vec<char> = Vec::new();
    if a < b {
        let mut k: usize = a;
        while k < b
            invariant
                a <= k <= b <= v.len(),
                r@ == v@.subrange(a as int, k as int),
            decreases b - k,
        {
            r.push(v[k]);
            k += 1;
        }
    }
    r
}

/// `find_from(v, p, i)`, `None` for `-1`.
pub fn find_from_exec(v: &[char], p: &str, i: usize) -> (r: Option<usize>)
    requires
        p@.len() > 0,
    ensures
        match r {
            Some(j) => find_from(v@, p@, i as int) == j,
            None => find_from(v@, p@, i as int) == -1,
        },
{
    let n = p.unicode_len();
    let mut k: usize = i;
    loop
        invariant
            n == p@.len() > 0,
            i <= k,
            find_from(v@, p@, k as int) == find_from(v@, p@, i as int),
        decreases v.len() + 1 - k,
    {
        if k > v.len() || n > v.len() - k {
            return None;
        }
        if occurs_at_exec(v, p, k) {
            return Some(k);
        }
        k += 1;
    }
}

pub fn subrange_chars(v: &[char], a: usize, b: usize) -> (r: Vec<char>)
    requires
        a <= b <= v.len(),
    ensures
        r@ == v@.subrange(a as int, b as int),
{
    let mut r: Vec<char> = Vec::new();
    let mut k: usize = a;
    while k < b
        invariant
            a <= k <= b <= v.len(),
            r@ == v@.subrange(a as int, k as int),
        decreases b - k,
    {
        r.push(v[k]);
        k += 1;
    }
    r
}

/// `split_from(v, p, 0)`: the pieces of `v` between occurrences of `p`.
pub fn split_chars(v: &[char], p: &str) -> (r: Vec<Vec<char>>)
    requires
        p@.len() > 0,
    ensures
        views(r@) == split_from(v@, p@, 0),
{
    let n = p.unicode_len();
    let mut r: Vec<Vec<char>> = Vec::new();
    let mut i: usize = 0;
    loop
        invariant
            n == p@.len() > 0,
            i <= v.len(),
            views(r@) + split_from(v@, p@, i as int) == split_from(v@, p@, 0),
        decreases v.len() - i,
    {
        let ghost g = views(r@);
        proof {
            lemma_find_from(v@, p@, i as int);
        }
        match find_from_exec(v, p, i) {
            None => {
                let piece = subrange_chars(v, i, v.len());
                r.push(piece);
                proof {
                    assert(views(r@) == g.push(piece@));
                }
                return r;
            },
            Some(j) => {
                let piece = subrange_chars(v, i, j);
                r.push(piece);
                proof {
                    assert(views(r@) == g.push(piece@));
                }
                i = j + n;
            },
        }
    }
}

pub proof fn lemma_decimal_digits(n: nat)
    ensures
        decimal(n).len() >= 1,
        forall|k: int| 0 <= k < decimal(n).len() ==> '0' <= #[trigger] decimal(n)[k] <= '9',
    decreases n,
{
    if n >= 10 {
        lemma_decimal_digits(n / 10);
    }
}

/// Total number of characters in the pieces of `ls`.
pub open spec fn total_len(ls: Seq<Seq<char>>) -> nat
    decreases ls.len(),
{
    if ls.len() == 0 {
        0
    } else {
        total_len(ls.drop_last()) + ls.last().len()
    }
}

pub proof fn lemma_total_len_concat(a: Seq<Seq<char>>, b: Seq<Seq<char>>)
    ensures
        total_len(a + b) == total_len(a) + total_len(b),
    decreases b.len(),
{
    if b.len() > 0 {
        lemma_total_len_concat(a, b.drop_last());
        assert((a + b).drop_last() == a + b.drop_last());
    } else {
        assert(a + b == a);
    }
}

pub proof fn lemma_total_len_single(x: Seq<char>)
    ensures
        total_len(seq![x]) == x.len(),
{
    assert(seq![x].drop_last() =~= Seq::<Seq<char>>::empty());
    assert(total_len(Seq::<Seq<char>>::empty()) == 0);
}

/// The lines of `s[i..]` hold at most `s.len() - i` characters together.
pub proof fn lemma_lines_total(s: Seq<char>, i: int)
    requires
        0 <= i <= s.len(),
    ensures
        total_len(lines_from(s, i)) <= s.len() - i,
    decreases s.len() - i,
{
    if i < s.len() {
        let j = next_newline(s, i);
        lemma_next_newline_range(s, i);
        if j < s.len() {
            lemma_lines_total(s, j + 1);
            lemma_total_len_concat(seq![strip_cr(s.subrange(i, j))], lines_from(s, j + 1));
            lemma_total_len_single(strip_cr(s.subrange(i, j)));
        } else {
            lemma_total_len_single(s.subrange(i, j));
        }
    }
}

/// Number of occurrences of `c` in `s[..k]`.
pub open spec fn count_char(s: Seq<char>, c: char, k: int) -> nat
    decreases k,
{
    if k <= 0 || k > s.len() {
        0
    } else if s[k - 1] == c {
        count_char(s, c, k - 1) + 1
    } else {
        count_char(s, c, k - 1)
    }
}

pub proof fn lemma_count_char_bound(s: Seq<char>, c: char, d: char, k: int)
    requires
        0 <= k <= s.len(),
        c != d,
    ensures
        count_char(s, c, k) + count_char(s, d, k) <= k,
    decreases k,
{
    if k > 0 {
        lemma_count_char_bound(s, c, d, k - 1);
    }
}

pub fn count_char_exec(v: &[char], c: char) -> (n: usize)
    ensures
        n == count_char(v@, c, v@.len() as int),
{
    let mut n: usize = 0;
    let mut i: usize = 0;
    while i < v.len()
        invariant
            i <= v.len(),
            n == count_char(v@, c, i as int),
            n <= i,
        decreases v.len() - i,
    {
        if v[i] == c {
            n += 1;
        }
        i += 1;
    }
    n
}

pub proof fn lemma_trim_len(s: Seq<char>)
    ensures
        trim(s).len() <= s.len(),
        utf8_len(trim(s)) <= utf8_len(s),
{
    lemma_skip_white_range(s, 0);
    lemma_back_white_range(s, s.len() as int);
    let a = skip_white(s, 0);
    let b = back_white(s, s.len() as int);
    if a < b {
        lemma_utf8_len_subrange(s, a, b);
    }
}

// ---------------------------------------------------------------------------
// The order of `String`s: lexicographic by character (as by UTF-8 byte).
pub open spec fn lex_less(a: Seq<char>, b: Seq<char>) -> bool
    decreases a.len(),
{
    if a.len() == 0 {
        b.len() > 0
    } else if b.len() == 0 {
        false
    } else if a[0] != b[0] {
        a[0] < b[0]
    } else {
        lex_less(a.drop_first(), b.drop_first())
    }
}

pub proof fn lemma_lex_irreflexive(a: Seq<char>)
    ensures
        !lex_less(a, a),
    decreases a.len(),
{
    if a.len() > 0 {
        lemma_lex_irreflexive(a.drop_first());
    }
}

pub proof fn lemma_lex_transitive(a: Seq<char>, b: Seq<char>, c: Seq<char>)
    requires
        lex_less(a, b),
        lex_less(b, c),
    ensures
        lex_less(a, c),
    decreases a.len(),
{
    if a.len() > 0 && b.len() > 0 && c.len() > 0 && a[0] == b[0] && b[0] == c[0] {
        lemma_lex_transitive(a.drop_first(), b.drop_first(), c.drop_first());
    }
}

pub proof fn lemma_lex_total(a: Seq<char>, b: Seq<char>)
    ensures
        a == b || lex_less(a, b) || lex_less(b, a),
    decreases a.len(),
{
    if a.len() > 0 && b.len() > 0 && a[0] == b[0] {
        lemma_lex_total(a.drop_first(), b.drop_first());
        if a.drop_first() == b.drop_first() {
            assert(a =~= seq![a[0]] + a.drop_first());
            assert(b =~= seq![b[0]] + b.drop_first());
        }
    } else if a.len() == 0 && b.len() == 0 {
        assert(a =~= b);
    }
}

pub proof fn lemma_lex_asymmetric(a: Seq<char>, b: Seq<char>)
    requires
        lex_less(a, b),
    ensures
        !lex_less(b, a),
{
    if lex_less(b, a) {
        lemma_lex_transitive(a, b, a);
        lemma_lex_irreflexive(a);
    }
}

/// `lex_less(a, b)`.
pub fn lex_less_exec(a: &str, b: &str) -> (r: bool)
    ensures
        r == lex_less(a@, b@),
{
    let n = a.unicode_len();
    let m = b.unicode_len();
    let mut i: usize = 0;
    assert(a@.skip(0) =~= a@);
    assert(b@.skip(0) =~= b@);
    while i < n && i < m && a.get_char(i) == b.get_char(i)
        invariant
            n == a@.len(),
            m == b@.len(),
            i <= n,
            i <= m,
            lex_less(a@, b@) == lex_less(a@.skip(i as int), b@.skip(i as int)),
        decreases n - i,
    {
        proof {
            assert(a@.skip(i as int).drop_first() =~= a@.skip(i + 1));
            assert(b@.skip(i as int).drop_first() =~= b@.skip(i + 1));
        }
        i += 1;
    }
    if i == n {
        i < m
    } else if i == m {
        false
    } else {
        a.get_char(i) < b.get_char(i)
    }
}

/// `s` padded with spaces on the right to `w` characters, as `{:<w}` writes it.
pub open spec fn pad(s: Seq<char>, w: nat) -> Seq<char> {
    if s.len() >= w {
        s
    } else {
        s + spaces((w - s.len()) as nat)
    }
}

pub fn push_padded(out: &mut String, s: &str, w: usize)
    ensures
        final(out)@ == old(out)@ + pad(s@, w as nat),
{
    let n = s.unicode_len();
    push_str(out, s);
    if n < w {
        push_spaces(out, w - n);
    }
}

} // verus!
