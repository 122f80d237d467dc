//! Tokens of the full pipeline, found line by line by one regular expression.
use vstd::prelude::*;
use crate::text::{
    chars_of, lemma_lines_utf8, lines, split_lines, string_of, utf8_len, views, lemma_lines_count,
    lemma_utf8_len_bounds,
};
use crate::pattern::{capture_view, captures, names_view, regex_captures, successive};

verus! {

#[derive(Debug, Clone, Copy, PartialEq, Eq, Structural)]
pub enum TokenType {
    Keyword,
    Identifier,
    Number,
    Operator,
    Delimiter,
    Type,
    StringLiteral,
}

#[derive(Debug, Clone)]
pub struct Token {
    pub token_type: TokenType,
    pub value: String,
    pub line: usize,
    pub col: usize,
}

/// What a token holds, with its text as characters.
pub struct TokenV {
    pub token_type: TokenType,
    pub value: Seq<char>,
    pub line: usize,
    pub col: usize,
}

impl View for Token {
    type V = TokenV;

    open spec fn view(&self) -> TokenV {
        TokenV { token_type: self.token_type, value: self.value@, line: self.line, col: self.col }
    }
}

impl Token {
    /// A copy of this token.
    pub fn duplicate(&self) -> (t: Token)
        ensures
            t == *self,
    {
        Token { token_type: self.token_type, value: self.value.clone(), line: self.line, col: self.col }
    }
}

pub open spec fn token_views(ts: Seq<Token>) -> Seq<TokenV> {
    ts.map_values(|t: Token| t@)
}

/// The name that `Debug` prints for a token type.
pub open spec fn token_type_name(t: TokenType) -> Seq<char> {
    match t {
        TokenType::Keyword => "Keyword"@,
        TokenType::Identifier => "Identifier"@,
        TokenType::Number => "Number"@,
        TokenType::Operator => "Operator"@,
        TokenType::Delimiter => "Delimiter"@,
        TokenType::Type => "Type"@,
        TokenType::StringLiteral => "StringLiteral"@,
    }
}

impl TokenType {
    pub fn name(&self) -> (s: &'static str)
        ensures
            s@ == token_type_name(*self),
    {
        match self {
            TokenType::Keyword => "Keyword",
            TokenType::Identifier => "Identifier",
            TokenType::Number => "Number",
            TokenType::Operator => "Operator",
            TokenType::Delimiter => "Delimiter",
            TokenType::Type => "Type",
            TokenType::StringLiteral => "StringLiteral",
        }
    }
}

/// The named groups of the token pattern, in the order in which they are tried:
/// `type`, `kw`, `str`, `id`, `num`, `op`, `delim`.
pub open spec fn group_type(k: int) -> TokenType {
    if k == 0 {
        TokenType::Type
    } else if k == 1 {
        TokenType::Keyword
    } else if k == 2 {
        TokenType::StringLiteral
    } else if k == 3 {
        TokenType::Identifier
    } else if k == 4 {
        TokenType::Number
    } else if k == 5 {
        TokenType::Operator
    } else {
        TokenType::Delimiter
    }
}

/// The token pattern: one named group per kind of token, tried in the order
/// above.
pub open spec fn token_pattern() -> Seq<char> {
    r#"(?P<type>int|float|void|char)|(?P<kw>return|if|else|while|for)|(?P<str>"[^"]*")|(?P<id>[a-zA-Z_][a-zA-Z0-9_]*)|(?P<num>\d+\.\d+|\d+)|(?P<op>==|!=|<=|>=|=|\+|-|\*|/|>|<)|(?P<delim>[\(\)\{\};])"#@
}

/// The names of the groups of the token pattern, in the order above.
pub open spec fn token_groups() -> Seq<Seq<char>> {
    seq!["type"@, "kw"@, "str"@, "id"@, "num"@, "op"@, "delim"@]
}

/// For each successive match of the token pattern in `line`, the seven named
/// groups in the order above: each the byte offset and the text it matched,
/// or `None`.
pub open spec fn token_captures(line: Seq<char>) -> Seq<Seq<Option<(usize, Seq<char>)>>> {
    regex_captures(token_pattern(), token_groups(), line)
}

/// The first of the named groups `caps[k..]` (the first seven only) that matched.
pub open spec fn first_group(caps: Seq<Option<(usize, Seq<char>)>>, k: int) -> Option<(int, usize, Seq<char>)>
    decreases 7 - k,
{
    if k < 0 || k >= 7 || k >= caps.len() {
        None
    } else {
        match caps[k] {
            Some((st, t)) => Some((k, st, t)),
            None => first_group(caps, k + 1),
        }
    }
}

/// The token that one match yields on line number `n`, if any group matched.
pub open spec fn token_of_match(caps: Seq<Option<(usize, Seq<char>)>>, n: int) -> Option<TokenV> {
    match first_group(caps, 0) {
        Some((k, st, t)) => Some(
            TokenV { token_type: group_type(k), value: t, line: n as usize, col: (st + 1) as usize },
        ),
        None => None,
    }
}

/// Tokens of the first `m` matches in a line numbered `n`.
pub open spec fn line_tokens(ms: Seq<Seq<Option<(usize, Seq<char>)>>>, n: int, m: int) -> Seq<TokenV>
    decreases m,
{
    if m <= 0 || m > ms.len() {
        Seq::empty()
    } else {
        match token_of_match(ms[m - 1], n) {
            Some(t) => line_tokens(ms, n, m - 1).push(t),
            None => line_tokens(ms, n, m - 1),
        }
    }
}

/// Tokens of the first `k` lines.
pub open spec fn tokens_of_lines(ls: Seq<Seq<char>>, k: int) -> Seq<TokenV>
    decreases k,
{
    if k <= 0 || k > ls.len() {
        Seq::empty()
    } else {
        let ms = token_captures(ls[k - 1]);
        tokens_of_lines(ls, k - 1) + line_tokens(ms, k, ms.len() as int)
    }
}

/// The tokens of `input`, line by line, numbered from 1, columns counted in bytes from 1.
pub open spec fn tokenize_spec(input: Seq<char>) -> Seq<TokenV> {
    tokens_of_lines(lines(input), lines(input).len() as int)
}

proof fn lemma_first_group_range(caps: Seq<Option<(usize, Seq<char>)>>, k: int)
    requires
        0 <= k,
    ensures
        first_group(caps, k) matches Some((j, st, t)) ==> k <= j < 7 && j < caps.len()
            && caps[j] == Some((st, t)),
    decreases 7 - k,
{
    if k < 7 && k < caps.len() && caps[k] is None {
        lemma_first_group_range(caps, k + 1);
    }
}

proof fn lemma_line_tokens_line(ms: Seq<Seq<Option<(usize, Seq<char>)>>>, n: int, m: int)
    ensures
        forall|a: int| 0 <= a < line_tokens(ms, n, m).len() ==> (#[trigger] line_tokens(ms, n, m)[a]).line
            == n as usize,
    decreases m,
{
    if 0 < m <= ms.len() {
        lemma_line_tokens_line(ms, n, m - 1);
        let before = line_tokens(ms, n, m - 1);
        assert forall|a: int| 0 <= a < line_tokens(ms, n, m).len() implies (
        #[trigger] line_tokens(ms, n, m)[a]).line == n as usize by {
            if a < before.len() {
                assert(line_tokens(ms, n, m)[a] == before[a]);
            }
        }
    }
}

/// The tokens of the first `k` lines come in line order, numbered from 1 to `k`.
proof fn lemma_tokens_in_line_order(ls: Seq<Seq<char>>, k: int)
    requires
        0 <= k <= ls.len() <= usize::MAX,
    ensures
        forall|a: int, b: int|
            0 <= a <= b < tokens_of_lines(ls, k).len() ==> (#[trigger] tokens_of_lines(ls, k)[a]).line
                <= (#[trigger] tokens_of_lines(ls, k)[b]).line,
        forall|a: int|
            0 <= a < tokens_of_lines(ls, k).len() ==> 1 <= (#[trigger] tokens_of_lines(ls, k)[a]).line
                <= k,
    decreases k,
{
    if k > 0 {
        lemma_tokens_in_line_order(ls, k - 1);
        let ms = token_captures(ls[k - 1]);
        lemma_line_tokens_line(ms, k, ms.len() as int);
        let before = tokens_of_lines(ls, k - 1);
        let added = line_tokens(ms, k, ms.len() as int);
        let all = tokens_of_lines(ls, k);
        assert(all == before + added);
        assert forall|a: int| 0 <= a < all.len() implies 1 <= (#[trigger] all[a]).line <= k by {
            if a >= before.len() {
                assert(all[a] == added[a - before.len()]);
            }
        }
        assert forall|a: int, b: int| 0 <= a <= b < all.len() implies (#[trigger] all[a]).line <= (
        #[trigger] all[b]).line by {
            if b >= before.len() {
                assert(all[b] == added[b - before.len()]);
                if a >= before.len() {
                    assert(all[a] == added[a - before.len()]);
                } else {
                    assert(all[a] == before[a]);
                }
            } else {
                assert(all[a] == before[a] && all[b] == before[b]);
            }
        }
    }
}

/// Where a token's text ends, in bytes from the start of its line.
pub open spec fn token_end(t: TokenV) -> int {
    t.col - 1 + utf8_len(t.value)
}

/// Tokens of one line come in order and do not overlap: each ends no later
/// than the next one on its line starts.
pub open spec fn tokens_apart(ts: Seq<TokenV>) -> bool {
    forall|a: int, b: int|
        0 <= a < b < ts.len() && ts[a].line == ts[b].line ==> token_end(#[trigger] ts[a]) <= (
        #[trigger] ts[b]).col - 1
}

/// Every offset in `ms` is below `usize::MAX`.
pub open spec fn offsets_fit(ms: Seq<Seq<Option<(usize, Seq<char>)>>>) -> bool {
    forall|i: int, k: int|
        0 <= i < ms.len() && 0 <= k < ms[i].len() ==> (#[trigger] ms[i][k] matches Some((st, _))
            ==> st < usize::MAX)
}

/// Successive matches give tokens in order, each ending before any group of a
/// later match starts.
proof fn lemma_line_tokens_apart(ms: Seq<Seq<Option<(usize, Seq<char>)>>>, n: int, m: int)
    requires
        0 <= m <= ms.len(),
        successive(ms),
        offsets_fit(ms),
    ensures
        tokens_apart(line_tokens(ms, n, m)),
        forall|a: int, j: int, l: int|
            0 <= a < line_tokens(ms, n, m).len() && m <= j < ms.len() && 0 <= l < ms[j].len() ==> (
            #[trigger] ms[j][l] matches Some((s2, _)) ==> token_end(
                #[trigger] line_tokens(ms, n, m)[a],
            ) <= s2),
    decreases m,
{
    if m > 0 {
        lemma_line_tokens_apart(ms, n, m - 1);
        let before = line_tokens(ms, n, m - 1);
        lemma_first_group_range(ms[m - 1], 0);
        match first_group(ms[m - 1], 0) {
            Some((k, st, txt)) => {
                let all = line_tokens(ms, n, m);
                let t = all[all.len() - 1];
                assert(ms[m - 1][k] == Some((st, txt)));
                assert(st < usize::MAX);
                assert(t.col == st + 1);
                assert(all == before.push(t));
                assert forall|a: int, b: int|
                    0 <= a < b < all.len() && all[a].line == all[b].line implies token_end(
                    #[trigger] all[a],
                ) <= (#[trigger] all[b]).col - 1 by {
                    assert(all[a] == before[a]);
                    if b < before.len() {
                        assert(all[b] == before[b]);
                    } else {
                        assert(ms[m - 1][k] matches Some((s2, _)) ==> token_end(before[a]) <= s2);
                    }
                }
                assert forall|a: int, j: int, l: int|
                    0 <= a < all.len() && m <= j < ms.len() && 0 <= l < ms[j].len() implies (
                #[trigger] ms[j][l] matches Some((s2, _)) ==> token_end(#[trigger] all[a]) <= s2) by {
                    if a < before.len() {
                        assert(all[a] == before[a]);
                    } else {
                        assert(ms[m - 1][k] matches Some((s1, t1)) ==> (ms[j][l] matches Some(
                            (s2, _),
                        ) ==> s1 + utf8_len(t1) <= s2));
                    }
                }
            },
            None => {},
        }
    }
}

/// Tokens in order on each line stay so when tokens of a later line follow.
proof fn lemma_apart_concat(a: Seq<TokenV>, b: Seq<TokenV>, n: usize)
    requires
        tokens_apart(a),
        tokens_apart(b),
        forall|i: int| 0 <= i < a.len() ==> (#[trigger] a[i]).line < n,
        forall|i: int| 0 <= i < b.len() ==> (#[trigger] b[i]).line == n,
    ensures
        tokens_apart(a + b),
{
    let c = a + b;
    assert forall|x: int, y: int| 0 <= x < y < c.len() && c[x].line == c[y].line implies token_end(
        #[trigger] c[x],
    ) <= (#[trigger] c[y]).col - 1 by {
        if y < a.len() {
            assert(c[x] == a[x] && c[y] == a[y]);
        } else if x >= a.len() {
            assert(c[x] == b[x - a.len()] && c[y] == b[y - a.len()]);
        } else {
            assert(c[x] == a[x] && c[y] == b[y - a.len()]);
        }
    }
}

/// The tokens that the matches `caps` yield on the line numbered `n`, appended
/// to `out`: for each match, its first group that matched, if any, a token of
/// that group's kind at the group's byte offset plus one.
pub fn push_match_tokens(caps: &Vec<Vec<Option<(usize, String)>>>, n: usize, out: &mut Vec<Token>)
    requires
        forall|a: int, b: int|
            0 <= a < caps@.len() && 0 <= b < caps@[a]@.len() ==> (#[trigger] caps@[a]@[b] matches Some(
                (st, _),
            ) ==> st < usize::MAX),
    ensures
        token_views(final(out)@) == token_views(old(out)@) + line_tokens(
            caps@.map_values(|c: Vec<Option<(usize, String)>>| capture_view(c)),
            n as int,
            caps@.len() as int,
        ),
{
    let ghost ms = caps@.map_values(|c: Vec<Option<(usize, String)>>| capture_view(c));
    let ghost out0 = token_views(out@);
    let mut i: usize = 0;
    while i < caps.len()
        invariant
            i <= caps@.len() == ms.len(),
            ms == caps@.map_values(|c: Vec<Option<(usize, String)>>| capture_view(c)),
            token_views(out@) == out0 + line_tokens(ms, n as int, i as int),
            forall|a: int, b: int|
                0 <= a < caps@.len() && 0 <= b < caps@[a]@.len() ==> (#[trigger] caps@[a]@[b] matches Some(
                    (st, _),
                ) ==> st < usize::MAX),
        decreases caps.len() - i,
    {
        let groups = &caps[i];
        assert(capture_view(caps@[i as int]) == ms[i as int]);
        let mut k: usize = 0;
        while k < groups.len() && k < 7 && groups[k].is_none()
            invariant
                k <= groups.len(),
                k <= 7,
                first_group(ms[i as int], k as int) == first_group(ms[i as int], 0),
                capture_view(*groups) == ms[i as int],
            decreases groups.len() - k,
        {
            assert(ms[i as int][k as int] is None);
            k += 1;
        }
        if k < groups.len() && k < 7 {
            if let Some((st, text)) = &groups[k] {
                let st: usize = *st;
                proof {
                    assert(caps@[i as int]@[k as int] matches Some((a, _)) ==> a < usize::MAX);
                    assert(ms[i as int][k as int] == Some((st, text@)));
                }
                let tt = if k == 0 {
                    TokenType::Type
                } else if k == 1 {
                    TokenType::Keyword
                } else if k == 2 {
                    TokenType::StringLiteral
                } else if k == 3 {
                    TokenType::Identifier
                } else if k == 4 {
                    TokenType::Number
                } else if k == 5 {
                    TokenType::Operator
                } else {
                    TokenType::Delimiter
                };
                let ghost before = token_views(out@);
                out.push(Token { token_type: tt, value: text.clone(), line: n, col: st + 1 });
                proof {
                    assert(token_views(out@) == before.push(out@.last()@));
                }
            }
        }
        i += 1;
    }
}

/// Tokens of one line, numbered `n`.
fn tokens_of_line(line: &[char], n: usize, out: &mut Vec<Token>)
    requires
        utf8_len(line@) < usize::MAX,
    ensures
        token_views(final(out)@) == token_views(old(out)@) + line_tokens(
            token_captures(line@),
            n as int,
            token_captures(line@).len() as int,
        ),
        tokens_apart(line_tokens(token_captures(line@), n as int, token_captures(line@).len() as int)),
{
    let s = string_of(line);
    let groups: Vec<&str> = vec!["type", "kw", "str", "id", "num", "op", "delim"];
    assert(names_view(groups@) =~= token_groups());
    let caps = captures(
        r#"(?P<type>int|float|void|char)|(?P<kw>return|if|else|while|for)|(?P<str>"[^"]*")|(?P<id>[a-zA-Z_][a-zA-Z0-9_]*)|(?P<num>\d+\.\d+|\d+)|(?P<op>==|!=|<=|>=|=|\+|-|\*|/|>|<)|(?P<delim>[\(\)\{\};])"#,
        groups.as_slice(),
        s.as_str(),
    );
    proof {
        let ms = caps@.map_values(|c: Vec<Option<(usize, String)>>| capture_view(c));
        assert(offsets_fit(ms)) by {
            assert forall|i: int, k: int| 0 <= i < ms.len() && 0 <= k < ms[i].len() implies (
            #[trigger] ms[i][k] matches Some((st, _)) ==> st < usize::MAX) by {
                assert(ms[i] == capture_view(caps@[i]));
                assert(caps@[i]@[k] matches Some((a, _)) ==> a <= utf8_len(s@));
            }
        }
        lemma_line_tokens_apart(ms, n as int, ms.len() as int);
    }
    push_match_tokens(&caps, n, out);
}

/// The tokens of `input`: each line (as `str::lines` splits it) searched with
/// the token pattern, each match a token of the first named group that matched.
pub fn tokenize(input: &str) -> (tokens: Vec<Token>)
    requires
        utf8_len(input@) < usize::MAX,
    ensures
        token_views(tokens@) == tokenize_spec(input@),
        forall|a: int, b: int|
            0 <= a <= b < tokens@.len() ==> (#[trigger] tokens@[a]).line <= (#[trigger] tokens@[b]).line,
        forall|a: int|
            0 <= a < tokens@.len() ==> 1 <= (#[trigger] tokens@[a]).line <= lines(input@).len(),
        tokens_apart(token_views(tokens@)),
{
    let chars = chars_of(input);
    let ls = split_lines(&chars);
    let ghost lv = lines(input@);
    let mut out: Vec<Token> = Vec::new();
    proof {
        lemma_lines_count(input@, 0);
        lemma_utf8_len_bounds(input@);
    }
    let mut k: usize = 0;
    while k < ls.len()
        invariant
            views(ls@) == lv,
            lv == lines(input@),
            lv.len() <= usize::MAX,
            k <= ls@.len(),
            utf8_len(input@) < usize::MAX,
            token_views(out@) == tokens_of_lines(lv, k as int),
            tokens_apart(token_views(out@)),
        decreases ls.len() - k,
    {
        proof {
            assert(views(ls@)[k as int] == ls@[k as int]@);
            assert(views(ls@).len() == ls@.len());
            lemma_lines_utf8(input@, 0, k as int);
            lemma_tokens_in_line_order(lv, k as int);
            let ms = token_captures(lv[k as int]);
            lemma_line_tokens_line(ms, k + 1, ms.len() as int);
        }
        let ghost before = token_views(out@);
        tokens_of_line(&ls[k], k + 1, &mut out);
        proof {
            let ms = token_captures(lv[k as int]);
            lemma_apart_concat(before, line_tokens(ms, k + 1, ms.len() as int), (k + 1) as usize);
        }
        k += 1;
    }
    proof {
        assert(views(ls@).len() == ls@.len());
        lemma_lines_count(input@, 0);
        lemma_utf8_len_bounds(input@);
        lemma_tokens_in_line_order(lv, lv.len() as int);
        assert forall|a: int| 0 <= a < out@.len() implies token_views(out@)[a].line == (
        #[trigger] out@[a]).line by {}
    }
    out
}

} // verus!
