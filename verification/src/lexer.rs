//! The second stage: a hand-written lexer over characters, reporting errors
//! and going on after them.
use vstd::prelude::*;
use vstd::string::StringExecFns;
use crate::text::{
    ascii_alpha, ascii_digit, chars_of, decimal, is_ascii_alpha, is_ascii_digit, is_white, is_whitespace, push_char,
    push_decimal, push_str, str_eq, string_of, chars_eq_str,
};
use crate::cleaning::{clean_text, cleaned};

verus! {

#[derive(Debug, Clone, Copy, PartialEq, Eq, Structural)]
pub enum TokenType {
    Keyword,
    Identifier,
    ConstantInt,
    ConstantFloat,
    ConstantString,
    ConstantBool,
    Operator,
    Delimiter,
}

/// The name that `Debug` (and so `Display`) prints for a token type.
pub open spec fn token_type_name(t: TokenType) -> Seq<char> {
    match t {
        TokenType::Keyword => "Keyword"@,
        TokenType::Identifier => "Identifier"@,
        TokenType::ConstantInt => "ConstantInt"@,
        TokenType::ConstantFloat => "ConstantFloat"@,
        TokenType::ConstantString => "ConstantString"@,
        TokenType::ConstantBool => "ConstantBool"@,
        TokenType::Operator => "Operator"@,
        TokenType::Delimiter => "Delimiter"@,
    }
}

impl TokenType {
    pub fn name(&self) -> (s: &'static str)
        ensures
            s@ == token_type_name(*self),
    {
        match self {
            TokenType::Keyword => "Keyword",
            TokenType::Identifier => "Identifier",
            TokenType::ConstantInt => "ConstantInt",
            TokenType::ConstantFloat => "ConstantFloat",
            TokenType::ConstantString => "ConstantString",
            TokenType::ConstantBool => "ConstantBool",
            TokenType::Operator => "Operator",
            TokenType::Delimiter => "Delimiter",
        }
    }
}

#[derive(Debug, Clone)]
pub struct Token {
    pub lexeme: String,
    pub token_type: TokenType,
}

pub struct TokenV {
    pub lexeme: Seq<char>,
    pub token_type: TokenType,
}

impl View for Token {
    type V = TokenV;

    open spec fn view(&self) -> TokenV {
        TokenV { lexeme: self.lexeme@, token_type: self.token_type }
    }
}

pub open spec fn token_views(ts: Seq<Token>) -> Seq<TokenV> {
    ts.map_values(|t: Token| t@)
}

pub open spec fn strs(v: Seq<String>) -> Seq<Seq<char>> {
    v.map_values(|s: String| s@)
}

pub open spec fn keyword_list() -> Seq<Seq<char>> {
    seq!["int"@, "void"@, "char"@, "if"@, "else"@, "while"@, "for"@, "return"@]
}

pub open spec fn is_ident_start(c: char) -> bool {
    is_ascii_alpha(c) || c == '_'
}

pub open spec fn is_ident_char(c: char) -> bool {
    is_ascii_alpha(c) || is_ascii_digit(c) || c == '_'
}

/// Where the identifier characters starting at `i` end.
pub open spec fn ident_end(s: Seq<char>, i: int) -> int
    decreases s.len() - i,
{
    if i < 0 || i >= s.len() {
        s.len() as int
    } else if is_ident_char(s[i]) {
        ident_end(s, i + 1)
    } else {
        i
    }
}

/// A keyword, `true`/`false`, or an identifier, by its text.
pub open spec fn word_type(w: Seq<char>) -> TokenType {
    if keyword_list().contains(w) {
        TokenType::Keyword
    } else if w == "true"@ || w == "false"@ {
        TokenType::ConstantBool
    } else {
        TokenType::Identifier
    }
}

pub open spec fn read_identifier_spec(s: Seq<char>, pos: int) -> (TokenV, int) {
    let e = ident_end(s, pos);
    let w = s.subrange(pos, e);
    (TokenV { lexeme: w, token_type: word_type(w) }, e)
}

pub open spec fn extra_dot_msg(lexeme: Seq<char>) -> Seq<char> {
    "Ошибка в числе '"@ + lexeme + "': лишняя точка"@
}

pub open spec fn letter_in_number_msg(c: char) -> Seq<char> {
    "Ошибка: буква '"@ + seq![c] + "' в числовой константе"@
}

/// The number that starts at `start`, read up to `i` with `dots` dots so far.
pub open spec fn number_from(s: Seq<char>, start: int, i: int, dots: int) -> (
    Result<TokenV, Seq<char>>,
    int,
)
    decreases s.len() - i,
{
    if 0 <= i < s.len() && is_ascii_digit(s[i]) {
        number_from(s, start, i + 1, dots)
    } else if 0 <= i < s.len() && s[i] == '.' {
        if dots + 1 > 1 {
            (Err(extra_dot_msg(s.subrange(start, i + 1))), i + 1)
        } else {
            number_from(s, start, i + 1, dots + 1)
        }
    } else if 0 <= i < s.len() && is_ascii_alpha(s[i]) {
        (Err(letter_in_number_msg(s[i])), i + 1)
    } else {
        (
            Ok(
                TokenV {
                    lexeme: s.subrange(start, i),
                    token_type: if dots == 1 {
                        TokenType::ConstantFloat
                    } else {
                        TokenType::ConstantInt
                    },
                },
            ),
            i,
        )
    }
}

pub open spec fn unclosed_string_msg() -> Seq<char> {
    "Ошибка: незакрытый строковый литерал"@
}

/// Index of the first `"` at or after `i`, or the length of `s`.
pub open spec fn quote_end(s: Seq<char>, i: int) -> int
    decreases s.len() - i,
{
    if i < 0 || i >= s.len() {
        s.len() as int
    } else if s[i] == '"' {
        i
    } else {
        quote_end(s, i + 1)
    }
}

/// The string literal whose opening quote is at `pos`.
pub open spec fn read_string_spec(s: Seq<char>, pos: int) -> (Result<TokenV, Seq<char>>, int) {
    let e = quote_end(s, pos + 1);
    if e < s.len() {
        (Ok(TokenV { lexeme: s.subrange(pos + 1, e), token_type: TokenType::ConstantString }), e + 1)
    } else {
        (Err(unclosed_string_msg()), s.len() as int)
    }
}

pub open spec fn two_char_operators() -> Seq<Seq<char>> {
    seq!["=="@, "!="@, "<="@, ">="@, "&&"@, "||"@]
}

pub open spec fn one_char_operators() -> Seq<char> {
    seq!['=', '+', '-', '*', '/', '<', '>', '!']
}

pub open spec fn delimiters() -> Seq<char> {
    seq![';', ',', '(', ')', '{', '}', '[', ']']
}

/// The operator or delimiter at `pos`, two characters preferred to one.
pub open spec fn read_operator_spec(s: Seq<char>, pos: int) -> Option<(TokenV, int)> {
    if !(0 <= pos < s.len()) {
        None
    } else if pos + 1 < s.len() && two_char_operators().contains(s.subrange(pos, pos + 2)) {
        Some((TokenV { lexeme: s.subrange(pos, pos + 2), token_type: TokenType::Operator }, pos + 2))
    } else if one_char_operators().contains(s[pos]) {
        Some((TokenV { lexeme: seq![s[pos]], token_type: TokenType::Operator }, pos + 1))
    } else if delimiters().contains(s[pos]) {
        Some((TokenV { lexeme: seq![s[pos]], token_type: TokenType::Delimiter }, pos + 1))
    } else {
        None
    }
}

pub open spec fn unknown_char_msg(c: char, pos: int) -> Seq<char> {
    "Неизвестный символ '"@ + seq![c] + "' в позиции "@ + decimal(pos as nat)
}

/// Tokens and errors of `s[pos..]`, after `toks` and `errs`.
pub open spec fn lex_from(
    s: Seq<char>,
    pos: int,
    toks: Seq<TokenV>,
    errs: Seq<Seq<char>>,
) -> (Seq<TokenV>, Seq<Seq<char>>)
    decreases s.len() - pos,
{
    if !(0 <= pos < s.len()) {
        (toks, errs)
    } else {
        let ch = s[pos];
        if is_white(ch) {
            lex_from(s, pos + 1, toks, errs)
        } else if is_ident_start(ch) {
            let (t, p) = read_identifier_spec(s, pos);
            if pos < p <= s.len() {
                lex_from(s, p, toks.push(t), errs)
            } else {
                (toks, errs)
            }
        } else if is_ascii_digit(ch) {
            let (r, p) = number_from(s, pos, pos, 0);
            if pos < p <= s.len() {
                match r {
                    Ok(t) => lex_from(s, p, toks.push(t), errs),
                    Err(e) => lex_from(s, p, toks, errs.push(e)),
                }
            } else {
                (toks, errs)
            }
        } else if ch == '"' {
            let (r, p) = read_string_spec(s, pos);
            if pos < p <= s.len() {
                match r {
                    Ok(t) => lex_from(s, p, toks.push(t), errs),
                    Err(e) => lex_from(s, p, toks, errs.push(e)),
                }
            } else {
                (toks, errs)
            }
        } else {
            match read_operator_spec(s, pos) {
                Some((t, p)) => if pos < p <= s.len() {
                    lex_from(s, p, toks.push(t), errs)
                } else {
                    (toks, errs)
                },
                None => lex_from(s, pos + 1, toks, errs.push(unknown_char_msg(ch, pos))),
            }
        }
    }
}

pub struct Lexer {
    input: Vec<char>,
    pos: usize,
    keywords: Vec<&'static str>,
}

impl Lexer {
    /// The characters being read.
    pub closed spec fn chars(&self) -> Seq<char> {
        self.input@
    }

    /// Index of the next character to read.
    pub closed spec fn at(&self) -> int {
        self.pos as int
    }

    /// The position is within the input and the keyword list is the fixed one.
    pub closed spec fn wf(&self) -> bool {
        &&& self.pos <= self.input@.len()
        &&& self.keywords@.map_values(|k: &'static str| k@) == keyword_list()
    }

    pub fn new(input: &str) -> (l: Lexer)
        ensures
            l.wf(),
            l.chars() == input@,
            l.at() == 0,
    {
        let l = Lexer {
            input: chars_of(input),
            pos: 0,
            keywords: vec!["int", "void", "char", "if", "else", "while", "for", "return"],
        };
        assert(l.keywords@.map_values(|k: &'static str| k@) =~= keyword_list());
        l
    }

    fn peek(&self) -> (c: Option<char>)
        ensures
            c == if self.pos < self.input@.len() {
                Some(self.input@[self.pos as int])
            } else {
                None::<char>
            },
    {
        if self.pos < self.input.len() {
            Some(self.input[self.pos])
        } else {
            None
        }
    }

    fn advance(&mut self) -> (c: Option<char>)
        requires
            old(self).pos <= old(self).input@.len(),
        ensures
            final(self).input == old(self).input,
            final(self).keywords == old(self).keywords,
            c == if old(self).pos < old(self).input@.len() {
                Some(old(self).input@[old(self).pos as int])
            } else {
                None::<char>
            },
            final(self).pos == if old(self).pos < old(self).input@.len() {
                old(self).pos + 1
            } else {
                old(self).pos as int
            },
    {
        let res = self.peek();
        if res.is_some() {
            assert(self.pos < self.input.len());
            self.pos += 1;
        }
        res
    }

    fn is_keyword(&self, w: &String) -> (b: bool)
        requires
            self.wf(),
        ensures
            b == keyword_list().contains(w@),
    {
        let mut i: usize = 0;
        while i < self.keywords.len()
            invariant
                self.wf(),
                i <= self.keywords@.len(),
                forall|k: int| 0 <= k < i ==> keyword_list()[k] != w@,
            decreases self.keywords.len() - i,
        {
            assert(self.keywords@.map_values(|k: &'static str| k@)[i as int] == self.keywords@[i as int]@);
            if str_eq(self.keywords[i], w.as_str()) {
                assert(keyword_list()[i as int] == w@);
                return true;
            }
            i += 1;
        }
        assert(self.keywords@.map_values(|k: &'static str| k@).len() == self.keywords@.len());
        false
    }

    fn read_identifier_or_keyword(&mut self) -> (t: Token)
        requires
            old(self).wf(),
        ensures
            final(self).wf(),
            final(self).input == old(self).input,
            (t@, final(self).pos as int) == read_identifier_spec(old(self).input@, old(self).pos as int),
    {
        let start = self.pos;
        let mut lexeme = String::new();
        while self.pos < self.input.len() && (ascii_alpha(self.input[self.pos])
            || ascii_digit(self.input[self.pos]) || self.input[self.pos] == '_')
            invariant
                self.wf(),
                self.input == old(self).input,
                self.keywords == old(self).keywords,
                start == old(self).pos,
                start <= self.pos,
                ident_end(self.input@, self.pos as int) == ident_end(self.input@, start as int),
                lexeme@ == self.input@.subrange(start as int, self.pos as int),
            decreases self.input.len() - self.pos,
        {
            let c = self.input[self.pos];
            self.pos += 1;
            push_char(&mut lexeme, c);
        }
        let token_type = if self.is_keyword(&lexeme) {
            TokenType::Keyword
        } else if str_eq(lexeme.as_str(), "true") || str_eq(lexeme.as_str(), "false") {
            TokenType::ConstantBool
        } else {
            TokenType::Identifier
        };
        Token { lexeme, token_type }
    }

    fn read_number(&mut self) -> (r: Result<Token, String>)
        requires
            old(self).wf(),
        ensures
            final(self).wf(),
            old(self).pos <= final(self).pos,
            old(self).pos < old(self).input@.len() && is_ascii_digit(
                old(self).input@[old(self).pos as int],
            ) ==> old(self).pos < final(self).pos,
            final(self).input == old(self).input,
            (
                match r {
                    Ok(t) => Ok(t@),
                    Err(e) => Err(e@),
                },
                final(self).pos as int,
            ) == number_from(old(self).input@, old(self).pos as int, old(self).pos as int, 0),
    {
        let start = self.pos;
        let mut lexeme = String::new();
        let mut dot_count: i32 = 0;
        while self.pos < self.input.len()
            invariant
                self.wf(),
                self.input == old(self).input,
                self.keywords == old(self).keywords,
                start == old(self).pos,
                start <= self.pos,
                0 <= dot_count <= 1,
                number_from(self.input@, start as int, start as int, 0) == number_from(
                    self.input@,
                    start as int,
                    self.pos as int,
                    dot_count as int,
                ),
                lexeme@ == self.input@.subrange(start as int, self.pos as int),
            ensures
                start <= self.pos,
                start < self.input@.len() && is_ascii_digit(self.input@[start as int]) ==> start
                    < self.pos,
                self.wf(),
                self.input == old(self).input,
                0 <= dot_count <= 1,
                number_from(self.input@, start as int, start as int, 0) == number_from(
                    self.input@,
                    start as int,
                    self.pos as int,
                    dot_count as int,
                ),
                lexeme@ == self.input@.subrange(start as int, self.pos as int),
                !(self.pos < self.input@.len() && (is_ascii_digit(self.input@[self.pos as int])
                    || self.input@[self.pos as int] == '.' || is_ascii_alpha(
                    self.input@[self.pos as int],
                ))),
            decreases self.input.len() - self.pos,
        {
            let ch = self.input[self.pos];
            if ascii_digit(ch) {
                self.pos += 1;
                push_char(&mut lexeme, ch);
            } else if ch == '.' {
                let ghost i0 = self.pos as int;
                let ghost d0 = dot_count as int;
                dot_count += 1;
                self.pos += 1;
                push_char(&mut lexeme, ch);
                if dot_count > 1 {
                    let mut msg = String::from_str("Ошибка в числе '");
                    push_str(&mut msg, lexeme.as_str());
                    push_str(&mut msg, "': лишняя точка");
                    assert(lexeme@ =~= self.input@.subrange(start as int, i0 + 1));
                    assert(msg@ =~= extra_dot_msg(lexeme@));
                    assert(d0 == 1);
                    assert(number_from(self.input@, start as int, i0, d0) == (
                        Err::<TokenV, Seq<char>>(extra_dot_msg(self.input@.subrange(start as int, i0 + 1))),
                        i0 + 1,
                    ));
                    return Err(msg);
                }
            } else if ascii_alpha(ch) {
                self.pos += 1;
                let mut msg = String::from_str("Ошибка: буква '");
                push_char(&mut msg, ch);
                push_str(&mut msg, "' в числовой константе");
                assert(msg@ =~= letter_in_number_msg(ch));
                return Err(msg);
            } else {
                break;
            }
        }
        let token_type = if dot_count == 1 {
            TokenType::ConstantFloat
        } else {
            TokenType::ConstantInt
        };
        Ok(Token { lexeme, token_type })
    }

    fn read_string(&mut self) -> (r: Result<Token, String>)
        requires
            old(self).wf(),
        ensures
            final(self).wf(),
            final(self).input == old(self).input,
            (
                match r {
                    Ok(t) => Ok(t@),
                    Err(e) => Err(e@),
                },
                final(self).pos as int,
            ) == read_string_spec(old(self).input@, old(self).pos as int),
    {
        self.advance();
        let start = self.pos;
        let mut lexeme = String::new();
        while self.pos < self.input.len()
            invariant
                self.wf(),
                self.input == old(self).input,
                self.keywords == old(self).keywords,
                start == if old(self).pos < self.input@.len() {
                    old(self).pos + 1
                } else {
                    old(self).pos as int
                },
                start <= self.pos,
                quote_end(self.input@, self.pos as int) == quote_end(
                    self.input@,
                    old(self).pos + 1,
                ),
                lexeme@ == self.input@.subrange(start as int, self.pos as int),
            decreases self.input.len() - self.pos,
        {
            let ch = self.input[self.pos];
            if ch == '"' {
                self.pos += 1;
                return Ok(Token { lexeme, token_type: TokenType::ConstantString });
            }
            self.pos += 1;
            push_char(&mut lexeme, ch);
        }
        Err(String::from_str("Ошибка: незакрытый строковый литерал"))
    }

    fn read_operator_or_delimiter(&mut self) -> (r: Option<Token>)
        requires
            old(self).wf(),
        ensures
            final(self).wf(),
            final(self).input == old(self).input,
            match r {
                Some(t) => read_operator_spec(old(self).input@, old(self).pos as int) == Some(
                    (t@, final(self).pos as int),
                ),
                None => read_operator_spec(old(self).input@, old(self).pos as int) is None
                    && final(self).pos == old(self).pos,
            },
    {
        if self.pos < self.input.len() {
            let ch = self.input[self.pos];
            if self.pos + 1 < self.input.len() {
                let next_ch = self.input[self.pos + 1];
                let two = [ch, next_ch];
                let is_two = (ch == '=' && next_ch == '=') || (ch == '!' && next_ch == '=') || (ch
                    == '<' && next_ch == '=') || (ch == '>' && next_ch == '=') || (ch == '&'
                    && next_ch == '&') || (ch == '|' && next_ch == '|');
                proof {
                    let w = self.input@.subrange(self.pos as int, self.pos + 2);
                    reveal_strlit("==");
                    reveal_strlit("!=");
                    reveal_strlit("<=");
                    reveal_strlit(">=");
                    reveal_strlit("&&");
                    reveal_strlit("||");
                    assert(w =~= seq![ch, next_ch]);
                    if is_two {
                        assert(two_char_operators().contains(w)) by {
                            if ch == '=' {
                                assert(w =~= two_char_operators()[0]);
                            } else if ch == '!' {
                                assert(w =~= two_char_operators()[1]);
                            } else if ch == '<' {
                                assert(w =~= two_char_operators()[2]);
                            } else if ch == '>' {
                                assert(w =~= two_char_operators()[3]);
                            } else if ch == '&' {
                                assert(w =~= two_char_operators()[4]);
                            } else {
                                assert(w =~= two_char_operators()[5]);
                            }
                        }
                    } else {
                        assert forall|k: int| 0 <= k < 6 implies two_char_operators()[k] != w by {
                            if two_char_operators()[k] == w {
                                assert(w[0] == two_char_operators()[k][0]);
                                assert(w[1] == two_char_operators()[k][1]);
                            }
                        }
                    }
                }
                if is_two {
                    self.pos += 2;
                    return Some(Token { lexeme: string_of(&two), token_type: TokenType::Operator });
                }
            }
            let is_op = ch == '=' || ch == '+' || ch == '-' || ch == '*' || ch == '/' || ch == '<'
                || ch == '>' || ch == '!';
            let one = [ch];
            assert(one@ =~= seq![ch]);
            if is_op {
                assert(one_char_operators().contains(ch)) by {
                    if ch == '=' {
                        assert(one_char_operators()[0] == ch);
                    } else if ch == '+' {
                        assert(one_char_operators()[1] == ch);
                    } else if ch == '-' {
                        assert(one_char_operators()[2] == ch);
                    } else if ch == '*' {
                        assert(one_char_operators()[3] == ch);
                    } else if ch == '/' {
                        assert(one_char_operators()[4] == ch);
                    } else if ch == '<' {
                        assert(one_char_operators()[5] == ch);
                    } else if ch == '>' {
                        assert(one_char_operators()[6] == ch);
                    } else {
                        assert(one_char_operators()[7] == ch);
                    }
                }
                self.pos += 1;
                return Some(Token { lexeme: string_of(&one), token_type: TokenType::Operator });
            }
            let is_delim = ch == ';' || ch == ',' || ch == '(' || ch == ')' || ch == '{' || ch == '}'
                || ch == '[' || ch == ']';
            if is_delim {
                assert(delimiters().contains(ch)) by {
                    if ch == ';' {
                        assert(delimiters()[0] == ch);
                    } else if ch == ',' {
                        assert(delimiters()[1] == ch);
                    } else if ch == '(' {
                        assert(delimiters()[2] == ch);
                    } else if ch == ')' {
                        assert(delimiters()[3] == ch);
                    } else if ch == '{' {
                        assert(delimiters()[4] == ch);
                    } else if ch == '}' {
                        assert(delimiters()[5] == ch);
                    } else if ch == '[' {
                        assert(delimiters()[6] == ch);
                    } else {
                        assert(delimiters()[7] == ch);
                    }
                }
                self.pos += 1;
                return Some(Token { lexeme: string_of(&one), token_type: TokenType::Delimiter });
            }
            assert(!one_char_operators().contains(ch));
            assert(!delimiters().contains(ch));
        }
        None
    }

    /// Reads the rest of the input: the tokens found, and an error for each bad
    /// number, unclosed string and unknown character.
    pub fn tokenize(&mut self) -> (r: (Vec<Token>, Vec<String>))
        requires
            old(self).wf(),
        ensures
            final(self).wf(),
            final(self).chars() == old(self).chars(),
            final(self).at() == final(self).chars().len(),
            (token_views(r.0@), strs(r.1@)) == lex_from(
                old(self).chars(),
                old(self).at(),
                Seq::empty(),
                Seq::empty(),
            ),
    {
        let mut tokens: Vec<Token> = Vec::new();
        let mut errors: Vec<String> = Vec::new();
        let ghost s = self.input@;
        let ghost start = self.pos as int;
        assert(token_views(tokens@) =~= Seq::empty());
        assert(strs(errors@) =~= Seq::empty());
        while self.pos < self.input.len()
            invariant
                self.wf(),
                self.input@ == s,
                self.input == old(self).input,
                lex_from(s, start, Seq::empty(), Seq::empty()) == lex_from(
                    s,
                    self.pos as int,
                    token_views(tokens@),
                    strs(errors@),
                ),
            decreases self.input.len() - self.pos,
        {
            let ch = self.input[self.pos];
            let ghost p0 = self.pos as int;
            let ghost tv = token_views(tokens@);
            let ghost ev = strs(errors@);
            if is_whitespace(ch) {
                self.advance();
                continue;
            }
            if ascii_alpha(ch) || ch == '_' {
                let t = self.read_identifier_or_keyword();
                proof {
                    assert(ident_end(s, p0) == ident_end(s, p0 + 1));
                    crate::lexer::lemma_ident_end(s, p0 + 1);
                }
                tokens.push(t);
                assert(token_views(tokens@) == tv.push(t@));
            } else if ascii_digit(ch) {
                match self.read_number() {
                    Ok(token) => {
                        tokens.push(token);
                        assert(token_views(tokens@) == tv.push(token@));
                    },
                    Err(err) => {
                        errors.push(err);
                        assert(strs(errors@) == ev.push(err@));
                    },
                }
            } else if ch == '"' {
                proof {
                    lemma_quote_end(s, p0 + 1);
                }
                match self.read_string() {
                    Ok(token) => {
                        tokens.push(token);
                        assert(token_views(tokens@) == tv.push(token@));
                    },
                    Err(err) => {
                        errors.push(err);
                        assert(strs(errors@) == ev.push(err@));
                    },
                }
            } else if let Some(token) = self.read_operator_or_delimiter() {
                tokens.push(token);
                assert(token_views(tokens@) == tv.push(token@));
            } else {
                let mut msg = String::from_str("Неизвестный символ '");
                push_char(&mut msg, ch);
                push_str(&mut msg, "' в позиции ");
                push_decimal(&mut msg, self.pos);
                assert(msg@ =~= unknown_char_msg(ch, p0));
                errors.push(msg);
                assert(strs(errors@) == ev.push(msg@));
                self.advance();
            }
        }
        (tokens, errors)
    }
}

pub proof fn lemma_quote_end(s: Seq<char>, i: int)
    requires
        0 <= i <= s.len(),
    ensures
        i <= quote_end(s, i) <= s.len(),
    decreases s.len() - i,
{
    if i < s.len() && s[i] != '"' {
        lemma_quote_end(s, i + 1);
    }
}

pub proof fn lemma_ident_end(s: Seq<char>, i: int)
    requires
        0 <= i <= s.len(),
    ensures
        i <= ident_end(s, i) <= s.len(),
    decreases s.len() - i,
{
    if i < s.len() && is_ident_char(s[i]) {
        lemma_ident_end(s, i + 1);
    }
}

/// One of the characters that stand alone as an operator.
pub open spec fn single_operator_char(c: char) -> bool {
    c == '=' || c == '+' || c == '-' || c == '*' || c == '/' || c == '<' || c == '>' || c == '!'
}

/// Law: an operator character that no `=` follows is read as an operator of
/// its own, with no error, and lexing goes on right after it.
pub proof fn lemma_single_operator(
    s: Seq<char>,
    i: int,
    toks: Seq<TokenV>,
    errs: Seq<Seq<char>>,
)
    requires
        0 <= i < s.len(),
        single_operator_char(s[i]),
        i + 1 < s.len() ==> s[i + 1] != '=',
    ensures
        lex_from(s, i, toks, errs) == lex_from(
            s,
            i + 1,
            toks.push(TokenV { lexeme: seq![s[i]], token_type: TokenType::Operator }),
            errs,
        ),
{
    let c = s[i];
    reveal_strlit("==");
    reveal_strlit("!=");
    reveal_strlit("<=");
    reveal_strlit(">=");
    reveal_strlit("&&");
    reveal_strlit("||");
    if i + 1 < s.len() {
        let w = s.subrange(i, i + 2);
        assert(w[0] == c && w[1] == s[i + 1]);
        assert(!two_char_operators().contains(w)) by {
            if two_char_operators().contains(w) {
                let x = choose|x: int| 0 <= x < 6 && two_char_operators()[x] == w;
                assert(two_char_operators()[x][0] == c);
                assert(two_char_operators()[x][1] == s[i + 1]);
            }
        }
    }
    let ops = one_char_operators();
    if c == '=' {
        assert(ops[0] == c);
    } else if c == '+' {
        assert(ops[1] == c);
    } else if c == '-' {
        assert(ops[2] == c);
    } else if c == '*' {
        assert(ops[3] == c);
    } else if c == '/' {
        assert(ops[4] == c);
    } else if c == '<' {
        assert(ops[5] == c);
    } else if c == '>' {
        assert(ops[6] == c);
    } else {
        assert(ops[7] == c);
    }
    assert(ops.contains(c));
}

/// Law: `==`, `!=`, `<=`, `>=`, `&&` and `||` are each read as one
/// two-character operator, with no error.
pub proof fn lemma_double_operator(
    s: Seq<char>,
    i: int,
    toks: Seq<TokenV>,
    errs: Seq<Seq<char>>,
)
    requires
        0 <= i,
        i + 1 < s.len(),
        ((s[i] == '=' || s[i] == '!' || s[i] == '<' || s[i] == '>') && s[i + 1] == '=') || (s[i]
            == '&' && s[i + 1] == '&') || (s[i] == '|' && s[i + 1] == '|'),
    ensures
        lex_from(s, i, toks, errs) == lex_from(
            s,
            i + 2,
            toks.push(TokenV { lexeme: seq![s[i], s[i + 1]], token_type: TokenType::Operator }),
            errs,
        ),
{
    let c = s[i];
    reveal_strlit("==");
    reveal_strlit("!=");
    reveal_strlit("<=");
    reveal_strlit(">=");
    reveal_strlit("&&");
    reveal_strlit("||");
    let w = s.subrange(i, i + 2);
    assert(w =~= seq![c, s[i + 1]]);
    let ops = two_char_operators();
    if c == '=' {
        assert(ops[0] =~= w);
    } else if c == '!' {
        assert(ops[1] =~= w);
    } else if c == '<' {
        assert(ops[2] =~= w);
    } else if c == '>' {
        assert(ops[3] =~= w);
    } else if c == '&' {
        assert(ops[4] =~= w);
    } else {
        assert(ops[5] =~= w);
    }
    assert(ops.contains(w));
}

// ---------------------------------------------------------------------------
// Lexing a text joined from two.
/// The tokens of `s` and the errors met on the way, from its start.
pub open spec fn lex(s: Seq<char>) -> (Seq<TokenV>, Seq<Seq<char>>) {
    lex_from(s, 0, Seq::empty(), Seq::empty())
}

/// Tokens and errors found so far are kept in front of those still to come.
proof fn lemma_lex_acc(s: Seq<char>, i: int, toks: Seq<TokenV>, errs: Seq<Seq<char>>)
    ensures
        lex_from(s, i, toks, errs).0 == toks + lex_from(s, i, Seq::empty(), Seq::empty()).0,
        lex_from(s, i, toks, errs).1 == errs + lex_from(s, i, Seq::empty(), Seq::empty()).1,
    decreases s.len() - i,
{
    let e = Seq::<TokenV>::empty();
    let f = Seq::<Seq<char>>::empty();
    if 0 <= i < s.len() {
        let ch = s[i];
        if is_white(ch) {
            lemma_lex_acc(s, i + 1, toks, errs);
            lemma_lex_acc(s, i + 1, e, f);
        } else if is_ident_start(ch) {
            let (t, p) = read_identifier_spec(s, i);
            if i < p <= s.len() {
                lemma_lex_acc(s, p, toks.push(t), errs);
                lemma_lex_acc(s, p, e.push(t), f);
                assert(toks.push(t) + lex_from(s, p, e, f).0 =~= toks + (e.push(t) + lex_from(
                    s,
                    p,
                    e,
                    f,
                ).0));
            } else {
                assert(toks + e =~= toks);
                assert(errs + f =~= errs);
            }
        } else if is_ascii_digit(ch) || ch == '"' {
            let (r, p) = if is_ascii_digit(ch) {
                number_from(s, i, i, 0)
            } else {
                read_string_spec(s, i)
            };
            if i < p <= s.len() {
                match r {
                    Ok(t) => {
                        lemma_lex_acc(s, p, toks.push(t), errs);
                        lemma_lex_acc(s, p, e.push(t), f);
                        assert(toks.push(t) + lex_from(s, p, e, f).0 =~= toks + (e.push(t)
                            + lex_from(s, p, e, f).0));
                    },
                    Err(m) => {
                        lemma_lex_acc(s, p, toks, errs.push(m));
                        lemma_lex_acc(s, p, e, f.push(m));
                        assert(errs.push(m) + lex_from(s, p, e, f).1 =~= errs + (f.push(m)
                            + lex_from(s, p, e, f).1));
                    },
                }
            } else {
                assert(toks + e =~= toks);
                assert(errs + f =~= errs);
            }
        } else {
            match read_operator_spec(s, i) {
                Some((t, p)) => if i < p <= s.len() {
                    lemma_lex_acc(s, p, toks.push(t), errs);
                    lemma_lex_acc(s, p, e.push(t), f);
                    assert(toks.push(t) + lex_from(s, p, e, f).0 =~= toks + (e.push(t) + lex_from(
                        s,
                        p,
                        e,
                        f,
                    ).0));
                } else {
                    assert(toks + e =~= toks);
                    assert(errs + f =~= errs);
                },
                None => {
                    let m = unknown_char_msg(ch, i);
                    lemma_lex_acc(s, i + 1, toks, errs.push(m));
                    lemma_lex_acc(s, i + 1, e, f.push(m));
                    assert(errs.push(m) + lex_from(s, i + 1, e, f).1 =~= errs + (f.push(m)
                        + lex_from(s, i + 1, e, f).1));
                },
            }
        }
    } else {
        assert(toks + e =~= toks);
        assert(errs + f =~= errs);
    }
}

proof fn lemma_ident_end_shift(p: Seq<char>, q: Seq<char>, i: int)
    requires
        0 <= i <= q.len(),
    ensures
        ident_end(p + q, p.len() + i) == p.len() + ident_end(q, i),
    decreases q.len() - i,
{
    if i < q.len() {
        assert((p + q)[p.len() + i] == q[i]);
        lemma_ident_end_shift(p, q, i + 1);
    }
}

proof fn lemma_number_shift(p: Seq<char>, q: Seq<char>, start: int, i: int, dots: int)
    requires
        0 <= start <= i <= q.len(),
    ensures
        number_from(p + q, p.len() + start, p.len() + i, dots) == (
            number_from(q, start, i, dots).0,
            p.len() + number_from(q, start, i, dots).1,
        ),
    decreases q.len() - i,
{
    let s = p + q;
    let k = p.len() + i;
    if i < q.len() {
        assert(s[k] == q[i]);
        assert(s.subrange(p.len() + start, k + 1) =~= q.subrange(start, i + 1));
        assert(s.subrange(p.len() + start, k) =~= q.subrange(start, i));
        if is_ascii_digit(q[i]) {
            lemma_number_shift(p, q, start, i + 1, dots);
            assert(number_from(s, p.len() + start, k, dots) == number_from(
                s,
                p.len() + start,
                k + 1,
                dots,
            ));
        } else if q[i] == '.' {
            if dots + 1 <= 1 {
                lemma_number_shift(p, q, start, i + 1, dots + 1);
                assert(number_from(s, p.len() + start, k, dots) == number_from(
                    s,
                    p.len() + start,
                    k + 1,
                    dots + 1,
                ));
            }
        }
    } else {
        assert(s.subrange(p.len() + start, k) =~= q.subrange(start, i));
        assert(!(0 <= k < s.len()));
    }
}

proof fn lemma_quote_end_shift(p: Seq<char>, q: Seq<char>, i: int)
    requires
        0 <= i,
    ensures
        quote_end(p + q, p.len() + i) == p.len() + quote_end(q, i),
    decreases q.len() - i,
{
    if i < q.len() {
        assert((p + q)[p.len() + i] == q[i]);
        lemma_quote_end_shift(p, q, i + 1);
    }
}

/// Lexing `q` from `i`, or `p + q` from `p.len() + i`, finds the same tokens and
/// as many errors (an unknown character's message gives its own position).
proof fn lemma_lex_shift(
    p: Seq<char>,
    q: Seq<char>,
    i: int,
    toks: Seq<TokenV>,
    e1: Seq<Seq<char>>,
    e2: Seq<Seq<char>>,
)
    requires
        0 <= i,
        e1.len() == e2.len(),
    ensures
        lex_from(p + q, p.len() + i, toks, e1).0 == lex_from(q, i, toks, e2).0,
        lex_from(p + q, p.len() + i, toks, e1).1.len() == lex_from(q, i, toks, e2).1.len(),
    decreases q.len() - i,
{
    let s = p + q;
    let k = p.len() + i;
    if i < q.len() {
        let ch = q[i];
        assert(s[k] == ch);
        if is_white(ch) {
            lemma_lex_shift(p, q, i + 1, toks, e1, e2);
        } else if is_ident_start(ch) {
            lemma_ident_end_shift(p, q, i);
            lemma_ident_end(q, i);
            let e = ident_end(q, i);
            assert(s.subrange(k, p.len() + e) =~= q.subrange(i, e));
            let (t, j) = read_identifier_spec(q, i);
            if i < j <= q.len() {
                lemma_lex_shift(p, q, j, toks.push(t), e1, e2);
            }
        } else if is_ascii_digit(ch) {
            lemma_number_shift(p, q, i, i, 0);
            let (r, j) = number_from(q, i, i, 0);
            if i < j <= q.len() {
                match r {
                    Ok(t) => lemma_lex_shift(p, q, j, toks.push(t), e1, e2),
                    Err(m) => lemma_lex_shift(p, q, j, toks, e1.push(m), e2.push(m)),
                }
            }
        } else if ch == '"' {
            lemma_quote_end_shift(p, q, i + 1);
            lemma_quote_end(q, i + 1);
            let qe = quote_end(q, i + 1);
            assert(s.subrange(k + 1, p.len() + qe) =~= q.subrange(i + 1, qe));
            let (r, j) = read_string_spec(q, i);
            if i < j <= q.len() {
                match r {
                    Ok(t) => lemma_lex_shift(p, q, j, toks.push(t), e1, e2),
                    Err(m) => lemma_lex_shift(p, q, j, toks, e1.push(m), e2.push(m)),
                }
            }
        } else {
            if i + 1 < q.len() {
                assert(s.subrange(k, k + 2) =~= q.subrange(i, i + 2));
            }
            match read_operator_spec(q, i) {
                Some((t, j)) => if i < j <= q.len() {
                    lemma_lex_shift(p, q, j, toks.push(t), e1, e2);
                },
                None => {
                    lemma_lex_shift(
                        p,
                        q,
                        i + 1,
                        toks,
                        e1.push(unknown_char_msg(ch, k)),
                        e2.push(unknown_char_msg(ch, i)),
                    );
                },
            }
        }
    }
}

proof fn lemma_ident_end_prefix(a: Seq<char>, b: Seq<char>, i: int)
    requires
        0 <= i <= a.len(),
    ensures
        ident_end(a + seq![' '] + b, i) == ident_end(a, i),
    decreases a.len() - i,
{
    let s = a + seq![' '] + b;
    assert(s[a.len() as int] == ' ');
    if i < a.len() {
        assert(s[i] == a[i]);
        lemma_ident_end_prefix(a, b, i + 1);
    }
}

proof fn lemma_number_prefix(a: Seq<char>, b: Seq<char>, start: int, i: int, dots: int)
    requires
        0 <= start <= i <= a.len(),
    ensures
        number_from(a + seq![' '] + b, start, i, dots) == number_from(a, start, i, dots),
        i <= number_from(a, start, i, dots).1 <= a.len(),
        i < a.len() && is_ascii_digit(a[i]) ==> i < number_from(a, start, i, dots).1,
    decreases a.len() - i,
{
    let s = a + seq![' '] + b;
    assert(s[a.len() as int] == ' ');
    if i < a.len() {
        assert(s[i] == a[i]);
        assert(s.subrange(start, i + 1) =~= a.subrange(start, i + 1));
        assert(s.subrange(start, i) =~= a.subrange(start, i));
        if is_ascii_digit(a[i]) {
            lemma_number_prefix(a, b, start, i + 1, dots);
        } else if a[i] == '.' && dots + 1 <= 1 {
            lemma_number_prefix(a, b, start, i + 1, dots + 1);
        }
    } else {
        assert(s.subrange(start, i) =~= a.subrange(start, i));
    }
}

/// Lexing `a + " " + b`, where `a` holds no `"`, goes through `a` as lexing `a`
/// alone does, then goes on after the space.
proof fn lemma_lex_prefix(
    a: Seq<char>,
    b: Seq<char>,
    i: int,
    toks: Seq<TokenV>,
    errs: Seq<Seq<char>>,
)
    requires
        0 <= i <= a.len(),
        forall|k: int| 0 <= k < a.len() ==> a[k] != '"',
    ensures
        lex_from(a + seq![' '] + b, i, toks, errs) == lex_from(
            a + seq![' '] + b,
            a.len() + 1int,
            lex_from(a, i, toks, errs).0,
            lex_from(a, i, toks, errs).1,
        ),
    decreases a.len() - i,
{
    let s = a + seq![' '] + b;
    assert(s[a.len() as int] == ' ');
    if i < a.len() {
        let ch = a[i];
        assert(s[i] == ch);
        if is_white(ch) {
            lemma_lex_prefix(a, b, i + 1, toks, errs);
        } else if is_ident_start(ch) {
            lemma_ident_end_prefix(a, b, i);
            lemma_ident_end(a, i + 1);
            assert(is_ident_char(ch));
            let e = ident_end(a, i);
            assert(i < e);
            assert(s.subrange(i, e) =~= a.subrange(i, e));
            assert(read_identifier_spec(s, i) == read_identifier_spec(a, i));
            let (t, j) = read_identifier_spec(a, i);
            if i < j <= a.len() {
                lemma_lex_prefix(a, b, j, toks.push(t), errs);
            }
        } else if is_ascii_digit(ch) {
            lemma_number_prefix(a, b, i, i, 0);
            let (r, j) = number_from(a, i, i, 0);
            if i < j <= a.len() {
                match r {
                    Ok(t) => lemma_lex_prefix(a, b, j, toks.push(t), errs),
                    Err(m) => lemma_lex_prefix(a, b, j, toks, errs.push(m)),
                }
            }
        } else {
            assert(ch != '"');
            if i + 1 < a.len() {
                assert(s.subrange(i, i + 2) =~= a.subrange(i, i + 2));
            } else {
                let w = s.subrange(i, i + 2);
                assert(w[1] == ' ');
                reveal_strlit("==");
                reveal_strlit("!=");
                reveal_strlit("<=");
                reveal_strlit(">=");
                reveal_strlit("&&");
                reveal_strlit("||");
                assert(!two_char_operators().contains(w)) by {
                    if two_char_operators().contains(w) {
                        let x = choose|x: int| 0 <= x < 6 && two_char_operators()[x] == w;
                        assert(two_char_operators()[x][1] != ' ');
                    }
                }
            }
            assert(read_operator_spec(s, i) == read_operator_spec(a, i));
            match read_operator_spec(a, i) {
                Some((t, j)) => if i < j <= a.len() {
                    lemma_lex_prefix(a, b, j, toks.push(t), errs);
                },
                None => {
                    lemma_lex_prefix(a, b, i + 1, toks, errs.push(unknown_char_msg(ch, i)));
                },
            }
        }
    } else {
        assert(is_white(s[i]));
        assert(lex_from(s, i, toks, errs) == lex_from(s, i + 1, toks, errs));
    }
}

/// Law: lexing two texts joined by a space, the first without `"`, finds the
/// tokens of the first, then those of the second, and as many errors as the two
/// apart.
pub proof fn lemma_lex_join(a: Seq<char>, b: Seq<char>)
    requires
        forall|k: int| 0 <= k < a.len() ==> a[k] != '"',
    ensures
        lex(a + seq![' '] + b).0 == lex(a).0 + lex(b).0,
        lex(a + seq![' '] + b).1.len() == lex(a).1.len() + lex(b).1.len(),
{
    let e = Seq::<TokenV>::empty();
    let f = Seq::<Seq<char>>::empty();
    lemma_lex_prefix(a, b, 0, e, f);
    let la = lex(a);
    lemma_lex_shift(a + seq![' '], b, 0, la.0, la.1, la.1);
    assert(a + seq![' '] + b == (a + seq![' ']) + b);
    assert((a + seq![' ']).len() == a.len() + 1);
    lemma_lex_acc(b, 0, la.0, la.1);
}

/// The source without comments, each line trimmed, blank lines dropped.
pub fn clean_code(input: &str) -> (s: String)
    ensures
        s@ == cleaned(input@, false),
{
    clean_text(input, false)
}

} // verus!
