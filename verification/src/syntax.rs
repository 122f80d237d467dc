//! The syntax stage: cleaning with diagnostics, regex-driven tokens, and a
//! syntax tree.
pub mod tokens;
pub mod ast;
pub mod parser;
pub mod render;

use vstd::prelude::*;
use vstd::string::StringExecFns;
use crate::text::{
    chars_of, decimal, find_from, find_from_exec, lemma_find_from, occurs_at_exec, push_chars,
    push_decimal, push_spaces, push_str, spaces, utf8_len, is_ascii_char,
};
use crate::pointer::{byte_column, line_at, line_number, locate};
use crate::cleaning::{clean_text, cleaned, lemma_cleaned_utf8};
use crate::cleaner::count_occurrences;
use crate::syntax::tokens::{Token, TokenV, token_views, tokenize, tokenize_spec};
use crate::syntax::ast::{AstNode, AstV};
use crate::syntax::parser::{Parser, program_spec};

verus! {

pub struct CleanResult {
    pub cleaned_code: String,
    pub tokens: Vec<Token>,
    pub ast: Option<AstNode>,
    pub messages: Vec<String>,
    pub errors: Vec<String>,
}

pub open spec fn strs(v: Seq<String>) -> Seq<Seq<char>> {
    v.map_values(|s: String| s@)
}

/// `msg (стр L, кол C)`, the line that holds `pos`, and a caret under `pos`.
pub open spec fn pointer(s: Seq<char>, pos: int, msg: Seq<char>) -> Seq<char> {
    let col = byte_column(s, pos);
    msg + " (стр "@ + decimal(line_number(s, pos)) + ", кол "@ + decimal(col + 1) + ")\n"@
        + line_at(s, pos) + "\n"@ + spaces(col) + "^"@
}

/// The message for character `pos` of `input`, pointing at it.
pub fn get_pointer(input: &[char], pos: usize, msg: &str) -> (s: String)
    requires
        pos <= input.len(),
        utf8_len(input@) < usize::MAX,
    ensures
        s@ == pointer(input@, pos as int, msg@),
{
    let (line_num, col, line) = locate(input, pos);
    let mut s = String::from_str(msg);
    push_str(&mut s, " (стр ");
    push_decimal(&mut s, line_num);
    push_str(&mut s, ", кол ");
    push_decimal(&mut s, col + 1);
    push_str(&mut s, ")\n");
    push_chars(&mut s, &line);
    push_str(&mut s, "\n");
    push_spaces(&mut s, col);
    push_str(&mut s, "^");
    s
}

/// Errors for the characters outside ASCII among the first `k` of `s`.
pub open spec fn forbidden_char_errors(s: Seq<char>, k: int) -> Seq<Seq<char>>
    decreases k,
{
    if k <= 0 || k > s.len() {
        Seq::empty()
    } else if !is_ascii_char(s[k - 1]) {
        forbidden_char_errors(s, k - 1).push(pointer(s, k - 1, "Запрещенный символ"@))
    } else {
        forbidden_char_errors(s, k - 1)
    }
}

/// The errors found in raw source: an unclosed comment (pointing at the first
/// `/*`) when `/*` outnumbers `*/`, then one per character outside ASCII.
pub open spec fn source_errors(s: Seq<char>) -> Seq<Seq<char>> {
    let n = s.len() as int;
    let head = if count_occurrences(s, "/*"@, n) > count_occurrences(s, "*/"@, n) {
        seq![pointer(s, find_from(s, "/*"@, 0), "Незакрытый комментарий"@)]
    } else {
        Seq::empty()
    };
    head + forbidden_char_errors(s, n)
}

pub open spec fn stage_messages() -> Seq<Seq<char>> {
    seq![
        "Очистка от комментариев завершена"@,
        "Лексический анализ (ЛР2) завершен"@,
        "Синтаксическое дерево (ЛР3) построено"@,
    ]
}

proof fn lemma_first_occurrence(s: Seq<char>, p: Seq<char>, k: int)
    requires
        0 <= k <= s.len(),
        count_occurrences(s, p, k) > 0,
    ensures
        0 <= find_from(s, p, 0) < k,
    decreases k,
{
    lemma_find_from(s, p, 0);
    if !crate::text::occurs_at(s, p, k - 1) {
        lemma_first_occurrence(s, p, k - 1);
    }
}

fn copy_tokens(v: &Vec<Token>) -> (r: Vec<Token>)
    ensures
        r@ == v@,
{
    let mut r: Vec<Token> = Vec::new();
    let mut i: usize = 0;
    while i < v.len()
        invariant
            i <= v@.len(),
            r@ == v@.take(i as int),
        decreases v.len() - i,
    {
        r.push(v[i].duplicate());
        assert(v@.take(i + 1) == v@.take(i as int).push(v@[i as int]));
        i += 1;
    }
    assert(v@.take(v@.len() as int) == v@);
    r
}

/// The errors found in raw source, in order.
fn source_errors_exec(chars: &Vec<char>) -> (errors: Vec<String>)
    requires
        utf8_len(chars@) < usize::MAX,
    ensures
        strs(errors@) == source_errors(chars@),
{
    let mut errors: Vec<String> = Vec::new();
    let mut opens: usize = 0;
    let mut closes: usize = 0;
    let mut i: usize = 0;
    while i < chars.len()
        invariant
            utf8_len(chars@) < usize::MAX,
            i <= chars@.len(),
            opens == count_occurrences(chars@, "/*"@, i as int),
            closes == count_occurrences(chars@, "*/"@, i as int),
            opens <= i,
            closes <= i,
        decreases chars.len() - i,
    {
        if occurs_at_exec(&chars, "/*", i) {
            opens += 1;
        }
        if occurs_at_exec(&chars, "*/", i) {
            closes += 1;
        }
        i += 1;
    }
    if opens > closes {
        proof {
            reveal_strlit("/*");
            lemma_first_occurrence(chars@, "/*"@, chars@.len() as int);
        }
        if let Some(pos) = find_from_exec(&chars, "/*", 0) {
            let e = get_pointer(&chars, pos, "Незакрытый комментарий");
            errors.push(e);
        }
    }
    let ghost head = strs(errors@);
    assert(head == source_errors(chars@).subrange(0, head.len() as int));
    let mut k: usize = 0;
    while k < chars.len()
        invariant
            k <= chars@.len(),
            utf8_len(chars@) < usize::MAX,
            strs(errors@) == head + forbidden_char_errors(chars@, k as int),
        decreases chars.len() - k,
    {
        let ch = chars[k];
        if !(ch < '\u{80}' || ch == '\n' || ch == '\t' || ch == '\r') {
            let e = get_pointer(&chars, k, "Запрещенный символ");
            let ghost before = strs(errors@);
            errors.push(e);
            assert(strs(errors@) == before.push(e@));
        }
        k += 1;
    }
    assert(strs(errors@) == source_errors(chars@));
    errors
}

/// The program that `tokens` spell, or the first syntax error.
fn parse_tokens(tokens: &Vec<Token>) -> (r: Result<AstNode, String>)
    ensures
        match program_spec(token_views(tokens@)) {
            Ok(p) => r matches Ok(a) && a@ == p,
            Err(e) => r matches Err(x) && x@ == e,
        },
{
    let mut parser = Parser::new(copy_tokens(tokens));
    proof {
        reveal(program_spec);
    }
    parser.parse_program()
}

/// Checks `input`, cleans it, tokenizes the cleaned code and parses the tokens.
pub fn clean_source_code(input: &str) -> (r: CleanResult)
    requires
        utf8_len(input@) < usize::MAX,
    ensures
        r.cleaned_code@ == cleaned(input@, true),
        token_views(r.tokens@) == tokenize_spec(cleaned(input@, true)),
        match program_spec(tokenize_spec(cleaned(input@, true))) {
            Ok(p) => r.ast matches Some(a) && a@ == p && strs(r.errors@) == source_errors(input@),
            Err(e) => r.ast is None && strs(r.errors@) == source_errors(input@).push(e),
        },
        strs(r.messages@) == if r.errors@.len() == 0 {
            stage_messages()
        } else {
            Seq::empty()
        },
{
    let chars = chars_of(input);
    let mut errors = source_errors_exec(&chars);
    let mut messages: Vec<String> = Vec::new();
    assert(strs(errors@) == source_errors(input@));
    let cleaned_code = clean_text(input, true);
    proof {
        lemma_cleaned_utf8(input@, true);
    }
    let tokens = tokenize(cleaned_code.as_str());
    let ast = match parse_tokens(&tokens) {
        Ok(node) => Some(node),
        Err(e) => {
            let ghost before = strs(errors@);
            errors.push(e);
            assert(strs(errors@) == before.push(e@));
            None
        },
    };
    if errors.len() == 0 {
        messages.push(String::from_str("Очистка от комментариев завершена"));
        messages.push(String::from_str("Лексический анализ (ЛР2) завершен"));
        messages.push(String::from_str("Синтаксическое дерево (ЛР3) построено"));
        assert(strs(messages@) =~= stage_messages());
    } else {
        assert(strs(messages@) =~= Seq::<Seq<char>>::empty());
    }
    CleanResult { cleaned_code, tokens, ast, messages, errors }
}

} // verus!
