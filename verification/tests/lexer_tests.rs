use minic::lexer::{clean_code, Lexer, TokenType};

fn lex(src: &str) -> (Vec<(TokenType, String)>, Vec<String>) {
    let mut lexer = Lexer::new(src);
    let (tokens, errors) = lexer.tokenize();
    (tokens.into_iter().map(|t| (t.token_type, t.lexeme)).collect(), errors)
}

fn tok(t: TokenType, s: &str) -> (TokenType, String) {
    (t, s.to_string())
}

#[test]
fn declaration_tokens() {
    let (tokens, errors) = lex("int x = 10;");
    assert_eq!(
        tokens,
        vec![
            tok(TokenType::Keyword, "int"),
            tok(TokenType::Identifier, "x"),
            tok(TokenType::Operator, "="),
            tok(TokenType::ConstantInt, "10"),
            tok(TokenType::Delimiter, ";"),
        ]
    );
    assert!(errors.is_empty());
}

#[test]
fn two_character_operators_win() {
    let (tokens, errors) = lex("a==b!=c<=d>=e&&f||!g-1");
    let ops: Vec<String> = tokens
        .iter()
        .filter(|t| t.0 == TokenType::Operator)
        .map(|t| t.1.clone())
        .collect();
    assert_eq!(ops, vec!["==", "!=", "<=", ">=", "&&", "||", "!", "-"]);
    assert!(errors.is_empty());
}

#[test]
fn numbers_and_number_errors() {
    let (tokens, errors) = lex("3.14 1.2.3 4x 12abc");
    assert_eq!(
        tokens,
        vec![
            tok(TokenType::ConstantFloat, "3.14"),
            tok(TokenType::ConstantInt, "3"),
            tok(TokenType::Identifier, "bc"),
        ]
    );
    assert_eq!(
        errors,
        vec![
            "Ошибка в числе '1.2.': лишняя точка".to_string(),
            "Ошибка: буква 'x' в числовой константе".to_string(),
            "Ошибка: буква 'a' в числовой константе".to_string(),
        ]
    );
}

#[test]
fn strings_and_unclosed_string() {
    let (tokens, errors) = lex("\"hi there\" \"open");
    assert_eq!(tokens, vec![tok(TokenType::ConstantString, "hi there")]);
    assert_eq!(errors, vec!["Ошибка: незакрытый строковый литерал".to_string()]);
}

#[test]
fn unknown_characters_give_their_position() {
    let (tokens, errors) = lex("a @ b & ф .5");
    assert_eq!(
        tokens,
        vec![
            tok(TokenType::Identifier, "a"),
            tok(TokenType::Identifier, "b"),
            tok(TokenType::ConstantInt, "5"),
        ]
    );
    assert_eq!(
        errors,
        vec![
            "Неизвестный символ '@' в позиции 2".to_string(),
            "Неизвестный символ '&' в позиции 6".to_string(),
            "Неизвестный символ 'ф' в позиции 8".to_string(),
            "Неизвестный символ '.' в позиции 10".to_string(),
        ]
    );
}

#[test]
fn keywords_booleans_and_identifiers() {
    let (tokens, _) = lex("for float true false _id9 return void char else while if");
    let kinds: Vec<TokenType> = tokens.iter().map(|t| t.0).collect();
    assert_eq!(
        kinds,
        vec![
            TokenType::Keyword,
            TokenType::Identifier,
            TokenType::ConstantBool,
            TokenType::ConstantBool,
            TokenType::Identifier,
            TokenType::Keyword,
            TokenType::Keyword,
            TokenType::Keyword,
            TokenType::Keyword,
            TokenType::Keyword,
            TokenType::Keyword,
        ]
    );
}

#[test]
fn unicode_whitespace_separates_tokens() {
    let (tokens, errors) = lex("a\u{00A0}b\u{2003}{");
    assert_eq!(
        tokens,
        vec![
            tok(TokenType::Identifier, "a"),
            tok(TokenType::Identifier, "b"),
            tok(TokenType::Delimiter, "{"),
        ]
    );
    assert!(errors.is_empty());
}

#[test]
fn tokenize_reads_to_the_end() {
    let mut lexer = Lexer::new("x = [1, 2];");
    let (first, _) = lexer.tokenize();
    assert_eq!(first.len(), 8);
    let (again, errors) = lexer.tokenize();
    assert!(again.is_empty());
    assert!(errors.is_empty());
}

#[test]
fn empty_input_has_no_tokens() {
    let (tokens, errors) = lex("");
    assert!(tokens.is_empty());
    assert!(errors.is_empty());
}

#[test]
fn token_type_names_are_the_variant_names() {
    assert_eq!(TokenType::ConstantFloat.name(), "ConstantFloat");
    assert_eq!(TokenType::Delimiter.name(), "Delimiter");
    assert_eq!(TokenType::Keyword.name(), format!("{:?}", TokenType::Keyword));
}

#[test]
fn clean_code_trims_and_drops_comments() {
    assert_eq!(clean_code("int a; // c\n/* x */\n  b  \n#k\n"), "int a;\nb\n#k");
}

#[test]
fn lexing_joined_texts_concatenates_tokens() {
    let a = "ab= 1.2.3 @";
    let b = "=c \"s\" #";
    let (ta, ea) = lex(a);
    let (tb, eb) = lex(b);
    let (tj, ej) = lex(&format!("{} {}", a, b));
    let mut both = ta.clone();
    both.extend(tb.clone());
    assert_eq!(tj, both);
    assert_eq!(ej.len(), ea.len() + eb.len());
    assert_eq!(ej[0], ea[0]);
    assert_eq!(ej.last().unwrap(), "Неизвестный символ '#' в позиции 19");
}
