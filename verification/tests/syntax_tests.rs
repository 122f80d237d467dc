use minic::syntax::ast::AstNode;
use minic::syntax::clean_source_code;
use minic::syntax::get_pointer;
use minic::syntax::parser::{comparison_op, Parser};
use minic::syntax::render::render_ast;
use minic::syntax::tokens::{push_match_tokens, tokenize, TokenType};

fn parse(src: &str) -> Result<AstNode, String> {
    Parser::new(tokenize(src)).parse_program()
}

fn chars(s: &str) -> Vec<char> {
    s.chars().collect()
}

const STAGES: [&str; 3] = [
    "Очистка от комментариев завершена",
    "Лексический анализ (ЛР2) завершен",
    "Синтаксическое дерево (ЛР3) построено",
];

#[test]
fn tokenize_takes_first_matching_group() {
    let tokens = tokenize("integer iffy 1.5.2 x<=y =>\n  a, !b\r\nф x");
    let got: Vec<(TokenType, &str, usize, usize)> =
        tokens.iter().map(|t| (t.token_type, t.value.as_str(), t.line, t.col)).collect();
    assert_eq!(
        got,
        vec![
            (TokenType::Type, "int", 1, 1),
            (TokenType::Identifier, "eger", 1, 4),
            (TokenType::Keyword, "if", 1, 9),
            (TokenType::Identifier, "fy", 1, 11),
            (TokenType::Number, "1.5", 1, 14),
            (TokenType::Number, "2", 1, 18),
            (TokenType::Identifier, "x", 1, 20),
            (TokenType::Operator, "<=", 1, 21),
            (TokenType::Identifier, "y", 1, 23),
            (TokenType::Operator, "=", 1, 25),
            (TokenType::Operator, ">", 1, 26),
            (TokenType::Identifier, "a", 2, 3),
            (TokenType::Identifier, "b", 2, 7),
            (TokenType::Identifier, "x", 3, 4),
        ]
    );
}

#[test]
fn tokenize_empty_input() {
    assert!(tokenize("").is_empty());
    assert!(tokenize("\n\n").is_empty());
}

#[test]
fn render_full_function() {
    let src = "int main() { int x = 1; if (x > 0) { x = x - 1; } else x = 2; while (x) x = x + 1; return x; }";
    let ast = parse(src).unwrap();
    let expected = [
        "Program",
        "└── Function: main (returns int)",
        "    └── Block",
        "        ├── VarDecl: x [int] =",
        "        │   └── Literal: 1",
        "        ├── If",
        "        │   ├── BinaryExpr: >",
        "        │   │   ├── Identifier: x",
        "        │   │   └── Literal: 0",
        "        │   ├── Block",
        "        │   │   └── Assign: x",
        "        │   │       └── BinaryExpr: -",
        "        │   │           ├── Identifier: x",
        "        │   │           └── Literal: 1",
        "        │   └── Assign: x",
        "        │       └── Literal: 2",
        "        ├── While",
        "        │   ├── Identifier: x",
        "        │   └── Assign: x",
        "        │       └── BinaryExpr: +",
        "        │           ├── Identifier: x",
        "        │           └── Literal: 1",
        "        └── Return",
        "            └── Identifier: x",
    ];
    let mut want = expected.join("\n");
    want.push('\n');
    assert_eq!(render_ast(&ast, "", true), want);
}

#[test]
fn render_declaration_without_value_and_precedence() {
    let ast = parse("float f; y = 1 + 2 * 3 < 4;").unwrap();
    let expected = [
        "Program",
        "├── VarDecl: f [float]",
        "└── Assign: y",
        "    └── BinaryExpr: <",
        "        ├── BinaryExpr: +",
        "        │   ├── Literal: 1",
        "        │   └── BinaryExpr: *",
        "        │       ├── Literal: 2",
        "        │       └── Literal: 3",
        "        └── Literal: 4",
    ];
    let mut want = expected.join("\n");
    want.push('\n');
    assert_eq!(render_ast(&ast, "", true), want);
}

#[test]
fn render_empty_program() {
    let ast = parse("").unwrap();
    assert_eq!(render_ast(&ast, "", true), "Program\n");
}

#[test]
fn parse_error_messages() {
    assert_eq!(
        parse("int 5;").unwrap_err(),
        "[Ошибка синтаксиса] Стр 1, Кол 5: Ожидался тип Identifier, найдено '5'"
    );
    assert_eq!(
        parse("x = ;").unwrap_err(),
        "[Ошибка синтаксиса] Стр 1, Кол 5: Ожидалось число, идентификатор или '(' , найдено ';'"
    );
    assert_eq!(
        parse("for (x) {}").unwrap_err(),
        "[Ошибка синтаксиса] Стр 1, Кол 1: Неподдерживаемое ключевое слово 'for'"
    );
    assert_eq!(
        parse("x = 1;\nelse x = 2;").unwrap_err(),
        "[Ошибка синтаксиса] Стр 2, Кол 1: Неподдерживаемое ключевое слово 'else'"
    );
    assert_eq!(parse("x = 1").unwrap_err(), "Неожиданный конец файла");
    assert_eq!(parse("return").unwrap_err(), "Ожидалось выражение");
    assert_eq!(
        parse("5;").unwrap_err(),
        "[Ошибка синтаксиса] Стр 1, Кол 1: Неожиданный токен '5'"
    );
    assert_eq!(
        parse("int f() x").unwrap_err(),
        "[Ошибка синтаксиса] Стр 1, Кол 9: Ожидалось '{', найдено 'x'"
    );
}

#[test]
fn clean_source_code_success() {
    let src = "#include <stdio.h>\nint main() {\n  return 0; // done\n}\n";
    let r = clean_source_code(src);
    assert_eq!(r.cleaned_code, "int main() {\nreturn 0;\n}");
    assert!(r.errors.is_empty());
    assert_eq!(r.messages, STAGES.iter().map(|s| s.to_string()).collect::<Vec<_>>());
    assert_eq!(r.tokens.len(), 9);
    assert_eq!(r.tokens[6].value, "0");
    assert_eq!((r.tokens[6].line, r.tokens[6].col), (2, 8));
    match r.ast {
        Some(AstNode::Program(items)) => assert_eq!(items.len(), 1),
        other => panic!("unexpected tree: {:?}", other),
    }
}

#[test]
fn clean_source_code_unclosed_comment_and_parse_error() {
    let r = clean_source_code("/* a\nint x;");
    assert_eq!(r.cleaned_code, "/* a\nint x;");
    assert_eq!(
        r.errors,
        vec![
            "Незакрытый комментарий (стр 0, кол 1)\n/* a\n^".to_string(),
            "[Ошибка синтаксиса] Стр 1, Кол 1: Неожиданный токен '/'".to_string(),
        ]
    );
    assert!(r.ast.is_none());
    assert!(r.messages.is_empty());
}

#[test]
fn unclosed_comment_points_at_first_open() {
    let r = clean_source_code("x = 1; /* a */ /* b");
    assert_eq!(r.errors[0], "Незакрытый комментарий (стр 1, кол 8)\nx = 1; /* a */ /* b\n       ^");
}

#[test]
fn forbidden_char_keeps_tree_but_drops_messages() {
    let r = clean_source_code("int x; // ф");
    assert_eq!(r.errors, vec!["Запрещенный символ (стр 1, кол 11)\nint x; // ф\n          ^".to_string()]);
    assert_eq!(r.cleaned_code, "int x;");
    assert!(r.ast.is_some());
    assert!(r.messages.is_empty());
}

#[test]
fn pointer_on_second_line() {
    assert_eq!(get_pointer(&chars("ab\ncd"), 4, "m"), "m (стр 2, кол 2)\ncd\n ^");
}

#[test]
fn comparison_operators() {
    for op in ["==", "!=", ">", "<", ">=", "<="] {
        assert!(comparison_op(op));
    }
    assert!(!comparison_op("="));
    assert!(!comparison_op("+"));
}

#[test]
fn tokens_come_in_line_order() {
    let tokens = tokenize("a = 1;\n\n  b = 2; c\n)");
    let lines: Vec<usize> = tokens.iter().map(|t| t.line).collect();
    assert_eq!(lines, vec![1, 1, 1, 1, 3, 3, 3, 3, 3, 4]);
}

#[test]
fn match_tokens_take_the_first_group_that_matched() {
    let g = |st: usize, t: &str| Some((st, t.to_string()));
    let caps = vec![
        vec![None, None, g(4, "x"), None, None, None],
        vec![None, None, None, None, None, None],
        vec![g(0, "int"), g(0, "if"), None, None, None, None],
        vec![None, None, None, None, None, None, g(2, "z")],
        vec![None, None, None, None, None, g(9, ";")],
    ];
    let mut out = Vec::new();
    push_match_tokens(&caps, 7, &mut out);
    let got: Vec<(TokenType, &str, usize, usize)> =
        out.iter().map(|t| (t.token_type, t.value.as_str(), t.line, t.col)).collect();
    assert_eq!(
        got,
        vec![
            (TokenType::Identifier, "x", 7, 5),
            (TokenType::Type, "int", 7, 1),
            (TokenType::Delimiter, ";", 7, 10),
        ]
    );
}

#[test]
fn tokens_of_a_line_are_in_order_and_apart() {
    let tokens = tokenize("int x<=yy+10;\nwhile(a==b)\n");
    for w in tokens.windows(2) {
        if w[0].line == w[1].line {
            assert!(w[0].col + w[0].value.len() <= w[1].col, "{:?}", w);
        }
    }
    let cols: Vec<usize> = tokens.iter().map(|t| t.col).collect();
    assert_eq!(cols, vec![1, 5, 6, 8, 10, 11, 13, 1, 6, 7, 8, 10, 11]);
}
