use minic::compiler::ast::{AstNode, DataType};
use minic::compiler::clean_source;
use minic::compiler::parser::Parser;
use minic::compiler::render::render_ast;
use minic::compiler::semantic::{node_count, SemanticAnalyzer};
use minic::compiler::tokens::{push_match_tokens, tokenize, TokenType};

const PROGRAM: &str = "int x = 5;\nint main() {\n  int y;\n  y = x + 2;\n  if (y > 3) {\n    y = 1;\n  } else {\n    y = 2;\n  }\n  while (y < 10) y = y + 1;\n  return y;\n}\n";

fn parse(src: &str) -> Result<AstNode, String> {
    let tokens = tokenize(&clean_source(src));
    Parser::new(tokens).parse_program()
}

fn analyze(src: &str) -> SemanticAnalyzer {
    let ast = parse(src).expect("the program parses");
    let mut analyzer = SemanticAnalyzer::new();
    analyzer.analyze(&ast);
    analyzer
}

fn report_lines(src: &str) -> Vec<String> {
    analyze(src).report().lines().map(|l| l.to_string()).collect()
}

#[test]
fn clean_source_drops_comments_blank_and_hash_lines() {
    let src = "#include <stdio.h>\n/* header\n comment */int a; // trailing\n\n   b = 2;   \r\n";
    assert_eq!(clean_source(src), "int a;\nb = 2;");
}

#[test]
fn clean_source_keeps_unclosed_block_comment() {
    assert_eq!(clean_source("a /* b\nc"), "a /* b\nc");
}

#[test]
fn tokenize_numbers_lines_and_columns() {
    let tokens = tokenize("int x = 10;\n  s = \"hi there\";");
    let got: Vec<(TokenType, &str, usize, usize)> =
        tokens.iter().map(|t| (t.token_type, t.value.as_str(), t.line, t.col)).collect();
    assert_eq!(
        got,
        vec![
            (TokenType::Type, "int", 1, 1),
            (TokenType::Identifier, "x", 1, 5),
            (TokenType::Operator, "=", 1, 7),
            (TokenType::Number, "10", 1, 9),
            (TokenType::Delimiter, ";", 1, 11),
            (TokenType::Identifier, "s", 2, 3),
            (TokenType::Operator, "=", 2, 5),
            (TokenType::StringLiteral, "\"hi there\"", 2, 7),
            (TokenType::Delimiter, ";", 2, 17),
        ]
    );
}

#[test]
fn tokenize_prefers_earlier_groups_and_counts_bytes() {
    let tokens = tokenize("integer ф1.5");
    let got: Vec<(TokenType, &str, usize)> =
        tokens.iter().map(|t| (t.token_type, t.value.as_str(), t.col)).collect();
    assert_eq!(
        got,
        vec![
            (TokenType::Type, "int", 1),
            (TokenType::Identifier, "eger", 4),
            (TokenType::Number, "1.5", 11),
        ]
    );
}

#[test]
fn parse_and_render_tree() {
    let ast = parse("int f() { return (a + 1) * 2; }").unwrap();
    let expected = "Program\n\
└── Function: f (returns Int)\n    └── Block\n        └── Return\n            └── BinaryOp: *\n                ├── BinaryOp: +\n                │   ├── Variable: a\n                │   └── Literal: 1 (Int)\n                └── Literal: 2 (Int)\n";
    assert_eq!(render_ast(&ast, "", true), expected);
}

#[test]
fn render_var_decl_if_and_while() {
    let ast = parse("float z = 1.5; if (z) q = \"s\"; else { } while (q) q = q;").unwrap();
    let expected = "Program\n\
├── VarDecl: z [Float] =\n│   └── Literal: 1.5 (Float)\n\
├── If\n│   ├── Variable: z\n│   ├── Assign: q\n│   │   └── Literal: \"s\" (Char)\n│   └── Block\n\
└── While\n    ├── Variable: q\n    └── Assign: q\n        └── Variable: q\n";
    assert_eq!(render_ast(&ast, "", true), expected);
}

#[test]
fn parse_errors_are_reported_with_position() {
    assert_eq!(
        parse("int x = ;").unwrap_err(),
        "[Ошибка синтаксиса] Стр 1, Кол 9: Ожидалось число, идентификатор или '(', найдено ';'"
    );
    assert_eq!(
        parse("x = 1").unwrap_err(),
        "Неожиданный конец файла"
    );
    assert_eq!(
        parse("for (;;) {}").unwrap_err(),
        "[Ошибка синтаксиса] Стр 1, Кол 1: Неподдерживаемое ключевое слово 'for'"
    );
    assert_eq!(
        parse("int 5;").unwrap_err(),
        "[Ошибка синтаксиса] Стр 1, Кол 5: Ожидался тип Identifier, найдено '5'"
    );
    assert_eq!(
        parse("x = (1;").unwrap_err(),
        "[Ошибка синтаксиса] Стр 1, Кол 7: Ожидалось ')', найдено ';'"
    );
    assert_eq!(
        parse("; x = 1;").unwrap_err(),
        "[Ошибка синтаксиса] Стр 1, Кол 1: Неожиданный токен ';'"
    );
    assert_eq!(parse("return").unwrap_err(), "Ожидалось выражение");
}

#[test]
fn parse_consumes_every_token() {
    match parse(PROGRAM).unwrap() {
        AstNode::Program(items) => assert_eq!(items.len(), 2),
        other => panic!("not a program: {:?}", other),
    }
}

#[test]
fn string_to_datatype_maps_type_names() {
    assert_eq!(Parser::string_to_datatype("int"), DataType::Int);
    assert_eq!(Parser::string_to_datatype("float"), DataType::Float);
    assert_eq!(Parser::string_to_datatype("void"), DataType::Void);
    assert_eq!(Parser::string_to_datatype("char"), DataType::Char);
    assert_eq!(Parser::string_to_datatype("bool"), DataType::Unknown);
}

#[test]
fn triads_of_full_program() {
    let lines = report_lines(PROGRAM);
    let at = lines.iter().position(|l| l.contains("ТРИАДЫ")).unwrap();
    let triads: Vec<&str> = lines[at + 1..].iter().map(|s| s.as_str()).collect();
    assert_eq!(
        triads,
        vec![
            "1: (:=, x, 5)",
            "2: (+, x, 2)",
            "3: (:=, y, ^2)",
            "4: (>, y, 3)",
            "5: (JF, ^4, 8)",
            "6: (:=, y, 1)",
            "7: (JMP, 9, _)",
            "8: (:=, y, 2)",
            "9: (<, y, 10)",
            "10: (JF, ^9, 14)",
            "11: (+, y, 1)",
            "12: (:=, y, ^11)",
            "13: (JMP, 9, _)",
            "14: (RET, y, _)",
        ]
    );
}

#[test]
fn report_lists_symbols_by_name() {
    let text = analyze(PROGRAM).report();
    let mut expected = String::from("\n=== ЛР4: ТАБЛИЦА СИМВОЛОВ ===\n");
    expected += &format!("{:<15} | {:<8} | {:<12} | {:<10} | {:<6}\n", "Имя", "Тип", "Область", "Инициал.", "Линия");
    expected += &format!("{}\n", "-".repeat(65));
    expected += &format!("{:<15} | {:<8?} | {:<12} | {:<10} | {:<6}\n", "x", DataType::Int, "global", "+", 1);
    expected += &format!("{:<15} | {:<8?} | {:<12} | {:<10} | {:<6}\n", "y", DataType::Int, "main", "+", 3);
    expected += "\nСемантический анализ завершен успешно. Ошибок не найдено.\n";
    expected += "\n=== ЛР4: ПРОМЕЖУТОЧНОЕ ПРЕДСТАВЛЕНИЕ (ТРИАДЫ) ===\n";
    assert!(text.starts_with(&expected), "{}", text);
}

#[test]
fn semantic_errors_in_order() {
    let src = "int a = 1.5;\nint a;\nb = 2;\nint c;\nint d = c;\nfloat e = 2.0;\nd = a + e;\n";
    let lines = report_lines(src);
    let at = lines.iter().position(|l| l.contains("СЕМАНТИЧЕСКИЕ ОШИБКИ")).unwrap();
    let errors: Vec<&str> = lines[at + 1..].iter().map(|s| s.as_str()).collect();
    assert_eq!(
        errors,
        vec![
            "[ERROR] [Стр 1] Ошибка: Несоответствие типов при инициализации 'a' (ожидалось Int, получено Float)",
            "[ERROR] [Стр 2] Ошибка: Повторное объявление переменной 'a'",
            "[ERROR] [Стр 3] Ошибка: Использование необъявленной переменной 'b'",
            "[ERROR] [Стр 5] Ошибка: Использование неинициализированной переменной 'c'",
            "[ERROR] [Стр 7] Ошибка: Несоответствие типов в операции '+' (Int и Float)",
        ]
    );
}

#[test]
fn assignment_type_mismatch_and_undeclared_variable() {
    let src = "int a;\na = 2.5;\nint b = z;\n";
    let lines = report_lines(src);
    let at = lines.iter().position(|l| l.contains("СЕМАНТИЧЕСКИЕ ОШИБКИ")).unwrap();
    assert_eq!(
        &lines[at + 1..],
        &[
            "[ERROR] [Стр 2] Ошибка: Несоответствие типов при присваивании 'a' (ожидалось Int, получено Float)".to_string(),
            "[ERROR] [Стр 3] Ошибка: Использование необъявленной переменной 'z'".to_string(),
        ]
    );
}

#[test]
fn comparisons_are_bool() {
    let src = "int a = 1 < 2;\n";
    let lines = report_lines(src);
    assert!(lines.iter().any(|l| l == "[ERROR] [Стр 1] Ошибка: Несоответствие типов при инициализации 'a' (ожидалось Int, получено Bool)"));
}

#[test]
fn jump_patch_rewrites_third_comma_field() {
    let lines = report_lines("int x;\nif (\"p, q\") x = 1;\n");
    let at = lines.iter().position(|l| l.contains("ТРИАДЫ")).unwrap();
    assert_eq!(
        &lines[at + 1..],
        &["1: (JF, \"p, 3)".to_string(), "2: (:=, x, 1)".to_string()]
    );
}

#[test]
fn while_without_else_patches_exit() {
    let lines = report_lines("int i = 0;\nwhile (i < 3) { i = i + 1; }\n");
    let at = lines.iter().position(|l| l.contains("ТРИАДЫ")).unwrap();
    assert_eq!(
        &lines[at + 1..],
        &[
            "1: (:=, i, 0)".to_string(),
            "2: (<, i, 3)".to_string(),
            "3: (JF, ^2, 7)".to_string(),
            "4: (+, i, 1)".to_string(),
            "5: (:=, i, ^4)".to_string(),
            "6: (JMP, 2, _)".to_string(),
        ]
    );
}

#[test]
fn if_without_else_and_numbering_law() {
    let lines = report_lines("int i = 1;\nif (i == 1) i = 2;\ni = 3;\n");
    let at = lines.iter().position(|l| l.contains("ТРИАДЫ")).unwrap();
    let triads = &lines[at + 1..];
    assert_eq!(triads[2], "3: (JF, ^2, 5)");
    for (k, t) in triads.iter().enumerate() {
        assert!(t.starts_with(&format!("{}: (", k + 1)), "{}", t);
    }
}

#[test]
fn analysis_restores_scope_after_function() {
    let text = analyze("int f() { int v = 1; }\nint g = 2;\n").report();
    assert!(text.contains(&format!("{:<15} | {:<8?} | {:<12} |", "g", DataType::Int, "global")), "{}", text);
    assert!(text.contains(&format!("{:<15} | {:<8?} | {:<12} |", "v", DataType::Int, "f")), "{}", text);
}

#[test]
fn uninitialized_use_keeps_reporting() {
    let lines = report_lines("int a;\nint b = a;\nb = a;\n");
    let errs: Vec<&String> = lines.iter().filter(|l| l.starts_with("[ERROR]")).collect();
    assert_eq!(errs.len(), 2);
}

#[test]
fn typed_tokens_come_in_line_order() {
    let tokens = tokenize("x\n\"s\" y\n\n(");
    let got: Vec<(TokenType, usize)> = tokens.iter().map(|t| (t.token_type, t.line)).collect();
    assert_eq!(
        got,
        vec![
            (TokenType::Identifier, 1),
            (TokenType::StringLiteral, 2),
            (TokenType::Identifier, 2),
            (TokenType::Delimiter, 4),
        ]
    );
}

#[test]
fn typed_match_tokens_take_the_first_group_that_matched() {
    let g = |st: usize, t: &str| Some((st, t.to_string()));
    let caps = vec![
        vec![None, None, g(3, "\"a\""), g(3, "a"), None, None, None],
        vec![None, None, None, None, None, None, g(2, "(")],
        vec![None, None, None, None, None, None, None, g(5, "q")],
        vec![None, None, None, None, g(0, "1.5"), None, None],
    ];
    let mut out = Vec::new();
    push_match_tokens(&caps, 2, &mut out);
    let got: Vec<(TokenType, &str, usize, usize)> =
        out.iter().map(|t| (t.token_type, t.value.as_str(), t.line, t.col)).collect();
    assert_eq!(
        got,
        vec![
            (TokenType::StringLiteral, "\"a\"", 2, 4),
            (TokenType::Delimiter, "(", 2, 3),
            (TokenType::Number, "1.5", 2, 1),
        ]
    );
}

#[test]
fn cloned_tree_renders_the_same() {
    let ast = parse(PROGRAM).unwrap();
    let copy = ast.clone();
    assert_eq!(render_ast(&copy, "", true), render_ast(&ast, "", true));
    let mut a = SemanticAnalyzer::new();
    a.analyze(&copy);
    assert_eq!(a.report(), analyze(PROGRAM).report());
}

#[test]
fn triads_are_added_with_the_next_number() {
    let mut a = SemanticAnalyzer::new();
    assert_eq!(a.next_triad_idx(), 1);
    assert_eq!(a.add_triad("+", "a", "b"), "^1");
    assert_eq!(a.next_triad_idx(), 2);
    assert_eq!(a.add_triad("JMP", "1", "_"), "^2");
    let text = a.report();
    assert!(text.ends_with("1: (+, a, b)\n2: (JMP, 1, _)\n"), "{}", text);
}

#[test]
fn node_count_and_fits() {
    let ast = parse("int x = 1 + 2;\nx = x;").unwrap();
    assert_eq!(node_count(&ast, 100), 7);
    assert_eq!(node_count(&ast, 5), 5);
    assert!(SemanticAnalyzer::new().fits(&ast));
}

#[test]
fn analysis_operands_and_kept_symbols() {
    let mut a = SemanticAnalyzer::new();
    let decl = parse("int x;").unwrap();
    a.analyze(&decl);
    let ast = parse("x = 2; float x = 1.5;").unwrap();
    assert_eq!(a.analyze(&ast), "");
    let text = a.report();
    assert!(text.contains(&format!("{:<15} | {:<8?} | {:<12} | {:<10} | {:<6}", "x", DataType::Int, "global", "+", 1)), "{}", text);
    match parse("y = 3;").unwrap() {
        AstNode::Program(items) => assert_eq!(SemanticAnalyzer::new().analyze(&items[0]), ""),
        _ => panic!(),
    }
    match parse("z = a + 1;").unwrap() {
        AstNode::Program(items) => match &items[0] {
            AstNode::AssignStmt { right, .. } => {
                let mut b = SemanticAnalyzer::new();
                assert_eq!(b.analyze(right), "^1");
            }
            _ => panic!(),
        },
        _ => panic!(),
    }
}

#[test]
fn analysis_keeps_symbols_for_hand_built_trees() {
    let mut a = SemanticAnalyzer::new();
    a.analyze(&parse("int x = 1;").unwrap());
    let inner = AstNode::VarDecl {
        name: "y".to_string(),
        data_type: DataType::Float,
        value: None,
        line: 5,
    };
    let outer = AstNode::VarDecl {
        name: "y".to_string(),
        data_type: DataType::Int,
        value: Some(Box::new(inner)),
        line: 6,
    };
    a.analyze(&outer);
    let text = a.report();
    assert!(text.contains(&format!("{:<15} | {:<8?} | {:<12} | {:<10} | {:<6}", "x", DataType::Int, "global", "+", 1)), "{}", text);
    assert!(text.contains(&format!("{:<15} | {:<8?} | {:<12} | {:<10} | {:<6}", "y", DataType::Int, "global", "+", 6)), "{}", text);
}
