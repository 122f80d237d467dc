use minic::cleaner::{
    check_invalid_chars, check_syntax_after_cleaning, check_unclosed_multiline, clean_source_code,
    get_error_pointer,
};
use minic::cleaning::{
    clean_text, remove_comments, squeeze_blank_runs, strip_block_comments, strip_line_comments,
};

fn chars(s: &str) -> Vec<char> {
    s.chars().collect()
}

const NO_ERRORS: &str = "Проверка завершена: ошибок не обнаружено";
const CLEANED: &str = "Удалены комментарии, пустые строки и лишние пробелы";

#[test]
fn clean_source_code_without_errors() {
    let src = "int main() {\n  // comment\n  int  x = 1; /* c */\n\n\t return 0;\n}\n";
    let r = clean_source_code(src);
    assert!(r.errors.is_empty());
    assert_eq!(r.messages, vec![NO_ERRORS.to_string(), CLEANED.to_string()]);
    assert_eq!(r.cleaned_code, "int main() {\nint x = 1;\nreturn 0;\n}");
}

#[test]
fn clean_source_code_reports_unclosed_comment() {
    let r = clean_source_code("int a;\n/* open\nb");
    assert_eq!(
        r.errors,
        vec!["Ошибка: незакрытый многострочный комментарий (строка 1, колонка 1)\n/* open\n^".to_string()]
    );
    assert_eq!(r.messages, vec![CLEANED.to_string()]);
    assert_eq!(r.cleaned_code, "int a;\n/* open\nb");
}

#[test]
fn clean_source_code_reports_unclosed_comment_before_invalid_chars() {
    let r = clean_source_code("x = 'й'; /*");
    assert_eq!(
        r.errors,
        vec![
            "Ошибка: незакрытый многострочный комментарий (строка 1, колонка 11)\nx = 'й'; /*\n          ^".to_string(),
            "Недопустимый символ 'й' (строка 1, колонка 6)\nx = 'й'; /*\n     ^".to_string(),
        ]
    );
    assert_eq!(r.cleaned_code, "x = 'й'; /*");
}

#[test]
fn clean_source_code_of_empty_input() {
    let r = clean_source_code("");
    assert!(r.errors.is_empty());
    assert_eq!(r.messages, vec![NO_ERRORS.to_string(), CLEANED.to_string()]);
    assert_eq!(r.cleaned_code, "");
}

#[test]
fn invalid_chars_count_columns_in_bytes() {
    let errors = check_invalid_chars(&chars("аб\nok\tй\r"));
    assert_eq!(
        errors,
        vec![
            "Недопустимый символ 'а' (строка 0, колонка 1)\nаб\n^".to_string(),
            "Недопустимый символ 'б' (строка 1, колонка 3)\nаб\n  ^".to_string(),
            "Недопустимый символ 'й' (строка 2, колонка 4)\nok\tй\r\n   ^".to_string(),
        ]
    );
}

#[test]
fn ascii_text_has_no_invalid_chars() {
    assert!(check_invalid_chars(&chars("int x;\n\t\r{}")).is_empty());
}

#[test]
fn error_pointer_inside_and_at_start_of_a_line() {
    let input = chars("ab\ncd\nef");
    assert_eq!(get_error_pointer(&input, 4, "m"), "m (строка 2, колонка 2)\ncd\n ^");
    assert_eq!(get_error_pointer(&input, 3, "m"), "m (строка 1, колонка 1)\ncd\n^");
    assert_eq!(get_error_pointer(&input, 8, "m"), "m (строка 3, колонка 3)\nef\n  ^");
}

#[test]
fn unclosed_multiline_points_at_last_open() {
    let e = check_unclosed_multiline(&chars("/* a */ /* b")).unwrap();
    assert_eq!(e, "Ошибка: незакрытый многострочный комментарий (строка 1, колонка 9)\n/* a */ /* b\n        ^");
    assert_eq!(check_unclosed_multiline(&chars("/* a */")), None);
    assert_eq!(check_unclosed_multiline(&chars("/*/")), None);
    assert_eq!(check_unclosed_multiline(&chars("*/ /*")), None);
}

#[test]
fn syntax_check_flags_missing_semicolon_and_braces() {
    let errors = check_syntax_after_cleaning("int x = 1\nif (x) {\nreturn x;\n}\n}");
    assert_eq!(
        errors,
        vec![
            "Возможно, пропущена ';' в строке 1:\nint x = 1\n        ^".to_string(),
            "Ошибка: нарушен баланс фигурных скобок (-1)".to_string(),
        ]
    );
}

#[test]
fn syntax_check_skips_directives_conditions_and_main() {
    let code = "#include <stdio.h>\nint main()\n{\nifx = 2\nreturn 0;\n}";
    assert!(check_syntax_after_cleaning(code).is_empty());
}

#[test]
fn syntax_check_pointer_counts_bytes() {
    let errors = check_syntax_after_cleaning("x = \"ф\"\n{");
    assert_eq!(
        errors,
        vec![
            "Возможно, пропущена ';' в строке 1:\nx = \"ф\"\n       ^".to_string(),
            "Ошибка: нарушен баланс фигурных скобок (1)".to_string(),
        ]
    );
}

#[test]
fn block_comments_are_removed_lazily_across_lines() {
    assert_eq!(strip_block_comments("a/*x*/b/*y\n*/c"), "abc");
    assert_eq!(strip_block_comments("a/* x"), "a/* x");
}

#[test]
fn line_comments_run_to_end_of_line() {
    assert_eq!(strip_line_comments("a // b\nc//d"), "a \nc");
}

#[test]
fn blank_runs_squeeze_to_one_space() {
    assert_eq!(squeeze_blank_runs("a \t b\t\tc  "), "a b c ");
}

#[test]
fn remove_comments_block_first() {
    assert_eq!(remove_comments("a /* // */ b // c"), "a  b ");
}

#[test]
fn clean_text_trims_and_drops_lines() {
    assert_eq!(clean_text("  #x\n\n  a  b \n", false), "#x\na  b");
    assert_eq!(clean_text("  #x\n\n  a  b \n", true), "a  b");
}

#[test]
fn cleaning_never_grows_the_text() {
    for src in ["", "a", "  x  /* c */ y // z\n\n#k\n", "ф /* й */"] {
        let r = clean_source_code(src);
        assert!(r.cleaned_code.len() <= src.len());
        assert!(clean_text(src, true).len() <= src.len());
    }
}

#[test]
fn cleaned_code_lines_are_trimmed_and_single_spaced() {
    let r = clean_source_code("  a \t\t b  \n\n\t/* x */ c   d // e\n \r\n");
    assert_eq!(r.cleaned_code, "a b\nc d");
    for line in r.cleaned_code.lines() {
        assert!(!line.is_empty());
        assert_eq!(line.trim(), line);
        assert!(!line.contains('\t') && !line.contains("  "));
    }
}

#[test]
fn cleaned_text_lines_are_trimmed_and_hash_free() {
    let text = clean_text(" # a\n\t x \u{a0}\r\n\n #\n y", true);
    assert_eq!(text, "x\ny");
    for line in text.lines() {
        assert!(!line.is_empty() && line.trim() == line && !line.starts_with('#'));
    }
}

#[test]
fn no_line_comment_survives_cleaning() {
    let src = "a // x\nb /* c */ // d\n//*x*// e";
    assert_eq!(clean_text(src, false), "a\nb");
    let r = clean_source_code(src);
    assert_eq!(r.cleaned_code, "a\nb");
    assert!(!r.cleaned_code.contains("//"));
    assert_eq!(clean_text("a / / b", false), "a / / b");
    assert_eq!(clean_source_code("a /\t/ b").cleaned_code, "a / / b");
}
