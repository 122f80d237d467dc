//! The recursive-descent parser of the full pipeline: its grammar as spec
//! functions over token views, and the parser that is proved to follow it.
use vstd::prelude::*;
use vstd::string::StringExecFns;
use crate::text::{decimal, push_decimal, push_str, str_eq};
use crate::compiler::tokens::{Token, TokenType, TokenV, token_type_name, token_views};
use crate::compiler::ast::{AstNode, AstV, DataType};

verus! {

// ---------------------------------------------------------------------------
// Messages.
pub open spec fn eof_msg() -> Seq<char> {
    "Неожиданный конец файла"@
}

pub open spec fn no_expr_msg() -> Seq<char> {
    "Ожидалось выражение"@
}

/// The common head of a syntax error at token `t`.
pub open spec fn syntax_at(t: TokenV) -> Seq<char> {
    "[Ошибка синтаксиса] Стр "@ + decimal(t.line as nat) + ", Кол "@ + decimal(t.col as nat)
        + ": "@
}

pub open spec fn expected_type_msg(t: TokenV, tt: TokenType) -> Seq<char> {
    syntax_at(t) + "Ожидался тип "@ + token_type_name(tt) + ", найдено '"@ + t.value + "'"@
}

pub open spec fn expected_value_msg(t: TokenV, v: Seq<char>) -> Seq<char> {
    syntax_at(t) + "Ожидалось '"@ + v + "', найдено '"@ + t.value + "'"@
}

pub open spec fn unsupported_keyword_msg(t: TokenV) -> Seq<char> {
    syntax_at(t) + "Неподдерживаемое ключевое слово '"@ + t.value + "'"@
}

pub open spec fn unexpected_token_msg(t: TokenV) -> Seq<char> {
    syntax_at(t) + "Неожиданный токен '"@ + t.value + "'"@
}

pub open spec fn bad_primary_msg(t: TokenV) -> Seq<char> {
    syntax_at(t) + "Ожидалось число, идентификатор или '(', найдено '"@ + t.value + "'"@
}

fn syntax_at_exec(t: &Token) -> (s: String)
    ensures
        s@ == syntax_at(t@),
{
    let mut s = String::from_str("[Ошибка синтаксиса] Стр ");
    push_decimal(&mut s, t.line);
    push_str(&mut s, ", Кол ");
    push_decimal(&mut s, t.col);
    push_str(&mut s, ": ");
    s
}

/// `head` followed by `t`'s text in quotes.
fn with_found(mut s: String, t: &Token) -> (r: String)
    ensures
        r@ == s@ + t.value@ + "'"@,
{
    push_str(&mut s, t.value.as_str());
    push_str(&mut s, "'");
    s
}

fn expected_type_exec(t: &Token, tt: TokenType) -> (s: String)
    ensures
        s@ == expected_type_msg(t@, tt),
{
    let mut s = syntax_at_exec(t);
    push_str(&mut s, "Ожидался тип ");
    push_str(&mut s, tt.name());
    push_str(&mut s, ", найдено '");
    with_found(s, t)
}

fn expected_value_exec(t: &Token, v: &str) -> (s: String)
    ensures
        s@ == expected_value_msg(t@, v@),
{
    let mut s = syntax_at_exec(t);
    push_str(&mut s, "Ожидалось '");
    push_str(&mut s, v);
    push_str(&mut s, "', найдено '");
    with_found(s, t)
}

fn tagged_exec(t: &Token, body: &str) -> (s: String)
    ensures
        s@ == syntax_at(t@) + body@ + t.value@ + "'"@,
{
    let mut s = syntax_at_exec(t);
    push_str(&mut s, body);
    with_found(s, t)
}

// ---------------------------------------------------------------------------
// The grammar.
pub open spec fn datatype_of(s: Seq<char>) -> DataType {
    if s == "int"@ {
        DataType::Int
    } else if s == "float"@ {
        DataType::Float
    } else if s == "void"@ {
        DataType::Void
    } else if s == "char"@ {
        DataType::Char
    } else {
        DataType::Unknown
    }
}

pub open spec fn peek_is(toks: Seq<TokenV>, pos: int, v: Seq<char>) -> bool {
    0 <= pos < toks.len() && toks[pos].value == v
}

/// Whether a parse that began at `pos` and stopped at `p` consumed tokens.
pub open spec fn advanced(toks: Seq<TokenV>, pos: int, p: int) -> bool {
    pos < p <= toks.len()
}

pub open spec fn expect_type_spec(toks: Seq<TokenV>, pos: int, tt: TokenType) -> Result<
    (TokenV, int),
    (Seq<char>, int),
> {
    if !(0 <= pos < toks.len()) {
        Err((eof_msg(), pos))
    } else if toks[pos].token_type == tt {
        Ok((toks[pos], pos + 1))
    } else {
        Err((expected_type_msg(toks[pos], tt), pos))
    }
}

pub open spec fn expect_value_spec(toks: Seq<TokenV>, pos: int, v: Seq<char>) -> Result<
    (TokenV, int),
    (Seq<char>, int),
> {
    if !(0 <= pos < toks.len()) {
        Err((eof_msg(), pos))
    } else if toks[pos].value == v {
        Ok((toks[pos], pos + 1))
    } else {
        Err((expected_value_msg(toks[pos], v), pos))
    }
}

pub open spec fn is_comparison_op(v: Seq<char>) -> bool {
    v == "=="@ || v == "!="@ || v == ">"@ || v == "<"@ || v == ">="@ || v == "<="@
}

pub open spec fn is_additive_op(v: Seq<char>) -> bool {
    v == "+"@ || v == "-"@
}

pub open spec fn is_multiplicative_op(v: Seq<char>) -> bool {
    v == "*"@ || v == "/"@
}

/// A number, a string literal, a variable, or a parenthesized expression.
pub open spec fn primary_spec(toks: Seq<TokenV>, pos: int) -> Result<(AstV, int), (Seq<char>, int)>
    decreases toks.len() - pos, 0int,
{
    if !(0 <= pos < toks.len()) {
        Err((no_expr_msg(), pos))
    } else {
        let t = toks[pos];
        if t.token_type == TokenType::Number {
            let dt = if t.value.contains('.') {
                DataType::Float
            } else {
                DataType::Int
            };
            Ok((AstV::Literal { value: t.value, data_type: dt, line: t.line }, pos + 1))
        } else if t.token_type == TokenType::StringLiteral {
            Ok((AstV::Literal { value: t.value, data_type: DataType::Char, line: t.line }, pos + 1))
        } else if t.token_type == TokenType::Identifier {
            Ok((AstV::Variable { name: t.value, line: t.line }, pos + 1))
        } else if t.token_type == TokenType::Delimiter && t.value == "("@ {
            match expression_spec(toks, pos + 1) {
                Err(e) => Err(e),
                Ok((n, p)) => match expect_value_spec(toks, p, ")"@) {
                    Err(e) => Err(e),
                    Ok((_, p2)) => Ok((n, p2)),
                },
            }
        } else {
            Err((bad_primary_msg(t), pos + 1))
        }
    }
}

/// Further `* primary` and `/ primary` after `left`, folded to the left.
pub open spec fn multiplicative_rest(toks: Seq<TokenV>, pos: int, left: AstV) -> Result<
    (AstV, int),
    (Seq<char>, int),
>
    decreases toks.len() - pos, 1int,
{
    if 0 <= pos < toks.len() && is_multiplicative_op(toks[pos].value) {
        let t = toks[pos];
        match primary_spec(toks, pos + 1) {
            Err(e) => Err(e),
            Ok((right, p)) => {
                let node = AstV::BinaryOp {
                    left: Box::new(left),
                    op: t.value,
                    right: Box::new(right),
                    line: t.line,
                };
                if advanced(toks, pos, p) {
                    multiplicative_rest(toks, p, node)
                } else {
                    Ok((node, p))
                }
            },
        }
    } else {
        Ok((left, pos))
    }
}

pub open spec fn multiplicative_spec(toks: Seq<TokenV>, pos: int) -> Result<(AstV, int), (Seq<char>, int)>
    decreases toks.len() - pos, 1int,
{
    match primary_spec(toks, pos) {
        Err(e) => Err(e),
        Ok((left, p)) => if advanced(toks, pos, p) {
            multiplicative_rest(toks, p, left)
        } else {
            Ok((left, p))
        },
    }
}

pub open spec fn additive_rest(toks: Seq<TokenV>, pos: int, left: AstV) -> Result<
    (AstV, int),
    (Seq<char>, int),
>
    decreases toks.len() - pos, 2int,
{
    if 0 <= pos < toks.len() && is_additive_op(toks[pos].value) {
        let t = toks[pos];
        match multiplicative_spec(toks, pos + 1) {
            Err(e) => Err(e),
            Ok((right, p)) => {
                let node = AstV::BinaryOp {
                    left: Box::new(left),
                    op: t.value,
                    right: Box::new(right),
                    line: t.line,
                };
                if advanced(toks, pos, p) {
                    additive_rest(toks, p, node)
                } else {
                    Ok((node, p))
                }
            },
        }
    } else {
        Ok((left, pos))
    }
}

pub open spec fn additive_spec(toks: Seq<TokenV>, pos: int) -> Result<(AstV, int), (Seq<char>, int)>
    decreases toks.len() - pos, 2int,
{
    match multiplicative_spec(toks, pos) {
        Err(e) => Err(e),
        Ok((left, p)) => if advanced(toks, pos, p) {
            additive_rest(toks, p, left)
        } else {
            Ok((left, p))
        },
    }
}

pub open spec fn comparison_rest(toks: Seq<TokenV>, pos: int, left: AstV) -> Result<
    (AstV, int),
    (Seq<char>, int),
>
    decreases toks.len() - pos, 3int,
{
    if 0 <= pos < toks.len() && is_comparison_op(toks[pos].value) {
        let t = toks[pos];
        match additive_spec(toks, pos + 1) {
            Err(e) => Err(e),
            Ok((right, p)) => {
                let node = AstV::BinaryOp {
                    left: Box::new(left),
                    op: t.value,
                    right: Box::new(right),
                    line: t.line,
                };
                if advanced(toks, pos, p) {
                    comparison_rest(toks, p, node)
                } else {
                    Ok((node, p))
                }
            },
        }
    } else {
        Ok((left, pos))
    }
}

pub open spec fn comparison_spec(toks: Seq<TokenV>, pos: int) -> Result<(AstV, int), (Seq<char>, int)>
    decreases toks.len() - pos, 3int,
{
    match additive_spec(toks, pos) {
        Err(e) => Err(e),
        Ok((left, p)) => if advanced(toks, pos, p) {
            comparison_rest(toks, p, left)
        } else {
            Ok((left, p))
        },
    }
}

pub open spec fn expression_spec(toks: Seq<TokenV>, pos: int) -> Result<(AstV, int), (Seq<char>, int)>
    decreases toks.len() - pos, 4int,
{
    comparison_spec(toks, pos)
}

/// An optional `= expression` initializer.
pub open spec fn init_spec(toks: Seq<TokenV>, pos: int) -> Result<
    (Option<Box<AstV>>, int),
    (Seq<char>, int),
>
    decreases toks.len() - pos, 5int,
{
    if peek_is(toks, pos, "="@) {
        match expression_spec(toks, pos + 1) {
            Err(e) => Err(e),
            Ok((v, p)) => Ok((Some(Box::new(v)), p)),
        }
    } else {
        Ok((None, pos))
    }
}

/// `type name [= expression];` where `pos` holds the type.
pub open spec fn decl_spec(toks: Seq<TokenV>, pos: int) -> Result<(AstV, int), (Seq<char>, int)>
    decreases toks.len() - pos, 4int,
{
    if !(0 <= pos < toks.len()) {
        Err((eof_msg(), pos))
    } else {
        let dt = datatype_of(toks[pos].value);
        match expect_type_spec(toks, pos + 1, TokenType::Identifier) {
            Err(e) => Err(e),
            Ok((name, p1)) => match init_spec(toks, p1) {
                Err(e) => Err(e),
                Ok((value, p2)) => match expect_value_spec(toks, p2, ";"@) {
                    Err(e) => Err(e),
                    Ok((_, p3)) => Ok(
                        (
                            AstV::VarDecl {
                                name: name.value,
                                data_type: dt,
                                value: value,
                                line: name.line,
                            },
                            p3,
                        ),
                    ),
                },
            },
        }
    }
}

/// `return expression;` where `pos` holds `return`.
pub open spec fn return_spec(toks: Seq<TokenV>, pos: int) -> Result<(AstV, int), (Seq<char>, int)>
    decreases toks.len() - pos, 4int,
{
    if !(0 <= pos < toks.len()) {
        Err((eof_msg(), pos))
    } else {
        match expression_spec(toks, pos + 1) {
            Err(e) => Err(e),
            Ok((v, p1)) => match expect_value_spec(toks, p1, ";"@) {
                Err(e) => Err(e),
                Ok((_, p2)) => Ok((AstV::ReturnStmt { value: Box::new(v), line: toks[pos].line }, p2)),
            },
        }
    }
}

/// `if (expression) body [else body]` where `pos` holds `if`.
pub open spec fn if_spec(toks: Seq<TokenV>, pos: int) -> Result<(AstV, int), (Seq<char>, int)>
    decreases toks.len() - pos, 4int,
{
    if !(0 <= pos < toks.len()) {
        Err((eof_msg(), pos))
    } else {
        let line = toks[pos].line;
        match expect_value_spec(toks, pos + 1, "("@) {
            Err(e) => Err(e),
            Ok((_, p1)) => match expression_spec(toks, p1) {
                Err(e) => Err(e),
                Ok((c, p2)) => match expect_value_spec(toks, p2, ")"@) {
                    Err(e) => Err(e),
                    Ok((_, p3)) => if !advanced(toks, pos, p3) {
                        Err((eof_msg(), p3))
                    } else {
                        match stmt_or_block_spec(toks, p3) {
                            Err(e) => Err(e),
                            Ok((th, p4)) => if !advanced(toks, pos, p4) {
                                Err((eof_msg(), p4))
                            } else if peek_is(toks, p4, "else"@) {
                                match stmt_or_block_spec(toks, p4 + 1) {
                                    Err(e) => Err(e),
                                    Ok((el, p5)) => Ok(
                                        (
                                            AstV::IfStmt {
                                                condition: Box::new(c),
                                                then_block: Box::new(th),
                                                else_block: Some(Box::new(el)),
                                                line: line,
                                            },
                                            p5,
                                        ),
                                    ),
                                }
                            } else {
                                Ok(
                                    (
                                        AstV::IfStmt {
                                            condition: Box::new(c),
                                            then_block: Box::new(th),
                                            else_block: None,
                                            line: line,
                                        },
                                        p4,
                                    ),
                                )
                            },
                        }
                    },
                },
            },
        }
    }
}

/// `while (expression) body` where `pos` holds `while`.
pub open spec fn while_spec(toks: Seq<TokenV>, pos: int) -> Result<(AstV, int), (Seq<char>, int)>
    decreases toks.len() - pos, 4int,
{
    if !(0 <= pos < toks.len()) {
        Err((eof_msg(), pos))
    } else {
        let line = toks[pos].line;
        match expect_value_spec(toks, pos + 1, "("@) {
            Err(e) => Err(e),
            Ok((_, p1)) => match expression_spec(toks, p1) {
                Err(e) => Err(e),
                Ok((c, p2)) => match expect_value_spec(toks, p2, ")"@) {
                    Err(e) => Err(e),
                    Ok((_, p3)) => if !advanced(toks, pos, p3) {
                        Err((eof_msg(), p3))
                    } else {
                        match stmt_or_block_spec(toks, p3) {
                            Err(e) => Err(e),
                            Ok((b, p4)) => Ok(
                                (
                                    AstV::WhileStmt {
                                        condition: Box::new(c),
                                        body: Box::new(b),
                                        line: line,
                                    },
                                    p4,
                                ),
                            ),
                        }
                    },
                },
            },
        }
    }
}

/// `name = expression;` where `pos` holds the name.
pub open spec fn assign_spec(toks: Seq<TokenV>, pos: int) -> Result<(AstV, int), (Seq<char>, int)>
    decreases toks.len() - pos, 4int,
{
    if !(0 <= pos < toks.len()) {
        Err((eof_msg(), pos))
    } else {
        let t = toks[pos];
        match expect_value_spec(toks, pos + 1, "="@) {
            Err(e) => Err(e),
            Ok((_, p1)) => match expression_spec(toks, p1) {
                Err(e) => Err(e),
                Ok((v, p2)) => match expect_value_spec(toks, p2, ";"@) {
                    Err(e) => Err(e),
                    Ok((_, p3)) => Ok(
                        (AstV::AssignStmt { left: t.value, right: Box::new(v), line: t.line }, p3),
                    ),
                },
            },
        }
    }
}

/// A declaration, `return`, `if`, `while`, or an assignment.
pub open spec fn statement_spec(toks: Seq<TokenV>, pos: int) -> Result<(AstV, int), (Seq<char>, int)>
    decreases toks.len() - pos, 5int,
{
    if !(0 <= pos < toks.len()) {
        Err((eof_msg(), pos))
    } else {
        let t = toks[pos];
        if t.token_type == TokenType::Type {
            decl_spec(toks, pos)
        } else if t.token_type == TokenType::Keyword {
            if t.value == "return"@ {
                return_spec(toks, pos)
            } else if t.value == "if"@ {
                if_spec(toks, pos)
            } else if t.value == "while"@ {
                while_spec(toks, pos)
            } else {
                Err((unsupported_keyword_msg(t), pos))
            }
        } else if t.token_type == TokenType::Identifier {
            assign_spec(toks, pos)
        } else {
            Err((unexpected_token_msg(t), pos))
        }
    }
}

/// A block when the next token is `{`, a single statement otherwise.
pub open spec fn stmt_or_block_spec(toks: Seq<TokenV>, pos: int) -> Result<(AstV, int), (Seq<char>, int)>
    decreases toks.len() - pos, 7int,
{
    if peek_is(toks, pos, "{"@) {
        block_spec(toks, pos)
    } else {
        statement_spec(toks, pos)
    }
}

/// Statements up to the closing `}`, after those already read (`acc`).
pub open spec fn block_rest(toks: Seq<TokenV>, pos: int, acc: Seq<AstV>) -> Result<
    (AstV, int),
    (Seq<char>, int),
>
    decreases toks.len() - pos, 6int,
{
    if 0 <= pos < toks.len() && toks[pos].value != "}"@ {
        match statement_spec(toks, pos) {
            Err(e) => Err(e),
            Ok((s, p)) => if advanced(toks, pos, p) {
                block_rest(toks, p, acc.push(s))
            } else {
                Err((eof_msg(), p))
            },
        }
    } else {
        match expect_value_spec(toks, pos, "}"@) {
            Err(e) => Err(e),
            Ok((_, p)) => Ok((AstV::Block(acc), p)),
        }
    }
}

pub open spec fn block_spec(toks: Seq<TokenV>, pos: int) -> Result<(AstV, int), (Seq<char>, int)>
    decreases toks.len() - pos, 6int,
{
    match expect_value_spec(toks, pos, "{"@) {
        Err(e) => Err(e),
        Ok((_, p)) => block_rest(toks, p, Seq::empty()),
    }
}

/// `( ) block` after a function's type and name.
pub open spec fn function_spec(
    toks: Seq<TokenV>,
    pos: int,
    name: Seq<char>,
    return_type: DataType,
    line: usize,
) -> Result<(AstV, int), (Seq<char>, int)>
    decreases toks.len() - pos, 6int,
{
    match expect_value_spec(toks, pos, "("@) {
        Err(e) => Err(e),
        Ok((_, p1)) => match expect_value_spec(toks, p1, ")"@) {
            Err(e) => Err(e),
            Ok((_, p2)) => match block_spec(toks, p2) {
                Err(e) => Err(e),
                Ok((b, p3)) => Ok(
                    (
                        AstV::Function {
                            name: name,
                            return_type: return_type,
                            body: Box::new(b),
                            line: line,
                        },
                        p3,
                    ),
                ),
            },
        },
    }
}

/// A global declaration or function when the next token is a type, a statement otherwise.
pub open spec fn top_level_spec(toks: Seq<TokenV>, pos: int) -> Result<(AstV, int), (Seq<char>, int)>
    decreases toks.len() - pos, 6int,
{
    if 0 <= pos < toks.len() && toks[pos].token_type == TokenType::Type {
        let ty = toks[pos];
        match expect_type_spec(toks, pos + 1, TokenType::Identifier) {
            Err(e) => Err(e),
            Ok((name, p1)) => {
                let dt = datatype_of(ty.value);
                if peek_is(toks, p1, "("@) {
                    function_spec(toks, p1, name.value, dt, ty.line)
                } else {
                    match init_spec(toks, p1) {
                        Err(e) => Err(e),
                        Ok((value, p2)) => match expect_value_spec(toks, p2, ";"@) {
                            Err(e) => Err(e),
                            Ok((_, p3)) => Ok(
                                (
                                    AstV::VarDecl {
                                        name: name.value,
                                        data_type: dt,
                                        value: value,
                                        line: name.line,
                                    },
                                    p3,
                                ),
                            ),
                        },
                    }
                }
            },
        }
    } else {
        statement_spec(toks, pos)
    }
}

/// Top-level items from `pos` to the end, after those already read (`acc`).
pub open spec fn program_rest(toks: Seq<TokenV>, pos: int, acc: Seq<AstV>) -> Result<
    (AstV, int),
    (Seq<char>, int),
>
    decreases toks.len() - pos,
{
    if 0 <= pos < toks.len() {
        match top_level_spec(toks, pos) {
            Err(e) => Err(e),
            Ok((n, p)) => if advanced(toks, pos, p) {
                program_rest(toks, p, acc.push(n))
            } else {
                Err((eof_msg(), p))
            },
        }
    } else {
        Ok((AstV::Program(acc), pos))
    }
}

/// The program that `toks` spell, or the first syntax error.
pub open spec fn program_spec(toks: Seq<TokenV>) -> Result<AstV, Seq<char>> {
    match program_rest(toks, 0, Seq::empty()) {
        Ok((p, _)) => Ok(p),
        Err((e, _)) => Err(e),
    }
}

/// The variable that an identifier token names.
pub open spec fn variable_of(t: TokenV) -> AstV {
    AstV::Variable { name: t.value, line: t.line }
}

/// `name = a o1 b o2 c;` with names `a`, `b`, `c` and additive `o1`, `o2`.
pub open spec fn additive_chain(toks: Seq<TokenV>) -> bool {
    &&& toks.len() == 8
    &&& toks[0].token_type == TokenType::Identifier
    &&& toks[1].value == "="@
    &&& toks[2].token_type == TokenType::Identifier
    &&& (toks[3].value == "+"@ || toks[3].value == "-"@)
    &&& toks[4].token_type == TokenType::Identifier
    &&& (toks[5].value == "+"@ || toks[5].value == "-"@)
    &&& toks[6].token_type == TokenType::Identifier
    &&& toks[7].value == ";"@
}

/// What the operator texts are, character by character.
proof fn lemma_operator_texts()
    ensures
        "+"@ == seq!['+'],
        "-"@ == seq!['-'],
        "*"@ == seq!['*'],
        "/"@ == seq!['/'],
        ";"@ == seq![';'],
        ">"@ == seq!['>'],
        "<"@ == seq!['<'],
        "=="@.len() == 2,
        "!="@.len() == 2,
        ">="@.len() == 2,
        "<="@.len() == 2,
{
    reveal_strlit("+");
    reveal_strlit("-");
    reveal_strlit("*");
    reveal_strlit("/");
    reveal_strlit(";");
    reveal_strlit("==");
    reveal_strlit("!=");
    reveal_strlit(">");
    reveal_strlit("<");
    reveal_strlit(">=");
    reveal_strlit("<=");
    assert("+"@ =~= seq!['+']);
    assert("-"@ =~= seq!['-']);
    assert("*"@ =~= seq!['*']);
    assert("/"@ =~= seq!['/']);
    assert(";"@ =~= seq![';']);
    assert(">"@ =~= seq!['>']);
    assert("<"@ =~= seq!['<']);
}

/// A name followed by `+`, `-` or `;` is a term of its own.
proof fn lemma_name_term(toks: Seq<TokenV>, i: int)
    requires
        0 <= i,
        i + 1 < toks.len(),
        toks[i].token_type == TokenType::Identifier,
        toks[i + 1].value == "+"@ || toks[i + 1].value == "-"@ || toks[i + 1].value == ";"@,
    ensures
        multiplicative_spec(toks, i) == Ok::<(AstV, int), (Seq<char>, int)>(
            (variable_of(toks[i]), i + 1),
        ),
{
    lemma_operator_texts();
    let v = toks[i + 1].value;
    assert(v.len() == 1 && (v[0] == '+' || v[0] == '-' || v[0] == ';'));
    assert(v != "*"@) by {
        if v == "*"@ {
            assert(v[0] == '*');
        }
    }
    assert(v != "/"@) by {
        if v == "/"@ {
            assert(v[0] == '/');
        }
    }
    assert(!is_multiplicative_op(toks[i + 1].value));
    assert(primary_spec(toks, i) == Ok::<(AstV, int), (Seq<char>, int)>(
        (variable_of(toks[i]), i + 1),
    ));
    assert(multiplicative_rest(toks, i + 1, variable_of(toks[i])) == Ok::<
        (AstV, int),
        (Seq<char>, int),
    >((variable_of(toks[i]), i + 1)));
}

/// `(a o1 b) o2 c` for the chain in `toks`.
pub open spec fn left_folded(toks: Seq<TokenV>) -> AstV {
    AstV::BinaryOp {
        left: Box::new(
            AstV::BinaryOp {
                left: Box::new(variable_of(toks[2])),
                op: toks[3].value,
                right: Box::new(variable_of(toks[4])),
                line: toks[3].line,
            },
        ),
        op: toks[5].value,
        right: Box::new(variable_of(toks[6])),
        line: toks[5].line,
    }
}

proof fn lemma_chain_expression(toks: Seq<TokenV>)
    requires
        additive_chain(toks),
    ensures
        expression_spec(toks, 2) == Ok::<(AstV, int), (Seq<char>, int)>((left_folded(toks), 7)),
{
    lemma_operator_texts();
    lemma_name_term(toks, 2);
    lemma_name_term(toks, 4);
    lemma_name_term(toks, 6);
    let b1 = AstV::BinaryOp {
        left: Box::new(variable_of(toks[2])),
        op: toks[3].value,
        right: Box::new(variable_of(toks[4])),
        line: toks[3].line,
    };
    let b2 = left_folded(toks);
    let v = toks[7].value;
    assert(v.len() == 1 && v[0] == ';');
    assert(v != "+"@ && v != "-"@ && v != ">"@ && v != "<"@) by {
        if v == "+"@ {
            assert(v[0] == '+');
        }
        if v == "-"@ {
            assert(v[0] == '-');
        }
        if v == ">"@ {
            assert(v[0] == '>');
        }
        if v == "<"@ {
            assert(v[0] == '<');
        }
    }
    assert(!is_additive_op(toks[7].value));
    assert(!is_comparison_op(toks[7].value));
    assert(additive_rest(toks, 7, b2) == Ok::<(AstV, int), (Seq<char>, int)>((b2, 7)));
    assert(additive_rest(toks, 5, b1) == Ok::<(AstV, int), (Seq<char>, int)>((b2, 7)));
    assert(additive_rest(toks, 3, variable_of(toks[2])) == Ok::<(AstV, int), (Seq<char>, int)>(
        (b2, 7),
    ));
    assert(additive_spec(toks, 2) == Ok::<(AstV, int), (Seq<char>, int)>((b2, 7)));
    assert(comparison_rest(toks, 7, b2) == Ok::<(AstV, int), (Seq<char>, int)>((b2, 7)));
}

/// Law: `+` and `-` associate to the left. `name = a o1 b o2 c;`, with `a`,
/// `b`, `c` names and `o1`, `o2` each `+` or `-`, parses as one assignment of
/// `(a o1 b) o2 c`.
pub proof fn lemma_additive_left_assoc(toks: Seq<TokenV>)
    requires
        additive_chain(toks),
    ensures
        program_rest(toks, 0, Seq::empty()) == Ok::<(AstV, int), (Seq<char>, int)>(
            (
                AstV::Program(
                    seq![
                        AstV::AssignStmt {
                            left: toks[0].value,
                            right: Box::new(
                                AstV::BinaryOp {
                                    left: Box::new(
                                        AstV::BinaryOp {
                                            left: Box::new(variable_of(toks[2])),
                                            op: toks[3].value,
                                            right: Box::new(variable_of(toks[4])),
                                            line: toks[3].line,
                                        },
                                    ),
                                    op: toks[5].value,
                                    right: Box::new(variable_of(toks[6])),
                                    line: toks[5].line,
                                },
                            ),
                            line: toks[0].line,
                        },
                    ],
                ),
                8int,
            ),
        ),
{
    lemma_chain_expression(toks);
    let a = AstV::AssignStmt {
        left: toks[0].value,
        right: Box::new(left_folded(toks)),
        line: toks[0].line,
    };
    assert(assign_spec(toks, 0) == Ok::<(AstV, int), (Seq<char>, int)>((a, 8)));
    assert(statement_spec(toks, 0) == Ok::<(AstV, int), (Seq<char>, int)>((a, 8)));
    assert(top_level_spec(toks, 0) == Ok::<(AstV, int), (Seq<char>, int)>((a, 8)));
    assert(Seq::<AstV>::empty().push(a) == seq![a]);
    assert(program_rest(toks, 8, seq![a]) == Ok::<(AstV, int), (Seq<char>, int)>(
        (AstV::Program(seq![a]), 8),
    ));
}

/// `name = a o1 b o2 c;` with names `a`, `b`, `c`, whatever `o1` and `o2` are.
pub open spec fn three_name_assignment(toks: Seq<TokenV>) -> bool {
    &&& toks.len() == 8
    &&& toks[0].token_type == TokenType::Identifier
    &&& toks[1].value == "="@
    &&& toks[2].token_type == TokenType::Identifier
    &&& toks[4].token_type == TokenType::Identifier
    &&& toks[6].token_type == TokenType::Identifier
    &&& toks[7].value == ";"@
}

/// A statement `name = e;` whose expression spans the tokens from 2 to 7 is the
/// whole program.
proof fn lemma_assignment_program(toks: Seq<TokenV>, e: AstV)
    requires
        three_name_assignment(toks),
        expression_spec(toks, 2) == Ok::<(AstV, int), (Seq<char>, int)>((e, 7)),
    ensures
        program_rest(toks, 0, Seq::empty()) == Ok::<(AstV, int), (Seq<char>, int)>(
            (
                AstV::Program(
                    seq![AstV::AssignStmt { left: toks[0].value, right: Box::new(e), line: toks[0].line }],
                ),
                8int,
            ),
        ),
{
    let a = AstV::AssignStmt { left: toks[0].value, right: Box::new(e), line: toks[0].line };
    assert(assign_spec(toks, 0) == Ok::<(AstV, int), (Seq<char>, int)>((a, 8)));
    assert(statement_spec(toks, 0) == Ok::<(AstV, int), (Seq<char>, int)>((a, 8)));
    assert(top_level_spec(toks, 0) == Ok::<(AstV, int), (Seq<char>, int)>((a, 8)));
    assert(Seq::<AstV>::empty().push(a) == seq![a]);
    assert(program_rest(toks, 8, seq![a]) == Ok::<(AstV, int), (Seq<char>, int)>(
        (AstV::Program(seq![a]), 8),
    ));
}

/// `;` ends every operator chain.
proof fn lemma_semicolon_not_operator(v: Seq<char>)
    requires
        v == ";"@,
    ensures
        !is_multiplicative_op(v),
        !is_additive_op(v),
        !is_comparison_op(v),
{
    lemma_operator_texts();
    assert(v.len() == 1 && v[0] == ';');
    assert(v != "+"@ && v != "-"@ && v != ">"@ && v != "<"@ && v != "*"@ && v != "/"@) by {
        if v == "+"@ {
            assert(v[0] == '+');
        }
        if v == "-"@ {
            assert(v[0] == '-');
        }
        if v == ">"@ {
            assert(v[0] == '>');
        }
        if v == "<"@ {
            assert(v[0] == '<');
        }
        if v == "*"@ {
            assert(v[0] == '*');
        }
        if v == "/"@ {
            assert(v[0] == '/');
        }
    }
}

/// `a o b` for names `a`, `b`, operator token `o`.
pub open spec fn name_op(a: TokenV, o: TokenV, b: TokenV) -> AstV {
    AstV::BinaryOp {
        left: Box::new(variable_of(a)),
        op: o.value,
        right: Box::new(variable_of(b)),
        line: o.line,
    }
}

/// Law: `*` and `/` associate to the left. `name = a o1 b o2 c;`, with `o1`,
/// `o2` each `*` or `/`, parses as one assignment of `(a o1 b) o2 c`.
pub proof fn lemma_multiplicative_left_assoc(toks: Seq<TokenV>)
    requires
        three_name_assignment(toks),
        toks[3].value == "*"@ || toks[3].value == "/"@,
        toks[5].value == "*"@ || toks[5].value == "/"@,
    ensures
        program_rest(toks, 0, Seq::empty()) == Ok::<(AstV, int), (Seq<char>, int)>(
            (
                AstV::Program(
                    seq![
                        AstV::AssignStmt {
                            left: toks[0].value,
                            right: Box::new(
                                AstV::BinaryOp {
                                    left: Box::new(name_op(toks[2], toks[3], toks[4])),
                                    op: toks[5].value,
                                    right: Box::new(variable_of(toks[6])),
                                    line: toks[5].line,
                                },
                            ),
                            line: toks[0].line,
                        },
                    ],
                ),
                8int,
            ),
        ),
{
    lemma_operator_texts();
    lemma_semicolon_not_operator(toks[7].value);
    let v1 = variable_of(toks[2]);
    let b1 = name_op(toks[2], toks[3], toks[4]);
    let b2 = AstV::BinaryOp {
        left: Box::new(b1),
        op: toks[5].value,
        right: Box::new(variable_of(toks[6])),
        line: toks[5].line,
    };
    assert(primary_spec(toks, 2) == Ok::<(AstV, int), (Seq<char>, int)>((v1, 3)));
    assert(primary_spec(toks, 4) == Ok::<(AstV, int), (Seq<char>, int)>(
        (variable_of(toks[4]), 5),
    ));
    assert(primary_spec(toks, 6) == Ok::<(AstV, int), (Seq<char>, int)>(
        (variable_of(toks[6]), 7),
    ));
    assert(multiplicative_rest(toks, 7, b2) == Ok::<(AstV, int), (Seq<char>, int)>((b2, 7)));
    assert(multiplicative_rest(toks, 5, b1) == Ok::<(AstV, int), (Seq<char>, int)>((b2, 7)));
    assert(multiplicative_rest(toks, 3, v1) == Ok::<(AstV, int), (Seq<char>, int)>((b2, 7)));
    assert(multiplicative_spec(toks, 2) == Ok::<(AstV, int), (Seq<char>, int)>((b2, 7)));
    assert(additive_rest(toks, 7, b2) == Ok::<(AstV, int), (Seq<char>, int)>((b2, 7)));
    assert(additive_spec(toks, 2) == Ok::<(AstV, int), (Seq<char>, int)>((b2, 7)));
    assert(comparison_rest(toks, 7, b2) == Ok::<(AstV, int), (Seq<char>, int)>((b2, 7)));
    lemma_assignment_program(toks, b2);
}

/// Law: `*` and `/` bind tighter than `+` and `-`. `name = a o1 b o2 c;`, with
/// `o1` one of `+`, `-` and `o2` one of `*`, `/`, parses as one assignment of
/// `a o1 (b o2 c)`.
pub proof fn lemma_multiplicative_binds_tighter(toks: Seq<TokenV>)
    requires
        three_name_assignment(toks),
        toks[3].value == "+"@ || toks[3].value == "-"@,
        toks[5].value == "*"@ || toks[5].value == "/"@,
    ensures
        program_rest(toks, 0, Seq::empty()) == Ok::<(AstV, int), (Seq<char>, int)>(
            (
                AstV::Program(
                    seq![
                        AstV::AssignStmt {
                            left: toks[0].value,
                            right: Box::new(
                                AstV::BinaryOp {
                                    left: Box::new(variable_of(toks[2])),
                                    op: toks[3].value,
                                    right: Box::new(name_op(toks[4], toks[5], toks[6])),
                                    line: toks[3].line,
                                },
                            ),
                            line: toks[0].line,
                        },
                    ],
                ),
                8int,
            ),
        ),
{
    lemma_operator_texts();
    lemma_semicolon_not_operator(toks[7].value);
    lemma_name_term(toks, 2);
    let v1 = variable_of(toks[2]);
    let v2 = variable_of(toks[4]);
    let m = name_op(toks[4], toks[5], toks[6]);
    let b = AstV::BinaryOp {
        left: Box::new(v1),
        op: toks[3].value,
        right: Box::new(m),
        line: toks[3].line,
    };
    assert(primary_spec(toks, 4) == Ok::<(AstV, int), (Seq<char>, int)>((v2, 5)));
    assert(primary_spec(toks, 6) == Ok::<(AstV, int), (Seq<char>, int)>(
        (variable_of(toks[6]), 7),
    ));
    assert(multiplicative_rest(toks, 7, m) == Ok::<(AstV, int), (Seq<char>, int)>((m, 7)));
    assert(multiplicative_rest(toks, 5, v2) == Ok::<(AstV, int), (Seq<char>, int)>((m, 7)));
    assert(multiplicative_spec(toks, 4) == Ok::<(AstV, int), (Seq<char>, int)>((m, 7)));
    assert(additive_rest(toks, 7, b) == Ok::<(AstV, int), (Seq<char>, int)>((b, 7)));
    assert(additive_rest(toks, 3, v1) == Ok::<(AstV, int), (Seq<char>, int)>((b, 7)));
    assert(additive_spec(toks, 2) == Ok::<(AstV, int), (Seq<char>, int)>((b, 7)));
    assert(comparison_rest(toks, 7, b) == Ok::<(AstV, int), (Seq<char>, int)>((b, 7)));
    lemma_assignment_program(toks, b);
}

pub open spec fn parsed(r: Result<AstNode, String>, p: usize) -> Result<(AstV, int), (Seq<char>, int)> {
    match r {
        Ok(n) => Ok((n@, p as int)),
        Err(e) => Err((e@, p as int)),
    }
}

pub open spec fn parsed_init(r: Result<Option<Box<AstNode>>, String>, p: usize) -> Result<
    (Option<Box<AstV>>, int),
    (Seq<char>, int),
> {
    match r {
        Ok(Some(n)) => Ok((Some(Box::new(n@)), p as int)),
        Ok(None) => Ok((None, p as int)),
        Err(e) => Err((e@, p as int)),
    }
}

pub open spec fn expected(r: Result<Token, String>, p: usize) -> Result<(TokenV, int), (Seq<char>, int)> {
    match r {
        Ok(t) => Ok((t@, p as int)),
        Err(e) => Err((e@, p as int)),
    }
}

// ---------------------------------------------------------------------------
// The parser.
/// Whether `v` is one of the comparison operators.
pub fn comparison_op(v: &str) -> (b: bool)
    ensures
        b == is_comparison_op(v@),
{
    str_eq(v, "==") || str_eq(v, "!=") || str_eq(v, ">") || str_eq(v, "<") || str_eq(v, ">=")
        || str_eq(v, "<=")
}

fn has_dot(s: &str) -> (r: bool)
    ensures
        r == s@.contains('.'),
{
    let n = s.unicode_len();
    let mut i: usize = 0;
    while i < n
        invariant
            n == s@.len(),
            i <= n,
            forall|k: int| 0 <= k < i ==> s@[k] != '.',
        decreases n - i,
    {
        if s.get_char(i) == '.' {
            return true;
        }
        i += 1;
    }
    false
}

pub struct Parser {
    tokens: Vec<Token>,
    pos: usize,
}

impl Parser {
    /// The tokens being parsed.
    pub closed spec fn toks(&self) -> Seq<TokenV> {
        token_views(self.tokens@)
    }

    /// Index of the next token to read.
    pub closed spec fn at(&self) -> int {
        self.pos as int
    }

    pub fn new(tokens: Vec<Token>) -> (p: Parser)
        ensures
            p.toks() == token_views(tokens@),
            p.at() == 0,
    {
        Parser { tokens, pos: 0 }
    }

    /// The data type that a type name stands for.
    pub fn string_to_datatype(s: &str) -> (d: DataType)
        ensures
            d == datatype_of(s@),
    {
        if str_eq(s, "int") {
            DataType::Int
        } else if str_eq(s, "float") {
            DataType::Float
        } else if str_eq(s, "void") {
            DataType::Void
        } else if str_eq(s, "char") {
            DataType::Char
        } else {
            DataType::Unknown
        }
    }

    fn at_value(&self, v: &str) -> (b: bool)
        ensures
            b == peek_is(token_views(self.tokens@), self.pos as int, v@),
    {
        self.pos < self.tokens.len() && str_eq(self.tokens[self.pos].value.as_str(), v)
    }

    fn current(&self) -> (t: Token)
        requires
            self.pos < self.tokens.len(),
        ensures
            t@ == token_views(self.tokens@)[self.pos as int],
    {
        self.tokens[self.pos].duplicate()
    }

    fn expect_type(&mut self, tt: TokenType) -> (r: Result<Token, String>)
        requires
            old(self).pos <= old(self).tokens.len(),
        ensures
            final(self).tokens == old(self).tokens,
            old(self).pos <= final(self).pos <= final(self).tokens.len(),
            expected(r, final(self).pos) == expect_type_spec(
                token_views(old(self).tokens@),
                old(self).pos as int,
                tt,
            ),
    {
        if self.pos >= self.tokens.len() {
            return Err(String::from_str("Неожиданный конец файла"));
        }
        let t = self.current();
        if t.token_type == tt {
            self.pos += 1;
            Ok(t)
        } else {
            Err(expected_type_exec(&t, tt))
        }
    }

    fn expect_value(&mut self, v: &str) -> (r: Result<Token, String>)
        requires
            old(self).pos <= old(self).tokens.len(),
        ensures
            final(self).tokens == old(self).tokens,
            old(self).pos <= final(self).pos <= final(self).tokens.len(),
            expected(r, final(self).pos) == expect_value_spec(
                token_views(old(self).tokens@),
                old(self).pos as int,
                v@,
            ),
    {
        if self.pos >= self.tokens.len() {
            return Err(String::from_str("Неожиданный конец файла"));
        }
        let t = self.current();
        if str_eq(t.value.as_str(), v) {
            self.pos += 1;
            Ok(t)
        } else {
            Err(expected_value_exec(&t, v))
        }
    }

    fn parse_primary(&mut self) -> (r: Result<AstNode, String>)
        requires
            old(self).pos <= old(self).tokens.len(),
        ensures
            final(self).tokens == old(self).tokens,
            old(self).pos <= final(self).pos <= final(self).tokens.len(),
            parsed(r, final(self).pos) == primary_spec(
                token_views(old(self).tokens@),
                old(self).pos as int,
            ),
            r is Ok ==> old(self).pos < final(self).pos,
        decreases old(self).tokens@.len() - old(self).pos, 0int,
    {
        if self.pos >= self.tokens.len() {
            return Err(String::from_str("Ожидалось выражение"));
        }
        let t = self.current();
        self.pos += 1;
        if t.token_type == TokenType::Number {
            let dt = if has_dot(t.value.as_str()) {
                DataType::Float
            } else {
                DataType::Int
            };
            Ok(AstNode::Literal { value: t.value, data_type: dt, line: t.line })
        } else if t.token_type == TokenType::StringLiteral {
            Ok(AstNode::Literal { value: t.value, data_type: DataType::Char, line: t.line })
        } else if t.token_type == TokenType::Identifier {
            Ok(AstNode::Variable { name: t.value, line: t.line })
        } else if t.token_type == TokenType::Delimiter && str_eq(t.value.as_str(), "(") {
            let node = self.parse_expression()?;
            self.expect_value(")")?;
            Ok(node)
        } else {
            Err(tagged_exec(&t, "Ожидалось число, идентификатор или '(', найдено '"))
        }
    }

    fn parse_multiplicative(&mut self) -> (r: Result<AstNode, String>)
        requires
            old(self).pos <= old(self).tokens.len(),
        ensures
            final(self).tokens == old(self).tokens,
            old(self).pos <= final(self).pos <= final(self).tokens.len(),
            parsed(r, final(self).pos) == multiplicative_spec(
                token_views(old(self).tokens@),
                old(self).pos as int,
            ),
            r is Ok ==> old(self).pos < final(self).pos,
        decreases old(self).tokens@.len() - old(self).pos, 1int,
    {
        let ghost toks = token_views(self.tokens@);
        let ghost start = self.pos as int;
        let mut left = self.parse_primary()?;
        while self.pos < self.tokens.len() && (self.at_value("*") || self.at_value("/"))
            invariant
                self.tokens == old(self).tokens,
                toks == token_views(self.tokens@),
                start == old(self).pos,
                start < self.pos <= self.tokens.len(),
                multiplicative_spec(toks, start) == multiplicative_rest(toks, self.pos as int, left@),
            decreases self.tokens.len() - self.pos,
        {
            let t = self.current();
            self.pos += 1;
            let right = self.parse_primary()?;
            left = AstNode::BinaryOp {
                left: Box::new(left),
                op: t.value,
                right: Box::new(right),
                line: t.line,
            };
        }
        Ok(left)
    }

    fn parse_additive(&mut self) -> (r: Result<AstNode, String>)
        requires
            old(self).pos <= old(self).tokens.len(),
        ensures
            final(self).tokens == old(self).tokens,
            old(self).pos <= final(self).pos <= final(self).tokens.len(),
            parsed(r, final(self).pos) == additive_spec(
                token_views(old(self).tokens@),
                old(self).pos as int,
            ),
            r is Ok ==> old(self).pos < final(self).pos,
        decreases old(self).tokens@.len() - old(self).pos, 2int,
    {
        let ghost toks = token_views(self.tokens@);
        let ghost start = self.pos as int;
        let mut left = self.parse_multiplicative()?;
        while self.pos < self.tokens.len() && (self.at_value("+") || self.at_value("-"))
            invariant
                self.tokens == old(self).tokens,
                toks == token_views(self.tokens@),
                start == old(self).pos,
                start < self.pos <= self.tokens.len(),
                additive_spec(toks, start) == additive_rest(toks, self.pos as int, left@),
            decreases self.tokens.len() - self.pos,
        {
            let t = self.current();
            self.pos += 1;
            let right = self.parse_multiplicative()?;
            left = AstNode::BinaryOp {
                left: Box::new(left),
                op: t.value,
                right: Box::new(right),
                line: t.line,
            };
        }
        Ok(left)
    }

    fn at_comparison(&self) -> (b: bool)
        ensures
            b == (self.pos < self.tokens.len() && is_comparison_op(
                token_views(self.tokens@)[self.pos as int].value,
            )),
    {
        self.at_value("==") || self.at_value("!=") || self.at_value(">") || self.at_value("<")
            || self.at_value(">=") || self.at_value("<=")
    }

    fn parse_comparison(&mut self) -> (r: Result<AstNode, String>)
        requires
            old(self).pos <= old(self).tokens.len(),
        ensures
            final(self).tokens == old(self).tokens,
            old(self).pos <= final(self).pos <= final(self).tokens.len(),
            parsed(r, final(self).pos) == comparison_spec(
                token_views(old(self).tokens@),
                old(self).pos as int,
            ),
            r is Ok ==> old(self).pos < final(self).pos,
        decreases old(self).tokens@.len() - old(self).pos, 3int,
    {
        let ghost toks = token_views(self.tokens@);
        let ghost start = self.pos as int;
        let mut left = self.parse_additive()?;
        while self.at_comparison()
            invariant
                self.tokens == old(self).tokens,
                toks == token_views(self.tokens@),
                start == old(self).pos,
                start < self.pos <= self.tokens.len(),
                comparison_spec(toks, start) == comparison_rest(toks, self.pos as int, left@),
            decreases self.tokens.len() - self.pos,
        {
            let t = self.current();
            self.pos += 1;
            let right = self.parse_additive()?;
            left = AstNode::BinaryOp {
                left: Box::new(left),
                op: t.value,
                right: Box::new(right),
                line: t.line,
            };
        }
        Ok(left)
    }

    fn parse_expression(&mut self) -> (r: Result<AstNode, String>)
        requires
            old(self).pos <= old(self).tokens.len(),
        ensures
            final(self).tokens == old(self).tokens,
            old(self).pos <= final(self).pos <= final(self).tokens.len(),
            parsed(r, final(self).pos) == expression_spec(
                token_views(old(self).tokens@),
                old(self).pos as int,
            ),
            r is Ok ==> old(self).pos < final(self).pos,
        decreases old(self).tokens@.len() - old(self).pos, 4int,
    {
        self.parse_comparison()
    }

    fn parse_init(&mut self) -> (r: Result<Option<Box<AstNode>>, String>)
        requires
            old(self).pos <= old(self).tokens.len(),
        ensures
            final(self).tokens == old(self).tokens,
            old(self).pos <= final(self).pos <= final(self).tokens.len(),
            parsed_init(r, final(self).pos) == init_spec(
                token_views(old(self).tokens@),
                old(self).pos as int,
            ),
        decreases old(self).tokens@.len() - old(self).pos, 5int,
    {
        if self.at_value("=") {
            self.pos += 1;
            let v = self.parse_expression()?;
            Ok(Some(Box::new(v)))
        } else {
            Ok(None)
        }
    }

    fn parse_decl(&mut self) -> (r: Result<AstNode, String>)
        requires
            old(self).pos < old(self).tokens.len(),
        ensures
            final(self).tokens == old(self).tokens,
            old(self).pos <= final(self).pos <= final(self).tokens.len(),
            parsed(r, final(self).pos) == decl_spec(
                token_views(old(self).tokens@),
                old(self).pos as int,
            ),
            r is Ok ==> old(self).pos < final(self).pos,
        decreases old(self).tokens@.len() - old(self).pos, 4int,
    {
        let t = self.current();
        self.pos += 1;
        let data_type = Self::string_to_datatype(t.value.as_str());
        let name_token = self.expect_type(TokenType::Identifier)?;
        let value = self.parse_init()?;
        self.expect_value(";")?;
        Ok(AstNode::VarDecl { name: name_token.value, data_type, value, line: name_token.line })
    }

    fn parse_return(&mut self) -> (r: Result<AstNode, String>)
        requires
            old(self).pos < old(self).tokens.len(),
        ensures
            final(self).tokens == old(self).tokens,
            old(self).pos <= final(self).pos <= final(self).tokens.len(),
            parsed(r, final(self).pos) == return_spec(
                token_views(old(self).tokens@),
                old(self).pos as int,
            ),
            r is Ok ==> old(self).pos < final(self).pos,
        decreases old(self).tokens@.len() - old(self).pos, 4int,
    {
        let t = self.current();
        self.pos += 1;
        let value = self.parse_expression()?;
        self.expect_value(";")?;
        Ok(AstNode::ReturnStmt { value: Box::new(value), line: t.line })
    }

    fn parse_if(&mut self) -> (r: Result<AstNode, String>)
        requires
            old(self).pos < old(self).tokens.len(),
        ensures
            final(self).tokens == old(self).tokens,
            old(self).pos <= final(self).pos <= final(self).tokens.len(),
            parsed(r, final(self).pos) == if_spec(
                token_views(old(self).tokens@),
                old(self).pos as int,
            ),
            r is Ok ==> old(self).pos < final(self).pos,
        decreases old(self).tokens@.len() - old(self).pos, 4int,
    {
        let t = self.current();
        self.pos += 1;
        self.expect_value("(")?;
        let condition = self.parse_expression()?;
        self.expect_value(")")?;
        let then_block = self.parse_stmt_or_block()?;
        let mut else_block = None;
        if self.at_value("else") {
            self.pos += 1;
            else_block = Some(Box::new(self.parse_stmt_or_block()?));
        }
        Ok(
            AstNode::IfStmt {
                condition: Box::new(condition),
                then_block: Box::new(then_block),
                else_block,
                line: t.line,
            },
        )
    }

    fn parse_while(&mut self) -> (r: Result<AstNode, String>)
        requires
            old(self).pos < old(self).tokens.len(),
        ensures
            final(self).tokens == old(self).tokens,
            old(self).pos <= final(self).pos <= final(self).tokens.len(),
            parsed(r, final(self).pos) == while_spec(
                token_views(old(self).tokens@),
                old(self).pos as int,
            ),
            r is Ok ==> old(self).pos < final(self).pos,
        decreases old(self).tokens@.len() - old(self).pos, 4int,
    {
        let t = self.current();
        self.pos += 1;
        self.expect_value("(")?;
        let condition = self.parse_expression()?;
        self.expect_value(")")?;
        let body = self.parse_stmt_or_block()?;
        Ok(AstNode::WhileStmt { condition: Box::new(condition), body: Box::new(body), line: t.line })
    }

    fn parse_assign(&mut self) -> (r: Result<AstNode, String>)
        requires
            old(self).pos < old(self).tokens.len(),
        ensures
            final(self).tokens == old(self).tokens,
            old(self).pos <= final(self).pos <= final(self).tokens.len(),
            parsed(r, final(self).pos) == assign_spec(
                token_views(old(self).tokens@),
                old(self).pos as int,
            ),
            r is Ok ==> old(self).pos < final(self).pos,
        decreases old(self).tokens@.len() - old(self).pos, 4int,
    {
        let t = self.current();
        self.pos += 1;
        self.expect_value("=")?;
        let expr = self.parse_expression()?;
        self.expect_value(";")?;
        Ok(AstNode::AssignStmt { left: t.value, right: Box::new(expr), line: t.line })
    }

    fn parse_statement(&mut self) -> (r: Result<AstNode, String>)
        requires
            old(self).pos <= old(self).tokens.len(),
        ensures
            final(self).tokens == old(self).tokens,
            old(self).pos <= final(self).pos <= final(self).tokens.len(),
            parsed(r, final(self).pos) == statement_spec(
                token_views(old(self).tokens@),
                old(self).pos as int,
            ),
            r is Ok ==> old(self).pos < final(self).pos,
        decreases old(self).tokens@.len() - old(self).pos, 5int,
    {
        if self.pos >= self.tokens.len() {
            return Err(String::from_str("Неожиданный конец файла"));
        }
        let t = self.current();
        if t.token_type == TokenType::Type {
            self.parse_decl()
        } else if t.token_type == TokenType::Keyword {
            if str_eq(t.value.as_str(), "return") {
                self.parse_return()
            } else if str_eq(t.value.as_str(), "if") {
                self.parse_if()
            } else if str_eq(t.value.as_str(), "while") {
                self.parse_while()
            } else {
                Err(tagged_exec(&t, "Неподдерживаемое ключевое слово '"))
            }
        } else if t.token_type == TokenType::Identifier {
            self.parse_assign()
        } else {
            Err(tagged_exec(&t, "Неожиданный токен '"))
        }
    }

    fn parse_stmt_or_block(&mut self) -> (r: Result<AstNode, String>)
        requires
            old(self).pos <= old(self).tokens.len(),
        ensures
            final(self).tokens == old(self).tokens,
            old(self).pos <= final(self).pos <= final(self).tokens.len(),
            parsed(r, final(self).pos) == stmt_or_block_spec(
                token_views(old(self).tokens@),
                old(self).pos as int,
            ),
            r is Ok ==> old(self).pos < final(self).pos,
        decreases old(self).tokens@.len() - old(self).pos, 7int,
    {
        if self.at_value("{") {
            return self.parse_block();
        }
        self.parse_statement()
    }

    fn parse_block(&mut self) -> (r: Result<AstNode, String>)
        requires
            old(self).pos <= old(self).tokens.len(),
        ensures
            final(self).tokens == old(self).tokens,
            old(self).pos <= final(self).pos <= final(self).tokens.len(),
            parsed(r, final(self).pos) == block_spec(
                token_views(old(self).tokens@),
                old(self).pos as int,
            ),
            r is Ok ==> old(self).pos < final(self).pos,
        decreases old(self).tokens@.len() - old(self).pos, 6int,
    {
        let ghost toks = token_views(self.tokens@);
        let ghost start = self.pos as int;
        self.expect_value("{")?;
        let mut statements: Vec<AstNode> = Vec::new();
        while self.pos < self.tokens.len() && !self.at_value("}")
            invariant
                self.tokens == old(self).tokens,
                toks == token_views(self.tokens@),
                start == old(self).pos,
                start < self.pos <= self.tokens.len(),
                block_spec(toks, start) == block_rest(
                    toks,
                    self.pos as int,
                    AstNode::views(statements@),
                ),
            decreases self.tokens.len() - self.pos,
        {
            let s = self.parse_statement()?;
            proof {
                AstNode::lemma_views_push(statements@, s);
            }
            statements.push(s);
        }
        self.expect_value("}")?;
        Ok(AstNode::Block(statements))
    }

    fn parse_function(&mut self, name: String, return_type: DataType, line: usize) -> (r: Result<
        AstNode,
        String,
    >)
        requires
            old(self).pos <= old(self).tokens.len(),
        ensures
            final(self).tokens == old(self).tokens,
            old(self).pos <= final(self).pos <= final(self).tokens.len(),
            parsed(r, final(self).pos) == function_spec(
                token_views(old(self).tokens@),
                old(self).pos as int,
                name@,
                return_type,
                line,
            ),
            r is Ok ==> old(self).pos < final(self).pos,
        decreases old(self).tokens@.len() - old(self).pos, 6int,
    {
        self.expect_value("(")?;
        self.expect_value(")")?;
        let body = self.parse_block()?;
        Ok(AstNode::Function { name, return_type, body: Box::new(body), line })
    }

    fn parse_top_level(&mut self) -> (r: Result<AstNode, String>)
        requires
            old(self).pos <= old(self).tokens.len(),
        ensures
            final(self).tokens == old(self).tokens,
            old(self).pos <= final(self).pos <= final(self).tokens.len(),
            parsed(r, final(self).pos) == top_level_spec(
                token_views(old(self).tokens@),
                old(self).pos as int,
            ),
            r is Ok ==> old(self).pos < final(self).pos,
        decreases old(self).tokens@.len() - old(self).pos, 6int,
    {
        if self.pos < self.tokens.len() && self.tokens[self.pos].token_type == TokenType::Type {
            let type_token = self.current();
            self.pos += 1;
            let name_token = self.expect_type(TokenType::Identifier)?;
            let data_type = Self::string_to_datatype(type_token.value.as_str());
            if self.at_value("(") {
                return self.parse_function(name_token.value, data_type, type_token.line);
            }
            let value = self.parse_init()?;
            self.expect_value(";")?;
            return Ok(
                AstNode::VarDecl {
                    name: name_token.value,
                    data_type,
                    value,
                    line: name_token.line,
                },
            );
        }
        self.parse_statement()
    }

    /// Parses top-level items until the tokens run out.
    pub fn parse_program(&mut self) -> (r: Result<AstNode, String>)
        requires
            old(self).at() <= old(self).toks().len(),
        ensures
            final(self).toks() == old(self).toks(),
            parsed(r, final(self).at() as usize) == program_rest(
                old(self).toks(),
                old(self).at(),
                Seq::empty(),
            ),
            r is Ok ==> final(self).at() == final(self).toks().len(),
    {
        let ghost toks = token_views(self.tokens@);
        let ghost start = self.pos as int;
        let mut nodes: Vec<AstNode> = Vec::new();
        while self.pos < self.tokens.len()
            invariant
                self.tokens == old(self).tokens,
                toks == token_views(self.tokens@),
                start == old(self).pos,
                start <= self.pos <= self.tokens.len(),
                program_rest(toks, start, Seq::empty()) == program_rest(
                    toks,
                    self.pos as int,
                    AstNode::views(nodes@),
                ),
            decreases self.tokens.len() - self.pos,
        {
            let n = self.parse_top_level()?;
            proof {
                AstNode::lemma_views_push(nodes@, n);
            }
            nodes.push(n);
        }
        Ok(AstNode::Program(nodes))
    }
}

} // verus!
