//! Semantic checks over the typed syntax tree, and the triads that encode it.
use vstd::prelude::*;
use vstd::string::StringExecFns;
use crate::text::{
    lex_less, lex_less_exec, lemma_lex_asymmetric, lemma_lex_irreflexive, lemma_lex_total,
    lemma_lex_transitive, pad, push_padded, chars_of, decimal, find_from, find_from_exec, lemma_decimal_digits, lemma_find_from,
    lemma_find_from_first, lemma_split_from_len, occurs_at, push_chars, push_decimal, push_str,
    split_chars, split_from, str_eq, subrange_chars, trim_parens, trim_parens_chars, views,
    skip_parens, back_parens,
};
use crate::compiler::ast::{AstNode, AstV, DataType, data_type_name};
use crate::text::spaces;
use crate::compiler::parser::{comparison_op, is_comparison_op};

verus! {

#[derive(Debug, Clone)]
pub struct SymbolInfo {
    pub data_type: DataType,
    pub is_initialized: bool,
    pub declared_at_line: usize,
    pub scope: String,
}

/// What the symbol table records of a variable.
pub struct SymV {
    pub data_type: DataType,
    pub is_initialized: bool,
    pub declared_at_line: usize,
    pub scope: Seq<char>,
}

impl View for SymbolInfo {
    type V = SymV;

    open spec fn view(&self) -> SymV {
        SymV {
            data_type: self.data_type,
            is_initialized: self.is_initialized,
            declared_at_line: self.declared_at_line,
            scope: self.scope@,
        }
    }
}

/// An entry of the symbol table: a name and what is known of it.
pub struct Symbol {
    pub name: String,
    pub info: SymbolInfo,
}

/// The analyzer's state: symbols by name, errors and triads in order, the current scope.
pub struct SemState {
    pub symbols: Map<Seq<char>, SymV>,
    pub errors: Seq<Seq<char>>,
    pub triads: Seq<Seq<char>>,
    pub scope: Seq<char>,
}

pub open spec fn strs(v: Seq<String>) -> Seq<Seq<char>> {
    v.map_values(|s: String| s@)
}

pub open spec fn sym_map(v: Seq<Symbol>) -> Map<Seq<char>, SymV>
    decreases v.len(),
{
    if v.len() == 0 {
        Map::empty()
    } else {
        sym_map(v.drop_last()).insert(v.last().name@, v.last().info@)
    }
}

pub open spec fn names_unique(v: Seq<Symbol>) -> bool {
    forall|i: int, j: int| 0 <= i < j < v.len() ==> v[i].name@ != v[j].name@
}

pub proof fn lemma_sym_map(v: Seq<Symbol>)
    requires
        names_unique(v),
    ensures
        forall|k: Seq<char>|
            sym_map(v).contains_key(k) <==> exists|i: int| 0 <= i < v.len() && v[i].name@ == k,
        forall|i: int| 0 <= i < v.len() ==> sym_map(v)[#[trigger] v[i].name@] == v[i].info@,
    decreases v.len(),
{
    if v.len() > 0 {
        let w = v.drop_last();
        lemma_sym_map(w);
        assert forall|k: Seq<char>| sym_map(v).contains_key(k) implies exists|i: int|
            0 <= i < v.len() && v[i].name@ == k by {
            if k != v.last().name@ {
                assert(sym_map(w).contains_key(k));
                assert(exists|i: int| 0 <= i < w.len() && w[i].name@ == k);
                let i = choose|i: int| 0 <= i < w.len() && w[i].name@ == k;
                assert(v[i] == w[i]);
                assert(0 <= i < v.len() && v[i].name@ == k);
            } else {
                assert(v[v.len() - 1].name@ == k);
            }
        }
        assert forall|k: Seq<char>| (exists|i: int| 0 <= i < v.len() && v[i].name@ == k) implies sym_map(
            v,
        ).contains_key(k) by {
            let i = choose|i: int| 0 <= i < v.len() && v[i].name@ == k;
            if i < v.len() - 1 {
                assert(w[i] == v[i]);
                assert(sym_map(w).contains_key(k));
            }
        }
        assert forall|i: int| 0 <= i < v.len() implies sym_map(v)[#[trigger] v[i].name@]
            == v[i].info@ by {
            if i < v.len() - 1 {
                assert(v[i] == w[i]);
            }
        }
    }
}

pub proof fn lemma_sym_map_update(v: Seq<Symbol>, i: int, s: Symbol)
    requires
        names_unique(v),
        0 <= i < v.len(),
        s.name@ == v[i].name@,
    ensures
        sym_map(v.update(i, s)) == sym_map(v).insert(s.name@, s.info@),
        names_unique(v.update(i, s)),
    decreases v.len(),
{
    let u = v.update(i, s);
    assert(names_unique(u)) by {
        assert forall|a: int, b: int| 0 <= a < b < u.len() implies u[a].name@ != u[b].name@ by {
            assert(v[a].name@ != v[b].name@);
        }
    }
    if i == v.len() - 1 {
        assert(u.drop_last() == v.drop_last());
        assert(sym_map(u) =~= sym_map(v).insert(s.name@, s.info@));
    } else {
        assert(u.drop_last() == v.drop_last().update(i, s));
        lemma_sym_map_update(v.drop_last(), i, s);
        assert(v.last().name@ != s.name@);
        assert(sym_map(u) =~= sym_map(v).insert(s.name@, s.info@));
    }
}

// ---------------------------------------------------------------------------
// Triads.
/// A triad as it is listed: `n: (op, a1, a2)`.
pub open spec fn triad_text(n: nat, op: Seq<char>, a1: Seq<char>, a2: Seq<char>) -> Seq<char> {
    decimal(n) + ": ("@ + op + ", "@ + a1 + ", "@ + a2 + ")"@
}

/// The reference to triad `n`: `^n`.
pub open spec fn triad_ref(n: nat) -> Seq<char> {
    "^"@ + decimal(n)
}

/// The head of triad `n`'s listing: `n: (`.
pub open spec fn triad_head(n: nat) -> Seq<char> {
    decimal(n) + ": ("@
}

pub open spec fn starts_with(s: Seq<char>, p: Seq<char>) -> bool {
    p.len() <= s.len() && s.subrange(0, p.len() as int) == p
}

/// Each listed triad begins with its own number, counting from 1.
pub open spec fn numbered(ts: Seq<Seq<char>>) -> bool {
    forall|i: int| 0 <= i < ts.len() ==> starts_with(#[trigger] ts[i], triad_head((i + 1) as nat))
}

pub proof fn lemma_triad_text_head(n: nat, op: Seq<char>, a1: Seq<char>, a2: Seq<char>)
    ensures
        starts_with(triad_text(n, op, a1, a2), triad_head(n)),
{
    let h = triad_head(n);
    let t = triad_text(n, op, a1, a2);
    assert(t =~= h + (op + ", "@ + a1 + ", "@ + a2 + ")"@));
    assert(t.subrange(0, h.len() as int) =~= h);
}

pub open spec fn add_triad_spec(st: SemState, op: Seq<char>, a1: Seq<char>, a2: Seq<char>) -> (
    SemState,
    Seq<char>,
) {
    let n = (st.triads.len() + 1) as nat;
    (
        SemState { triads: st.triads.push(triad_text(n, op, a1, a2)), ..st },
        triad_ref(n),
    )
}

/// The fields of a listed triad: the text after its first `": "`, without the
/// parentheses at its ends, split at `", "`.
pub open spec fn triad_fields(line: Seq<char>) -> Seq<Seq<char>> {
    let j = find_from(line, ": "@, 0);
    split_from(trim_parens(line.subrange(j + 2, line.len() as int)), ", "@, 0)
}

/// Whether field `arg_num` of `line` can be replaced without a panic.
pub open spec fn patchable(line: Seq<char>, arg_num: nat) -> bool {
    &&& find_from(line, ": "@, 0) >= 0
    &&& arg_num < triad_fields(line).len() ==> triad_fields(line).len() >= 3
}

/// `line` relisted as triad `idx` with field `arg_num` replaced by `v`.
pub open spec fn patch_line(line: Seq<char>, idx: nat, arg_num: nat, v: Seq<char>) -> Seq<char> {
    let f = triad_fields(line);
    if arg_num < f.len() {
        let g = f.update(arg_num as int, v);
        triad_text(idx, g[0], g[1], g[2])
    } else {
        line
    }
}

pub open spec fn patch_spec(st: SemState, idx: nat, arg_num: nat, v: Seq<char>) -> SemState {
    if 1 <= idx <= st.triads.len() {
        SemState {
            triads: st.triads.update(idx - 1, patch_line(st.triads[idx - 1], idx, arg_num, v)),
            ..st
        }
    } else {
        st
    }
}

/// Triad `n` with operator `op` (free of `", "`, not starting with a parenthesis)
/// and last field `a2` (not ending with one) has at least three fields.
pub proof fn lemma_triad_fields(n: nat, op: Seq<char>, a1: Seq<char>, a2: Seq<char>)
    requires
        op.len() > 0,
        a2.len() > 0,
        op[0] != '(' && op[0] != ')',
        a2.last() != '(' && a2.last() != ')',
        forall|k: int| 0 <= k < op.len() ==> op[k] != ',',
    ensures
        patchable(triad_text(n, op, a1, a2), 0),
        triad_fields(triad_text(n, op, a1, a2)).len() >= 3,
{
    let line = triad_text(n, op, a1, a2);
    let d = decimal(n);
    lemma_decimal_digits(n);
    reveal_strlit(": (");
    reveal_strlit(": ");
    reveal_strlit(", ");
    reveal_strlit(")");
    assert(occurs_at(line, ": "@, d.len() as int)) by {
        assert(line.subrange(d.len() as int, d.len() + 2int) =~= ": "@);
    }
    assert forall|k: int| 0 <= k < d.len() implies !occurs_at(line, ": "@, k) by {
        assert(line[k] == d[k]);
        if occurs_at(line, ": "@, k) {
            assert(line.subrange(k, k + 2)[0] == line[k]);
        }
    }
    lemma_find_from_first(line, ": "@, 0, d.len() as int);
    let rest = line.subrange(d.len() + 2int, line.len() as int);
    assert(rest =~= seq!['('] + op + ", "@ + a1 + ", "@ + a2 + seq![')']);
    let content = op + ", "@ + a1 + ", "@ + a2;
    // the parentheses at the ends
    assert(skip_parens(rest, 1) == 1);
    assert(skip_parens(rest, 0) == 1);
    assert(back_parens(rest, rest.len() - 1) == rest.len() - 1);
    assert(back_parens(rest, rest.len() as int) == rest.len() - 1);
    assert(trim_parens(rest) =~= content);
    // the first separator follows the operator
    assert(occurs_at(content, ", "@, op.len() as int)) by {
        assert(content.subrange(op.len() as int, op.len() + 2int) =~= ", "@);
    }
    assert forall|k: int| 0 <= k < op.len() implies !occurs_at(content, ", "@, k) by {
        assert(content[k] == op[k]);
        if occurs_at(content, ", "@, k) {
            assert(content.subrange(k, k + 2)[0] == content[k]);
        }
    }
    lemma_find_from_first(content, ", "@, 0, op.len() as int);
    let k2: int = op.len() + 2int + a1.len();
    assert(occurs_at(content, ", "@, k2)) by {
        assert(content.subrange(k2, k2 + 2) =~= ", "@);
    }
    lemma_split_from_len(content, ", "@, op.len() + 2int);
}

// ---------------------------------------------------------------------------
// Messages.
pub open spec fn line_tag(line: usize) -> Seq<char> {
    "[Стр "@ + decimal(line as nat) + "] Ошибка: "@
}

pub open spec fn redeclared_msg(line: usize, name: Seq<char>) -> Seq<char> {
    line_tag(line) + "Повторное объявление переменной '"@ + name + "'"@
}

pub open spec fn init_mismatch_msg(line: usize, name: Seq<char>, want: DataType, got: DataType) -> Seq<
    char,
> {
    line_tag(line) + "Несоответствие типов при инициализации '"@ + name + "' (ожидалось "@
        + data_type_name(want) + ", получено "@ + data_type_name(got) + ")"@
}

pub open spec fn assign_mismatch_msg(line: usize, name: Seq<char>, want: DataType, got: DataType) -> Seq<
    char,
> {
    line_tag(line) + "Несоответствие типов при присваивании '"@ + name + "' (ожидалось "@
        + data_type_name(want) + ", получено "@ + data_type_name(got) + ")"@
}

pub open spec fn undeclared_msg(line: usize, name: Seq<char>) -> Seq<char> {
    line_tag(line) + "Использование необъявленной переменной '"@ + name + "'"@
}

pub open spec fn uninitialized_msg(line: usize, name: Seq<char>) -> Seq<char> {
    line_tag(line) + "Использование неинициализированной переменной '"@ + name + "'"@
}

pub open spec fn op_mismatch_msg(line: usize, op: Seq<char>, lt: DataType, rt: DataType) -> Seq<char> {
    line_tag(line) + "Несоответствие типов в операции '"@ + op + "' ("@ + data_type_name(lt)
        + " и "@ + data_type_name(rt) + ")"@
}

fn line_tag_exec(line: usize) -> (s: String)
    ensures
        s@ == line_tag(line),
{
    let mut s = String::from_str("[Стр ");
    push_decimal(&mut s, line);
    push_str(&mut s, "] Ошибка: ");
    s
}

/// `line_tag(line) + body + name + "'"`.
fn named_msg(line: usize, body: &str, name: &str) -> (s: String)
    ensures
        s@ == line_tag(line) + body@ + name@ + "'"@,
{
    let mut s = line_tag_exec(line);
    push_str(&mut s, body);
    push_str(&mut s, name);
    push_str(&mut s, "'");
    s
}

/// `line_tag(line) + body + name + "' (ожидалось " + want + ", получено " + got + ")"`.
fn mismatch_msg(line: usize, body: &str, name: &str, want: DataType, got: DataType) -> (s: String)
    ensures
        s@ == line_tag(line) + body@ + name@ + "' (ожидалось "@ + data_type_name(want)
            + ", получено "@ + data_type_name(got) + ")"@,
{
    let mut s = line_tag_exec(line);
    push_str(&mut s, body);
    push_str(&mut s, name);
    push_str(&mut s, "' (ожидалось ");
    push_str(&mut s, want.name());
    push_str(&mut s, ", получено ");
    push_str(&mut s, got.name());
    push_str(&mut s, ")");
    s
}

fn op_mismatch_exec(line: usize, op: &str, lt: DataType, rt: DataType) -> (s: String)
    ensures
        s@ == op_mismatch_msg(line, op@, lt, rt),
{
    let mut s = line_tag_exec(line);
    push_str(&mut s, "Несоответствие типов в операции '");
    push_str(&mut s, op);
    push_str(&mut s, "' (");
    push_str(&mut s, lt.name());
    push_str(&mut s, " и ");
    push_str(&mut s, rt.name());
    push_str(&mut s, ")");
    s
}

fn decimal_string(n: usize) -> (s: String)
    ensures
        s@ == decimal(n as nat),
{
    let mut s = String::new();
    push_decimal(&mut s, n);
    s
}

// ---------------------------------------------------------------------------
// The meaning of analysis.
/// The type of an expression under `syms`: literals their own, variables their
/// declared one, comparisons `Bool`, arithmetic the common type of its operands.
pub open spec fn expr_type(syms: Map<Seq<char>, SymV>, n: AstV) -> DataType
    decreases n,
{
    match n {
        AstV::Literal { data_type, .. } => data_type,
        AstV::Variable { name, .. } => if syms.contains_key(name) {
            syms[name].data_type
        } else {
            DataType::Unknown
        },
        AstV::BinaryOp { left, op, right, .. } => if is_comparison_op(op) {
            DataType::Bool
        } else {
            let lt = expr_type(syms, *left);
            let rt = expr_type(syms, *right);
            if lt == rt {
                lt
            } else {
                DataType::Unknown
            }
        },
        _ => DataType::Unknown,
    }
}

pub open spec fn with_error(st: SemState, e: Seq<char>) -> SemState {
    SemState { errors: st.errors.push(e), ..st }
}

/// Analysis of the first `k` nodes of `ns`, in order.
pub open spec fn sem_seq(st: SemState, ns: Seq<AstV>, k: int) -> SemState
    decreases ns, k,
{
    if k <= 0 || k > ns.len() {
        st
    } else {
        sem(sem_seq(st, ns, k - 1), ns[k - 1]).0
    }
}

/// The state after analyzing `n` from `st`, and the operand that names `n`'s value.
pub open spec fn sem(st: SemState, n: AstV) -> (SemState, Seq<char>)
    decreases n, 0int,
{
    match n {
        AstV::Program(ns) => (sem_seq(st, ns, ns.len() as int), Seq::empty()),
        AstV::Block(ns) => (sem_seq(st, ns, ns.len() as int), Seq::empty()),
        AstV::Function { name, body, .. } => {
            let st1 = SemState { scope: name, ..st };
            let st2 = sem(st1, *body).0;
            (SemState { scope: st.scope, ..st2 }, Seq::empty())
        },
        AstV::VarDecl { name, data_type, value, line } => if st.symbols.contains_key(name) {
            (with_error(st, redeclared_msg(line, name)), Seq::empty())
        } else {
            match value {
                None => (
                    SemState {
                        symbols: st.symbols.insert(
                            name,
                            SymV {
                                data_type: data_type,
                                is_initialized: false,
                                declared_at_line: line,
                                scope: st.scope,
                            },
                        ),
                        ..st
                    },
                    Seq::empty(),
                ),
                Some(v) => {
                    let vt = expr_type(st.symbols, *v);
                    let st1 = if vt != DataType::Unknown && data_type != vt {
                        with_error(st, init_mismatch_msg(line, name, data_type, vt))
                    } else {
                        st
                    };
                    let (st2, init_val) = sem(st1, *v);
                    let st3 = SemState {
                        symbols: st2.symbols.insert(
                            name,
                            SymV {
                                data_type: data_type,
                                is_initialized: true,
                                declared_at_line: line,
                                scope: st2.scope,
                            },
                        ),
                        ..st2
                    };
                    (add_triad_spec(st3, ":="@, name, init_val).0, Seq::empty())
                },
            }
        },
        AstV::AssignStmt { left, right, line } => {
            let (st1, rr) = sem(st, *right);
            let rt = expr_type(st1.symbols, *right);
            if st1.symbols.contains_key(left) {
                let info = st1.symbols[left];
                let st2 = if rt != DataType::Unknown && info.data_type != rt {
                    with_error(st1, assign_mismatch_msg(line, left, info.data_type, rt))
                } else {
                    st1
                };
                let st3 = SemState {
                    symbols: st2.symbols.insert(left, SymV { is_initialized: true, ..info }),
                    ..st2
                };
                add_triad_spec(st3, ":="@, left, rr)
            } else {
                (with_error(st1, undeclared_msg(line, left)), Seq::empty())
            }
        },
        AstV::IfStmt { condition, then_block, else_block, .. } => {
            let (st1, cr) = sem(st, *condition);
            let jf = (st1.triads.len() + 1) as nat;
            let st2 = add_triad_spec(st1, "JF"@, cr, "0"@).0;
            let st3 = sem(st2, *then_block).0;
            match else_block {
                Some(e) => {
                    let jmp = (st3.triads.len() + 1) as nat;
                    let st4 = add_triad_spec(st3, "JMP"@, "0"@, "_"@).0;
                    let st5 = patch_spec(st4, jf, 2, decimal((st4.triads.len() + 1) as nat));
                    let st6 = sem(st5, *e).0;
                    (
                        patch_spec(st6, jmp, 1, decimal((st6.triads.len() + 1) as nat)),
                        Seq::empty(),
                    )
                },
                None => (patch_spec(st3, jf, 2, decimal((st3.triads.len() + 1) as nat)), Seq::empty()),
            }
        },
        AstV::WhileStmt { condition, body, .. } => {
            let loop_start = (st.triads.len() + 1) as nat;
            let (st1, cr) = sem(st, *condition);
            let jf = (st1.triads.len() + 1) as nat;
            let st2 = add_triad_spec(st1, "JF"@, cr, "0"@).0;
            let st3 = sem(st2, *body).0;
            let st4 = add_triad_spec(st3, "JMP"@, decimal(loop_start), "_"@).0;
            (patch_spec(st4, jf, 2, decimal((st4.triads.len() + 1) as nat)), Seq::empty())
        },
        AstV::ReturnStmt { value, .. } => {
            let (st1, r) = sem(st, *value);
            add_triad_spec(st1, "RET"@, r, "_"@)
        },
        AstV::BinaryOp { left, op, right, line } => {
            let (st1, lr) = sem(st, *left);
            let (st2, rr) = sem(st1, *right);
            let lt = expr_type(st2.symbols, *left);
            let rt = expr_type(st2.symbols, *right);
            let st3 = if lt != DataType::Unknown && rt != DataType::Unknown && lt != rt {
                with_error(st2, op_mismatch_msg(line, op, lt, rt))
            } else {
                st2
            };
            add_triad_spec(st3, op, lr, rr)
        },
        AstV::Literal { value, .. } => (st, value),
        AstV::Variable { name, line } => if st.symbols.contains_key(name) {
            if !st.symbols[name].is_initialized {
                (with_error(st, uninitialized_msg(line, name)), name)
            } else {
                (st, name)
            }
        } else {
            (with_error(st, undeclared_msg(line, name)), name)
        },
    }
}

/// Every symbol of `a` is in `b` with the same type, line and scope, and stays
/// initialized if it was.
pub open spec fn keeps_symbols(a: Map<Seq<char>, SymV>, b: Map<Seq<char>, SymV>) -> bool {
    forall|k: Seq<char>|
        #[trigger] a.contains_key(k) ==> b.contains_key(k) && b[k].data_type == a[k].data_type
            && b[k].declared_at_line == a[k].declared_at_line && b[k].scope == a[k].scope && (
        a[k].is_initialized ==> b[k].is_initialized)
}

proof fn lemma_keeps_trans(
    a: Map<Seq<char>, SymV>,
    b: Map<Seq<char>, SymV>,
    c: Map<Seq<char>, SymV>,
)
    requires
        keeps_symbols(a, b),
        keeps_symbols(b, c),
    ensures
        keeps_symbols(a, c),
{
    assert forall|k: Seq<char>| #[trigger] a.contains_key(k) implies c.contains_key(k)
        && c[k].data_type == a[k].data_type && c[k].declared_at_line == a[k].declared_at_line
        && c[k].scope == a[k].scope && (a[k].is_initialized ==> c[k].is_initialized) by {
        assert(b.contains_key(k));
    }
}

proof fn lemma_sem_seq_keeps(st: SemState, ns: Seq<AstV>, k: int)
    ensures
        keeps_symbols(st.symbols, sem_seq(st, ns, k).symbols),
    decreases ns, k,
{
    if k <= 0 || k > ns.len() {
    } else {
        lemma_sem_seq_keeps(st, ns, k - 1);
        let mid = sem_seq(st, ns, k - 1);
        lemma_sem_keeps(mid, ns[k - 1]);
        lemma_keeps_trans(st.symbols, mid.symbols, sem(mid, ns[k - 1]).0.symbols);
    }
}

/// An assignment names its triad exactly when its target is declared.
proof fn lemma_assign_operand(st: SemState, n: AstV)
    requires
        n is AssignStmt,
    ensures
        n matches AstV::AssignStmt { left, .. } ==> (sem(st, n).0.symbols.contains_key(left) <==> sem(
            st,
            n,
        ).1 == triad_ref(sem(st, n).0.triads.len())),
{
    if let AstV::AssignStmt { left, right, line } = n {
        let st1 = sem(st, *right).0;
        if !st1.symbols.contains_key(left) {
            reveal_strlit("^");
            assert(sem(st, n).1 == Seq::<char>::empty());
            assert(triad_ref(sem(st, n).0.triads.len()).len() > 0);
        }
    }
}

proof fn lemma_extends_trans(a: Seq<Seq<char>>, b: Seq<Seq<char>>, c: Seq<Seq<char>>)
    requires
        extends(a, b),
        extends(b, c),
    ensures
        extends(a, c),
{
    assert forall|i: int| 0 <= i < a.len() implies #[trigger] c[i] == a[i] by {
        assert(b[i] == a[i]);
    }
}

proof fn lemma_sem_seq_errors(st: SemState, ns: Seq<AstV>, k: int)
    ensures
        extends(st.errors, sem_seq(st, ns, k).errors),
    decreases ns, k,
{
    if k <= 0 || k > ns.len() {
    } else {
        lemma_sem_seq_errors(st, ns, k - 1);
        let mid = sem_seq(st, ns, k - 1);
        lemma_sem_errors(mid, ns[k - 1]);
        lemma_extends_trans(st.errors, mid.errors, sem(mid, ns[k - 1]).0.errors);
    }
}

/// Analysis only appends errors: those found before stay, in order.
pub proof fn lemma_sem_errors(st: SemState, n: AstV)
    ensures
        extends(st.errors, sem(st, n).0.errors),
    decreases n, 0int,
{
    match n {
        AstV::Program(ns) => {
            lemma_sem_seq_errors(st, ns, ns.len() as int);
        },
        AstV::Block(ns) => {
            lemma_sem_seq_errors(st, ns, ns.len() as int);
        },
        AstV::Function { name, body, .. } => {
            let st1 = SemState { scope: name, ..st };
            lemma_sem_errors(st1, *body);
        },
        AstV::VarDecl { name, data_type, value, line } => {
            if !st.symbols.contains_key(name) {
                if let Some(v) = value {
                    let vt = expr_type(st.symbols, *v);
                    let st1 = if vt != DataType::Unknown && data_type != vt {
                        with_error(st, init_mismatch_msg(line, name, data_type, vt))
                    } else {
                        st
                    };
                    lemma_sem_errors(st1, *v);
                    lemma_extends_trans(st.errors, st1.errors, sem(st1, *v).0.errors);
                }
            }
        },
        AstV::AssignStmt { left, right, line } => {
            lemma_sem_errors(st, *right);
            let st1 = sem(st, *right).0;
            lemma_extends_trans(st.errors, st1.errors, sem(st, n).0.errors);
        },
        AstV::IfStmt { condition, then_block, else_block, .. } => {
            lemma_sem_errors(st, *condition);
            let st1 = sem(st, *condition).0;
            let st2 = add_triad_spec(st1, "JF"@, sem(st, *condition).1, "0"@).0;
            lemma_sem_errors(st2, *then_block);
            let st3 = sem(st2, *then_block).0;
            lemma_extends_trans(st.errors, st1.errors, st3.errors);
            if let Some(e) = else_block {
                let jf = (st1.triads.len() + 1) as nat;
                let st4 = add_triad_spec(st3, "JMP"@, "0"@, "_"@).0;
                let st5 = patch_spec(st4, jf, 2, decimal((st4.triads.len() + 1) as nat));
                lemma_sem_errors(st5, *e);
                lemma_extends_trans(st.errors, st3.errors, sem(st5, *e).0.errors);
            }
        },
        AstV::WhileStmt { condition, body, .. } => {
            lemma_sem_errors(st, *condition);
            let st1 = sem(st, *condition).0;
            let st2 = add_triad_spec(st1, "JF"@, sem(st, *condition).1, "0"@).0;
            lemma_sem_errors(st2, *body);
            lemma_extends_trans(st.errors, st1.errors, sem(st2, *body).0.errors);
        },
        AstV::ReturnStmt { value, .. } => {
            lemma_sem_errors(st, *value);
        },
        AstV::BinaryOp { left, right, .. } => {
            lemma_sem_errors(st, *left);
            let st1 = sem(st, *left).0;
            lemma_sem_errors(st1, *right);
            let st2 = sem(st1, *right).0;
            lemma_extends_trans(st.errors, st1.errors, st2.errors);
            lemma_extends_trans(st.errors, st2.errors, sem(st, n).0.errors);
        },
        _ => {},
    }
}

/// Law: an arithmetic operation on two operands of one type has that type;
/// on operands of two different types its type is unknown.
pub proof fn lemma_arithmetic_type(
    syms: Map<Seq<char>, SymV>,
    left: AstV,
    op: Seq<char>,
    right: AstV,
    line: usize,
)
    requires
        op == "+"@ || op == "-"@ || op == "*"@ || op == "/"@,
    ensures
        expr_type(syms, left) == expr_type(syms, right) ==> expr_type(
            syms,
            AstV::BinaryOp { left: Box::new(left), op: op, right: Box::new(right), line: line },
        ) == expr_type(syms, left),
        expr_type(syms, left) != expr_type(syms, right) ==> expr_type(
            syms,
            AstV::BinaryOp { left: Box::new(left), op: op, right: Box::new(right), line: line },
        ) == DataType::Unknown,
{
    reveal_strlit("+");
    reveal_strlit("-");
    reveal_strlit("*");
    reveal_strlit("/");
    reveal_strlit("==");
    reveal_strlit("!=");
    reveal_strlit(">");
    reveal_strlit("<");
    reveal_strlit(">=");
    reveal_strlit("<=");
    assert("+"@ =~= seq!['+']);
    assert("-"@ =~= seq!['-']);
    assert("*"@ =~= seq!['*']);
    assert("/"@ =~= seq!['/']);
    assert(">"@ =~= seq!['>']);
    assert("<"@ =~= seq!['<']);
    assert("=="@.len() == 2 && "!="@.len() == 2 && ">="@.len() == 2 && "<="@.len() == 2);
    assert(op.len() == 1);
    assert(op[0] != '>' && op[0] != '<');
    assert(!is_comparison_op(op));
}

/// Law: a comparison has type `Bool`, whatever its operands.
pub proof fn lemma_comparison_type(
    syms: Map<Seq<char>, SymV>,
    left: AstV,
    op: Seq<char>,
    right: AstV,
    line: usize,
)
    requires
        op == "=="@ || op == "!="@ || op == ">"@ || op == "<"@ || op == ">="@ || op == "<="@,
    ensures
        expr_type(
            syms,
            AstV::BinaryOp { left: Box::new(left), op: op, right: Box::new(right), line: line },
        ) == DataType::Bool,
{
}

/// Law: declaring a new name with an initializer whose type is known and not
/// the declared one reports the mismatch first, before anything the
/// initializer reports.
pub proof fn lemma_init_mismatch(
    st: SemState,
    name: Seq<char>,
    data_type: DataType,
    value: AstV,
    line: usize,
)
    requires
        !st.symbols.contains_key(name),
        expr_type(st.symbols, value) != DataType::Unknown,
        expr_type(st.symbols, value) != data_type,
    ensures
        ({
            let errs = sem(
                st,
                AstV::VarDecl {
                    name: name,
                    data_type: data_type,
                    value: Some(Box::new(value)),
                    line: line,
                },
            ).0.errors;
            errs.len() > st.errors.len() && errs[st.errors.len() as int] == init_mismatch_msg(
                line,
                name,
                data_type,
                expr_type(st.symbols, value),
            )
        }),
{
    let n = AstV::VarDecl { name: name, data_type: data_type, value: Some(Box::new(value)), line: line };
    let st1 = with_error(st, init_mismatch_msg(line, name, data_type, expr_type(st.symbols, value)));
    lemma_sem_errors(st1, value);
    lemma_sem_errors(st, n);
    assert(st1.errors[st.errors.len() as int] == init_mismatch_msg(
        line,
        name,
        data_type,
        expr_type(st.symbols, value),
    ));
}

/// Analysis keeps every symbol it finds: same type, line and scope, and still
/// initialized if it was.
pub proof fn lemma_sem_keeps(st: SemState, n: AstV)
    ensures
        keeps_symbols(st.symbols, sem(st, n).0.symbols),
    decreases n, 0int,
{
    match n {
        AstV::Program(ns) => {
            lemma_sem_seq_keeps(st, ns, ns.len() as int);
        },
        AstV::Block(ns) => {
            lemma_sem_seq_keeps(st, ns, ns.len() as int);
        },
        AstV::Function { name, body, .. } => {
            let st1 = SemState { scope: name, ..st };
            lemma_sem_keeps(st1, *body);
        },
        AstV::VarDecl { name, data_type, value, line } => {
            if !st.symbols.contains_key(name) {
                if let Some(v) = value {
                    let vt = expr_type(st.symbols, *v);
                    let st1 = if vt != DataType::Unknown && data_type != vt {
                        with_error(st, init_mismatch_msg(line, name, data_type, vt))
                    } else {
                        st
                    };
                    lemma_sem_keeps(st1, *v);
                    let st2 = sem(st1, *v).0;
                    let m = st2.symbols.insert(
                        name,
                        SymV {
                            data_type: data_type,
                            is_initialized: true,
                            declared_at_line: line,
                            scope: st2.scope,
                        },
                    );
                    assert(keeps_symbols(st.symbols, m)) by {
                        assert forall|k: Seq<char>| #[trigger] st.symbols.contains_key(k) implies m.contains_key(k)
                            && m[k].data_type == st.symbols[k].data_type
                            && m[k].declared_at_line == st.symbols[k].declared_at_line
                            && m[k].scope == st.symbols[k].scope && (st.symbols[k].is_initialized
                            ==> m[k].is_initialized) by {
                            assert(k != name);
                            assert(st2.symbols.contains_key(k));
                        }
                    }
                }
            }
        },
        AstV::AssignStmt { left, right, .. } => {
            lemma_sem_keeps(st, *right);
            let st1 = sem(st, *right).0;
            if st1.symbols.contains_key(left) {
                let info = st1.symbols[left];
                let m = st1.symbols.insert(left, SymV { is_initialized: true, ..info });
                assert(keeps_symbols(st1.symbols, m));
                lemma_keeps_trans(st.symbols, st1.symbols, m);
            }
        },
        AstV::IfStmt { condition, then_block, else_block, .. } => {
            lemma_sem_keeps(st, *condition);
            let st1 = sem(st, *condition).0;
            let st2 = add_triad_spec(st1, "JF"@, sem(st, *condition).1, "0"@).0;
            lemma_sem_keeps(st2, *then_block);
            let st3 = sem(st2, *then_block).0;
            lemma_keeps_trans(st.symbols, st1.symbols, st3.symbols);
            if let Some(e) = else_block {
                let jf = (st1.triads.len() + 1) as nat;
                let st4 = add_triad_spec(st3, "JMP"@, "0"@, "_"@).0;
                let st5 = patch_spec(st4, jf, 2, decimal((st4.triads.len() + 1) as nat));
                lemma_sem_keeps(st5, *e);
                lemma_keeps_trans(st.symbols, st3.symbols, sem(st5, *e).0.symbols);
            }
        },
        AstV::WhileStmt { condition, body, .. } => {
            lemma_sem_keeps(st, *condition);
            let st1 = sem(st, *condition).0;
            let st2 = add_triad_spec(st1, "JF"@, sem(st, *condition).1, "0"@).0;
            lemma_sem_keeps(st2, *body);
            lemma_keeps_trans(st.symbols, st1.symbols, sem(st2, *body).0.symbols);
        },
        AstV::ReturnStmt { value, .. } => {
            lemma_sem_keeps(st, *value);
        },
        AstV::BinaryOp { left, right, .. } => {
            lemma_sem_keeps(st, *left);
            let st1 = sem(st, *left).0;
            lemma_sem_keeps(st1, *right);
            lemma_keeps_trans(st.symbols, st1.symbols, sem(st1, *right).0.symbols);
        },
        _ => {},
    }
}

/// Number of nodes in the first `k` trees of `ns`.
pub open spec fn weight_seq(ns: Seq<AstV>, k: int) -> nat
    decreases ns, k,
{
    if k <= 0 || k > ns.len() {
        0
    } else {
        weight_seq(ns, k - 1) + weight(ns[k - 1])
    }
}

/// Number of nodes in `n`; analysis adds at most two triads per node.
pub open spec fn weight(n: AstV) -> nat
    decreases n, 0int,
{
    match n {
        AstV::Program(ns) => 1 + weight_seq(ns, ns.len() as int),
        AstV::Block(ns) => 1 + weight_seq(ns, ns.len() as int),
        AstV::Function { body, .. } => 1 + weight(*body),
        AstV::VarDecl { value, .. } => match value {
            Some(v) => 1 + weight(*v),
            None => 1,
        },
        AstV::AssignStmt { right, .. } => 1 + weight(*right),
        AstV::IfStmt { condition, then_block, else_block, .. } => 1 + weight(*condition) + weight(
            *then_block,
        ) + match else_block {
            Some(e) => weight(*e),
            None => 0,
        },
        AstV::WhileStmt { condition, body, .. } => 1 + weight(*condition) + weight(*body),
        AstV::ReturnStmt { value, .. } => 1 + weight(*value),
        AstV::BinaryOp { left, right, .. } => 1 + weight(*left) + weight(*right),
        _ => 1,
    }
}

/// `w`, or `cap` if `w` is not below it.
pub open spec fn capped(w: nat, cap: usize) -> nat {
    if w < cap {
        w
    } else {
        cap as nat
    }
}

/// `x + y` up to `cap`, for `x` and `y` no larger than `cap`.
fn add_capped(x: usize, y: usize, cap: usize) -> (r: usize)
    requires
        x <= cap,
        y <= cap,
    ensures
        r == capped((x + y) as nat, cap),
{
    if y >= cap - x {
        cap
    } else {
        x + y
    }
}

/// The number of nodes in `node`, or `cap` if there are at least that many.
pub fn node_count(node: &AstNode, cap: usize) -> (n: usize)
    ensures
        n == capped(weight(node@), cap),
    decreases node, 1int,
{
    let one = if 1 < cap {
        1
    } else {
        cap
    };
    match node {
        AstNode::Program(_) | AstNode::Block(_) => {
            let rest = children_count(node, cap);
            add_capped(one, rest, cap)
        },
        AstNode::Function { body, .. } => add_capped(one, node_count(body, cap), cap),
        AstNode::VarDecl { value, .. } => match value {
            Some(v) => add_capped(one, node_count(v, cap), cap),
            None => one,
        },
        AstNode::AssignStmt { right, .. } => add_capped(one, node_count(right, cap), cap),
        AstNode::IfStmt { condition, then_block, else_block, .. } => {
            let c = add_capped(one, node_count(condition, cap), cap);
            let t = add_capped(c, node_count(then_block, cap), cap);
            match else_block {
                Some(e) => add_capped(t, node_count(e, cap), cap),
                None => t,
            }
        },
        AstNode::WhileStmt { condition, body, .. } => {
            let c = add_capped(one, node_count(condition, cap), cap);
            add_capped(c, node_count(body, cap), cap)
        },
        AstNode::ReturnStmt { value, .. } => add_capped(one, node_count(value, cap), cap),
        AstNode::BinaryOp { left, right, .. } => {
            let l = add_capped(one, node_count(left, cap), cap);
            add_capped(l, node_count(right, cap), cap)
        },
        _ => one,
    }
}

/// The number of nodes under the statements of a program or block, up to `cap`.
fn children_count(node: &AstNode, cap: usize) -> (n: usize)
    requires
        node is Program || node is Block,
    ensures
        match node@ {
            AstV::Program(vs) => n == capped(weight_seq(vs, vs.len() as int), cap),
            AstV::Block(vs) => n == capped(weight_seq(vs, vs.len() as int), cap),
            _ => false,
        },
    decreases node, 0int,
{
    match node {
        AstNode::Program(nodes) | AstNode::Block(nodes) => {
            let ghost vs = AstNode::views(nodes@);
            proof {
                AstNode::lemma_views_index(nodes@);
            }
            let mut acc: usize = 0;
            let mut i: usize = 0;
            while i < nodes.len()
                invariant
                    i <= nodes@.len() == vs.len(),
                    vs == AstNode::views(nodes@),
                    forall|k: int| 0 <= k < nodes@.len() ==> #[trigger] vs[k] == nodes@[k]@,
                    *node == AstNode::Program(*nodes) || *node == AstNode::Block(*nodes),
                    acc == capped(weight_seq(vs, i as int), cap),
                decreases nodes.len() - i,
            {
                proof {
                    let v = nodes@;
                    assert(decreases_to!(v => v[i as int]));
                    match node {
                        AstNode::Program(m) => {
                            assert(decreases_to!(*m => m@));
                            assert(decreases_to!(node => *m));
                        },
                        AstNode::Block(m) => {
                            assert(decreases_to!(*m => m@));
                            assert(decreases_to!(node => *m));
                        },
                        _ => {},
                    }
                }
                let c = node_count(&nodes[i], cap);
                acc = add_capped(acc, c, cap);
                i += 1;
            }
            acc
        },
        _ => 0,
    }
}

// ---------------------------------------------------------------------------
// The report.
/// `order` lists the names of `keys` in increasing order, each once.
pub open spec fn is_listing(order: Seq<Seq<char>>, keys: Set<Seq<char>>) -> bool {
    &&& forall|i: int, j: int| 0 <= i < j < order.len() ==> lex_less(order[i], order[j])
    &&& forall|i: int| 0 <= i < order.len() ==> keys.contains(#[trigger] order[i])
    &&& forall|k: Seq<char>| keys.contains(k) ==> order.contains(k)
}

/// Law: a set of names has only one listing in increasing order.
pub proof fn lemma_listing_unique(a: Seq<Seq<char>>, b: Seq<Seq<char>>, keys: Set<Seq<char>>)
    requires
        is_listing(a, keys),
        is_listing(b, keys),
    ensures
        a == b,
    decreases a.len(),
{
    if a.len() == 0 {
        if b.len() > 0 {
            assert(keys.contains(b[0]));
            assert(a.contains(b[0]));
        }
        assert(a =~= b);
    } else if b.len() == 0 {
        assert(keys.contains(a[0]));
        assert(b.contains(a[0]));
    } else {
        assert(keys.contains(a[0]));
        assert(b.contains(a[0]));
        let j = choose|j: int| 0 <= j < b.len() && b[j] == a[0];
        assert(keys.contains(b[0]));
        assert(a.contains(b[0]));
        let k = choose|k: int| 0 <= k < a.len() && a[k] == b[0];
        if j > 0 {
            assert(lex_less(b[0], a[0]));
            if k > 0 {
                assert(lex_less(a[0], b[0]));
                lemma_lex_asymmetric(a[0], b[0]);
            } else {
                lemma_lex_irreflexive(a[0]);
            }
        }
        assert(a[0] == b[0]);
        let rest = keys.remove(a[0]);
        let a1 = a.drop_first();
        let b1 = b.drop_first();
        assert forall|i: int| 0 <= i < a1.len() implies rest.contains(#[trigger] a1[i]) by {
            assert(lex_less(a[0], a[i + 1]));
            lemma_lex_irreflexive(a[0]);
        }
        assert forall|i: int| 0 <= i < b1.len() implies rest.contains(#[trigger] b1[i]) by {
            assert(lex_less(b[0], b[i + 1]));
            lemma_lex_irreflexive(b[0]);
        }
        assert forall|x: Seq<char>| rest.contains(x) implies a1.contains(x) by {
            assert(a.contains(x));
            let i = choose|i: int| 0 <= i < a.len() && a[i] == x;
            assert(a1[i - 1] == x);
        }
        assert forall|x: Seq<char>| rest.contains(x) implies b1.contains(x) by {
            assert(b.contains(x));
            let i = choose|i: int| 0 <= i < b.len() && b[i] == x;
            assert(b1[i - 1] == x);
        }
        assert forall|i: int, j: int| 0 <= i < j < a1.len() implies lex_less(a1[i], a1[j]) by {
            assert(lex_less(a[i + 1], a[j + 1]));
        }
        assert forall|i: int, j: int| 0 <= i < j < b1.len() implies lex_less(b1[i], b1[j]) by {
            assert(lex_less(b[i + 1], b[j + 1]));
        }
        lemma_listing_unique(a1, b1, rest);
        assert forall|i: int| 0 <= i < a.len() implies a[i] == b[i] by {
            if i > 0 {
                assert(a[i] == a1[i - 1]);
                assert(b[i] == b1[i - 1]);
            }
        }
        assert(a =~= b);
    }
}

pub open spec fn report_title() -> Seq<char> {
    "\n=== ЛР4: ТАБЛИЦА СИМВОЛОВ ===\n"@
}

pub open spec fn header_row() -> Seq<char> {
    pad("Имя"@, 15) + " | "@ + pad("Тип"@, 8) + " | "@ + pad("Область"@, 12) + " | "@ + pad(
        "Инициал."@,
        10,
    ) + " | "@ + pad("Линия"@, 6) + "\n"@
}

pub open spec fn separator_row() -> Seq<char> {
    Seq::new(65, |_i: int| '-') + "\n"@
}

/// A row of the symbol table. The type is written by `Debug`, which ignores the width.
pub open spec fn symbol_row(name: Seq<char>, info: SymV) -> Seq<char> {
    pad(name, 15) + " | "@ + data_type_name(info.data_type) + " | "@ + pad(info.scope, 12)
        + " | "@ + pad(
        if info.is_initialized {
            "+"@
        } else {
            "-"@
        },
        10,
    ) + " | "@ + pad(decimal(info.declared_at_line as nat), 6) + "\n"@
}

/// Rows for the first `k` names of `order`.
pub open spec fn symbol_rows(syms: Map<Seq<char>, SymV>, order: Seq<Seq<char>>, k: int) -> Seq<char>
    decreases k,
{
    if k <= 0 || k > order.len() {
        Seq::empty()
    } else {
        symbol_rows(syms, order, k - 1) + symbol_row(order[k - 1], syms[order[k - 1]])
    }
}

/// `prefix` + each of the first `k` lines + a newline.
pub open spec fn listed(lines: Seq<Seq<char>>, prefix: Seq<char>, k: int) -> Seq<char>
    decreases k,
{
    if k <= 0 || k > lines.len() {
        Seq::empty()
    } else {
        listed(lines, prefix, k - 1) + prefix + lines[k - 1] + "\n"@
    }
}

/// What the results report prints: the symbol table in the name order `order`,
/// then the errors if there are any, else a success line and the triads.
pub open spec fn report_text(st: SemState, order: Seq<Seq<char>>) -> Seq<char> {
    report_title() + header_row() + separator_row() + symbol_rows(
        st.symbols,
        order,
        order.len() as int,
    ) + if st.errors.len() > 0 {
        "\n=== СЕМАНТИЧЕСКИЕ ОШИБКИ ===\n"@ + listed(st.errors, "[ERROR] "@, st.errors.len() as int)
    } else {
        "\nСемантический анализ завершен успешно. Ошибок не найдено.\n"@
            + "\n=== ЛР4: ПРОМЕЖУТОЧНОЕ ПРЕДСТАВЛЕНИЕ (ТРИАДЫ) ===\n"@ + listed(
            st.triads,
            Seq::empty(),
            st.triads.len() as int,
        )
    }
}

/// Law: whatever the analyzer has done, each triad it lists begins with its own
/// number, the triads being numbered 1, 2, 3, ... in order.
pub proof fn lemma_triads_numbered(a: &SemanticAnalyzer)
    requires
        a.wf(),
    ensures
        numbered(a.state().triads),
{
}

pub proof fn lemma_weight_seq_mono(ns: Seq<AstV>, k: int)
    requires
        0 <= k <= ns.len(),
    ensures
        weight_seq(ns, k) <= weight_seq(ns, ns.len() as int),
    decreases ns.len() - k,
{
    if k < ns.len() {
        lemma_weight_seq_mono(ns, k + 1);
    }
}

/// `b` is `a` with entries appended, if any.
pub open spec fn extends(a: Seq<Seq<char>>, b: Seq<Seq<char>>) -> bool {
    a.len() <= b.len() && forall|i: int| 0 <= i < a.len() ==> #[trigger] b[i] == a[i]
}

impl SymbolInfo {
    pub fn duplicate(&self) -> (s: SymbolInfo)
        ensures
            s == *self,
    {
        SymbolInfo {
            data_type: self.data_type,
            is_initialized: self.is_initialized,
            declared_at_line: self.declared_at_line,
            scope: self.scope.clone(),
        }
    }
}

pub struct SemanticAnalyzer {
    /// The symbol table: one entry per name, in declaration order, seen as a
    /// map by `sym_map`. It is not a `HashMap<String, _>`: vstd's
    /// specification of `HashMap` holds only for keys that satisfy
    /// `obeys_key_model`, which vstd grants to primitive types alone; for
    /// `String` it would take an `assume`, so nothing the analysis reads back
    /// from such a map could be proved.
    symbol_table: Vec<Symbol>,
    errors: Vec<String>,
    triads: Vec<String>,
    triad_count: usize,
    current_scope: String,
}

impl SemanticAnalyzer {
    /// What the analyzer holds.
    pub closed spec fn state(&self) -> SemState {
        SemState {
            symbols: sym_map(self.symbol_table@),
            errors: strs(self.errors@),
            triads: strs(self.triads@),
            scope: self.current_scope@,
        }
    }

    /// Names occur once in the table, and the triad count is the number of triads.
    pub closed spec fn wf(&self) -> bool {
        &&& names_unique(self.symbol_table@)
        &&& self.triad_count == self.triads@.len()
        &&& numbered(strs(self.triads@))
    }

    pub fn new() -> (a: Self)
        ensures
            a.wf(),
            a.state() == (SemState {
                symbols: Map::empty(),
                errors: Seq::empty(),
                triads: Seq::empty(),
                scope: "global"@,
            }),
    {
        let a = SemanticAnalyzer {
            symbol_table: Vec::new(),
            errors: Vec::new(),
            triads: Vec::new(),
            triad_count: 0,
            current_scope: String::from_str("global"),
        };
        assert(strs(a.errors@) =~= Seq::empty());
        assert(strs(a.triads@) =~= Seq::empty());
        assert(numbered(strs(a.triads@)));
        assert(sym_map(a.symbol_table@) =~= Map::empty());
        a
    }

    /// Whether analyzing `node` keeps the triad numbers within `usize`, as
    /// `analyze` requires.
    pub fn fits(&self, node: &AstNode) -> (b: bool)
        requires
            self.wf(),
        ensures
            b == (self.state().triads.len() + 2 * weight(node@) < usize::MAX),
    {
        let half: usize = usize::MAX / 2 + 1;
        let n = node_count(node, half);
        if n == half {
            false
        } else {
            self.triad_count < usize::MAX - 2 * n
        }
    }

    /// The entries of the symbol table, in the order of their declaration.
    pub closed spec fn entries(&self) -> Seq<Symbol> {
        self.symbol_table@
    }

    /// The number that the next triad will get.
    pub fn next_triad_idx(&self) -> (n: usize)
        requires
            self.wf(),
            self.state().triads.len() < usize::MAX,
        ensures
            n == self.state().triads.len() + 1,
    {
        self.triad_count + 1
    }

    fn push_error(&mut self, e: String)
        ensures
            final(self).state() == with_error(old(self).state(), e@),
            final(self).symbol_table == old(self).symbol_table,
            final(self).triads == old(self).triads,
            final(self).triad_count == old(self).triad_count,
    {
        self.errors.push(e);
        assert(strs(self.errors@) =~= strs(old(self).errors@).push(e@));
    }

    /// Appends triad `N: (op, arg1, arg2)`, `N` the next number, and returns `^N`.
    pub fn add_triad(&mut self, op: &str, arg1: &str, arg2: &str) -> (r: String)
        requires
            old(self).wf(),
            old(self).state().triads.len() < usize::MAX,
        ensures
            final(self).wf(),
            (final(self).state(), r@) == add_triad_spec(old(self).state(), op@, arg1@, arg2@),
            final(self).entries() == old(self).entries(),
    {
        self.triad_count += 1;
        let mut s = String::new();
        push_decimal(&mut s, self.triad_count);
        push_str(&mut s, ": (");
        push_str(&mut s, op);
        push_str(&mut s, ", ");
        push_str(&mut s, arg1);
        push_str(&mut s, ", ");
        push_str(&mut s, arg2);
        push_str(&mut s, ")");
        self.triads.push(s);
        assert(strs(self.triads@) =~= strs(old(self).triads@).push(s@));
        proof {
            lemma_triad_text_head(self.triad_count as nat, op@, arg1@, arg2@);
            assert(numbered(strs(self.triads@))) by {
                assert forall|i: int| 0 <= i < strs(self.triads@).len() implies starts_with(
                    #[trigger] strs(self.triads@)[i],
                    triad_head((i + 1) as nat),
                ) by {
                    if i < strs(old(self).triads@).len() {
                        assert(strs(self.triads@)[i] == strs(old(self).triads@)[i]);
                    }
                }
            }
        }
        let mut r = String::from_str("^");
        push_decimal(&mut r, self.triad_count);
        r
    }

    /// Relists triad `idx` with field `arg_num` replaced by `new_val`.
    fn patch_triad(&mut self, idx: usize, arg_num: usize, new_val: &str)
        requires
            old(self).wf(),
            idx >= 1,
            idx - 1 < old(self).triads@.len() ==> patchable(
                old(self).triads@[idx - 1]@,
                arg_num as nat,
            ),
        ensures
            final(self).wf(),
            final(self).state() == patch_spec(old(self).state(), idx as nat, arg_num as nat, new_val@),
            final(self).triads@.len() == old(self).triads@.len(),
            final(self).symbol_table == old(self).symbol_table,
    {
        if idx - 1 < self.triads.len() {
            let line = chars_of(self.triads[idx - 1].as_str());
            proof {
                reveal_strlit(": ");
                reveal_strlit(", ");
                lemma_find_from(line@, ": "@, 0);
            }
            if let Some(j) = find_from_exec(&line, ": ", 0) {
                assert(": "@.len() == 2);
                let n = line.len();
                assert(j + 2 <= n);
                let rest = subrange_chars(&line, j + 2, n);
                let content = trim_parens_chars(&rest);
                let args = split_chars(&content, ", ");
                let ghost f = triad_fields(line@);
                assert(views(args@) == f);
                if arg_num < args.len() {
                    let ghost g = f.update(arg_num as int, new_val@);
                    let mut s = String::new();
                    push_decimal(&mut s, idx);
                    push_str(&mut s, ": (");
                    if arg_num == 0 {
                        push_str(&mut s, new_val);
                    } else {
                        push_chars(&mut s, &args[0]);
                    }
                    push_str(&mut s, ", ");
                    if arg_num == 1 {
                        push_str(&mut s, new_val);
                    } else {
                        push_chars(&mut s, &args[1]);
                    }
                    push_str(&mut s, ", ");
                    if arg_num == 2 {
                        push_str(&mut s, new_val);
                    } else {
                        push_chars(&mut s, &args[2]);
                    }
                    push_str(&mut s, ")");
                    proof {
                        assert(views(args@)[0] == args@[0]@);
                        assert(views(args@)[1] == args@[1]@);
                        assert(views(args@)[2] == args@[2]@);
                        assert(s@ == triad_text(idx as nat, g[0], g[1], g[2]));
                    }
                    self.triads.set(idx - 1, s);
                    assert(strs(self.triads@) =~= strs(old(self).triads@).update(idx - 1, s@));
                    proof {
                        lemma_triad_text_head(idx as nat, g[0], g[1], g[2]);
                        assert(numbered(strs(self.triads@))) by {
                            assert forall|i: int| 0 <= i < strs(self.triads@).len() implies starts_with(
                                #[trigger] strs(self.triads@)[i],
                                triad_head((i + 1) as nat),
                            ) by {
                                if i != idx - 1 {
                                    assert(strs(self.triads@)[i] == strs(old(self).triads@)[i]);
                                }
                            }
                        }
                    }
                    assert(patch_line(line@, idx as nat, arg_num as nat, new_val@) == s@);
                } else {
                    assert(strs(self.triads@) =~= strs(old(self).triads@).update(idx - 1, line@));
                }
            }
        }
    }

    fn lookup(&self, name: &str) -> (r: Option<usize>)
        requires
            self.wf(),
        ensures
            match r {
                Some(i) => i < self.symbol_table@.len() && self.symbol_table@[i as int].name@
                    == name@ && self.state().symbols.contains_key(name@)
                    && self.state().symbols[name@] == self.symbol_table@[i as int].info@,
                None => !self.state().symbols.contains_key(name@),
            },
    {
        proof {
            lemma_sym_map(self.symbol_table@);
        }
        let mut i: usize = 0;
        while i < self.symbol_table.len()
            invariant
                self.wf(),
                i <= self.symbol_table@.len(),
                forall|k: int| 0 <= k < i ==> self.symbol_table@[k].name@ != name@,
            decreases self.symbol_table.len() - i,
        {
            if str_eq(self.symbol_table[i].name.as_str(), name) {
                proof {
                    lemma_sym_map(self.symbol_table@);
                    assert(sym_map(self.symbol_table@)[self.symbol_table@[i as int].name@]
                        == self.symbol_table@[i as int].info@);
                    assert(exists|k: int|
                        0 <= k < self.symbol_table@.len() && self.symbol_table@[k].name@ == name@);
                }
                return Some(i);
            }
            i += 1;
        }
        proof {
            lemma_sym_map(self.symbol_table@);
        }
        None
    }

    /// Records `info` under `name`, replacing what was there.
    fn insert_symbol(&mut self, name: &String, info: SymbolInfo)
        requires
            old(self).wf(),
        ensures
            final(self).wf(),
            final(self).state() == (SemState {
                symbols: old(self).state().symbols.insert(name@, info@),
                ..old(self).state()
            }),
            final(self).triads == old(self).triads,
    {
        let sym = Symbol { name: name.clone(), info };
        match self.lookup(name.as_str()) {
            Some(i) => {
                proof {
                    lemma_sym_map_update(self.symbol_table@, i as int, sym);
                }
                self.symbol_table.set(i, sym);
            },
            None => {
                let ghost before = self.symbol_table@;
                proof {
                    lemma_sym_map(before);
                }
                self.symbol_table.push(sym);
                proof {
                    assert(self.symbol_table@.drop_last() == before);
                    assert forall|a: int, b: int|
                        0 <= a < b < self.symbol_table@.len() implies self.symbol_table@[a].name@
                        != self.symbol_table@[b].name@ by {
                        if b == self.symbol_table@.len() - 1 {
                            assert(before[a] == self.symbol_table@[a]);
                        } else {
                            assert(before[a] == self.symbol_table@[a]);
                            assert(before[b] == self.symbol_table@[b]);
                        }
                    }
                }
            },
        }
    }

    fn get_expr_type(&self, node: &AstNode) -> (d: DataType)
        requires
            self.wf(),
        ensures
            d == expr_type(self.state().symbols, node@),
        decreases node,
    {
        match node {
            AstNode::Literal { data_type, .. } => *data_type,
            AstNode::Variable { name, .. } => match self.lookup(name.as_str()) {
                Some(i) => self.symbol_table[i].info.data_type,
                None => DataType::Unknown,
            },
            AstNode::BinaryOp { left, op, right, .. } => {
                if comparison_op(op.as_str()) {
                    DataType::Bool
                } else {
                    let lt = self.get_expr_type(left);
                    let rt = self.get_expr_type(right);
                    if lt == rt {
                        lt
                    } else {
                        DataType::Unknown
                    }
                }
            },
            _ => DataType::Unknown,
        }
    }

    fn analyze_seq(&mut self, node: &AstNode) -> (r: String)
        requires
            node is Program || node is Block,
            old(self).wf(),
            old(self).state().triads.len() + 2 * weight(node@) < usize::MAX,
        ensures
            final(self).wf(),
            (final(self).state(), r@) == sem(old(self).state(), node@),
            final(self).state().triads.len() <= old(self).state().triads.len() + 2 * weight(node@),
            extends(old(self).state().triads, final(self).state().triads),
            extends(old(self).state().errors, final(self).state().errors),
            old(self).state().symbols.dom().subset_of(final(self).state().symbols.dom()),
            final(self).state().scope == old(self).state().scope,
        decreases node, 0int,
    {
        let ghost st0 = self.state();
        let ghost l0 = self.triads@.len();
        match node {
            AstNode::Program(nodes) | AstNode::Block(nodes) => {
                let ghost vs = AstNode::views(nodes@);
                proof {
                    AstNode::lemma_views_index(nodes@);
                    lemma_weight_seq_mono(vs, 0);
                }
                let mut i: usize = 0;
                while i < nodes.len()
                    invariant
                        i <= nodes@.len() == vs.len(),
                        vs == AstNode::views(nodes@),
                        forall|k: int| 0 <= k < nodes@.len() ==> #[trigger] vs[k] == nodes@[k]@,
                        node@ == AstV::Program(vs) || node@ == AstV::Block(vs),
                        *node == AstNode::Program(*nodes) || *node == AstNode::Block(*nodes),
                        self.wf(),
                        self.state() == sem_seq(st0, vs, i as int),
                        self.triads@.len() <= l0 + 2 * weight_seq(vs, i as int),
                        l0 + 2 * weight(node@) < usize::MAX,
                        weight(node@) == 1 + weight_seq(vs, vs.len() as int),
                        extends(st0.triads, self.state().triads),
                        extends(st0.errors, self.state().errors),
                        st0.symbols.dom().subset_of(self.state().symbols.dom()),
                        self.state().scope == st0.scope,
                        st0.triads.len() == l0,
                    decreases nodes.len() - i,
                {
                    proof {
                        lemma_weight_seq_mono(vs, i + 1);
                        assert(decreases_to!(node => nodes@[i as int]));
                    }
                    self.analyze(&nodes[i]);
                    i += 1;
                }
            },
            _ => {},
        }
        String::new()
    }
    fn analyze_var_decl(&mut self, node: &AstNode) -> (r: String)
        requires
            node is VarDecl,
            old(self).wf(),
            old(self).state().triads.len() + 2 * weight(node@) < usize::MAX,
        ensures
            final(self).wf(),
            (final(self).state(), r@) == sem(old(self).state(), node@),
            final(self).state().triads.len() <= old(self).state().triads.len() + 2 * weight(node@),
            extends(old(self).state().triads, final(self).state().triads),
            extends(old(self).state().errors, final(self).state().errors),
            old(self).state().symbols.dom().subset_of(final(self).state().symbols.dom()),
            final(self).state().scope == old(self).state().scope,
        decreases node, 0int,
    {
        match node {
            AstNode::VarDecl { name, data_type, value, line } => {
                proof {
                    lemma_sym_map(self.symbol_table@);
                }
                if self.lookup(name.as_str()).is_some() {
                    self.push_error(named_msg(*line, "Повторное объявление переменной '", name.as_str()));
                } else {
                    let mut is_init = false;
                    let mut init_val = String::from_str("_");
                    match value {
                        Some(val_node) => {
                            let val_type = self.get_expr_type(val_node);
                            if val_type != DataType::Unknown && *data_type != val_type {
                                self.push_error(
                                    mismatch_msg(
                                        *line,
                                        "Несоответствие типов при инициализации '",
                                        name.as_str(),
                                        *data_type,
                                        val_type,
                                    ),
                                );
                            }
                            is_init = true;
                            init_val = self.analyze(val_node);
                        },
                        None => {},
                    }
                    let info = SymbolInfo {
                        data_type: *data_type,
                        is_initialized: is_init,
                        declared_at_line: *line,
                        scope: self.current_scope.clone(),
                    };
                    self.insert_symbol(name, info);
                    if is_init {
                        self.add_triad(":=", name.as_str(), init_val.as_str());
                    }
                }
                String::new()
            },
            _ => String::new(),
        }
    }
    fn analyze_assign(&mut self, node: &AstNode) -> (r: String)
        requires
            node is AssignStmt,
            old(self).wf(),
            old(self).state().triads.len() + 2 * weight(node@) < usize::MAX,
        ensures
            final(self).wf(),
            (final(self).state(), r@) == sem(old(self).state(), node@),
            final(self).state().triads.len() <= old(self).state().triads.len() + 2 * weight(node@),
            extends(old(self).state().triads, final(self).state().triads),
            extends(old(self).state().errors, final(self).state().errors),
            old(self).state().symbols.dom().subset_of(final(self).state().symbols.dom()),
            final(self).state().scope == old(self).state().scope,
        decreases node, 0int,
    {
        match node {
            AstNode::AssignStmt { left, right, line } => {
                let right_res = self.analyze(right);
                let right_type = self.get_expr_type(right);
                match self.lookup(left.as_str()) {
                    Some(i) => {
                        let mut info = self.symbol_table[i].info.duplicate();
                        if right_type != DataType::Unknown && info.data_type != right_type {
                            self.push_error(
                                mismatch_msg(
                                    *line,
                                    "Несоответствие типов при присваивании '",
                                    left.as_str(),
                                    info.data_type,
                                    right_type,
                                ),
                            );
                        }
                        info.is_initialized = true;
                        self.insert_symbol(left, info);
                        self.add_triad(":=", left.as_str(), right_res.as_str())
                    },
                    None => {
                        self.push_error(
                            named_msg(*line, "Использование необъявленной переменной '", left.as_str()),
                        );
                        String::new()
                    },
                }
            },
            _ => String::new(),
        }
    }
    #[verifier::rlimit(40)]
    fn analyze_if(&mut self, node: &AstNode) -> (r: String)
        requires
            node is IfStmt,
            old(self).wf(),
            old(self).state().triads.len() + 2 * weight(node@) < usize::MAX,
        ensures
            final(self).wf(),
            (final(self).state(), r@) == sem(old(self).state(), node@),
            final(self).state().triads.len() <= old(self).state().triads.len() + 2 * weight(node@),
            extends(old(self).state().triads, final(self).state().triads),
            extends(old(self).state().errors, final(self).state().errors),
            old(self).state().symbols.dom().subset_of(final(self).state().symbols.dom()),
            final(self).state().scope == old(self).state().scope,
        decreases node, 0int,
    {
        match node {
            AstNode::IfStmt { condition, then_block, else_block, .. } => {
                let cond_res = self.analyze(condition);
                let jf_idx = self.next_triad_idx();
                self.add_triad("JF", cond_res.as_str(), "0");
                proof {
                    reveal_strlit("JF");
                    reveal_strlit("0");
                    lemma_triad_fields(jf_idx as nat, "JF"@, cond_res@, "0"@);
                }
                let ghost jf_line = self.state().triads[jf_idx - 1];
                self.analyze(then_block);
                match else_block {
                    Some(else_node) => {
                        let jmp_idx = self.next_triad_idx();
                        self.add_triad("JMP", "0", "_");
                        proof {
                            reveal_strlit("JMP");
                            reveal_strlit("_");
                            lemma_triad_fields(jmp_idx as nat, "JMP"@, "0"@, "_"@);
                            assert(self.state().triads[jf_idx - 1] == jf_line);
                        }
                        let else_start = self.next_triad_idx();
                        self.patch_triad(jf_idx, 2, decimal_string(else_start).as_str());
                        let ghost jmp_line = self.state().triads[jmp_idx - 1];
                        self.analyze(else_node);
                        let after_if = self.next_triad_idx();
                        assert(self.state().triads[jmp_idx - 1] == jmp_line);
                        self.patch_triad(jmp_idx, 1, decimal_string(after_if).as_str());
                    },
                    None => {
                        let after_if = self.next_triad_idx();
                        assert(self.state().triads[jf_idx - 1] == jf_line);
                        self.patch_triad(jf_idx, 2, decimal_string(after_if).as_str());
                    },
                }
                String::new()
            },
            _ => String::new(),
        }
    }
    fn analyze_while(&mut self, node: &AstNode) -> (r: String)
        requires
            node is WhileStmt,
            old(self).wf(),
            old(self).state().triads.len() + 2 * weight(node@) < usize::MAX,
        ensures
            final(self).wf(),
            (final(self).state(), r@) == sem(old(self).state(), node@),
            final(self).state().triads.len() <= old(self).state().triads.len() + 2 * weight(node@),
            extends(old(self).state().triads, final(self).state().triads),
            extends(old(self).state().errors, final(self).state().errors),
            old(self).state().symbols.dom().subset_of(final(self).state().symbols.dom()),
            final(self).state().scope == old(self).state().scope,
        decreases node, 0int,
    {
        match node {
            AstNode::WhileStmt { condition, body, .. } => {
                let loop_start = self.next_triad_idx();
                let cond_res = self.analyze(condition);
                let jf_idx = self.next_triad_idx();
                self.add_triad("JF", cond_res.as_str(), "0");
                proof {
                    reveal_strlit("JF");
                    reveal_strlit("0");
                    lemma_triad_fields(jf_idx as nat, "JF"@, cond_res@, "0"@);
                }
                let ghost jf_line = self.state().triads[jf_idx - 1];
                self.analyze(body);
                self.add_triad("JMP", decimal_string(loop_start).as_str(), "_");
                let after_loop = self.next_triad_idx();
                assert(self.state().triads[jf_idx - 1] == jf_line);
                self.patch_triad(jf_idx, 2, decimal_string(after_loop).as_str());
                String::new()
            },
            _ => String::new(),
        }
    }
    fn analyze_binary(&mut self, node: &AstNode) -> (r: String)
        requires
            node is BinaryOp,
            old(self).wf(),
            old(self).state().triads.len() + 2 * weight(node@) < usize::MAX,
        ensures
            final(self).wf(),
            (final(self).state(), r@) == sem(old(self).state(), node@),
            final(self).state().triads.len() <= old(self).state().triads.len() + 2 * weight(node@),
            extends(old(self).state().triads, final(self).state().triads),
            extends(old(self).state().errors, final(self).state().errors),
            old(self).state().symbols.dom().subset_of(final(self).state().symbols.dom()),
            final(self).state().scope == old(self).state().scope,
        decreases node, 0int,
    {
        match node {
            AstNode::BinaryOp { left, op, right, line } => {
                let l_res = self.analyze(left);
                let r_res = self.analyze(right);
                let lt = self.get_expr_type(left);
                let rt = self.get_expr_type(right);
                if lt != DataType::Unknown && rt != DataType::Unknown && lt != rt {
                    self.push_error(op_mismatch_exec(*line, op.as_str(), lt, rt));
                }
                self.add_triad(op.as_str(), l_res.as_str(), r_res.as_str())
            },
            _ => String::new(),
        }
    }
    /// Indices of the table's entries, ordered by name.
    fn sorted_indices(&self) -> (order: Vec<usize>)
        requires
            self.wf(),
        ensures
            forall|i: int| 0 <= i < order@.len() ==> order@[i] < self.symbol_table@.len(),
            is_listing(
                order@.map_values(|i: usize| self.symbol_table@[i as int].name@),
                self.state().symbols.dom(),
            ),
    {
        let ghost t = self.symbol_table@;
        proof {
            lemma_sym_map(t);
        }
        let mut order: Vec<usize> = Vec::new();
        let mut k: usize = 0;
        while k < self.symbol_table.len()
            invariant
                self.wf(),
                t == self.symbol_table@,
                k <= t.len(),
                forall|i: int| 0 <= i < order@.len() ==> order@[i] < k,
                forall|i: int, j: int|
                    0 <= i < j < order@.len() ==> lex_less(
                        t[order@[i] as int].name@,
                        t[order@[j] as int].name@,
                    ),
                forall|m: usize| m < k ==> order@.contains(m),
            decreases t.len() - k,
        {
            let name = self.symbol_table[k].name.as_str();
            let mut p: usize = 0;
            while p < order.len() && lex_less_exec(
                self.symbol_table[order[p]].name.as_str(),
                name,
            )
                invariant
                    self.wf(),
                    t == self.symbol_table@,
                    k < t.len(),
                    name@ == t[k as int].name@,
                    p <= order@.len(),
                    forall|i: int| 0 <= i < order@.len() ==> order@[i] < k,
                    forall|i: int| 0 <= i < p ==> lex_less(t[order@[i] as int].name@, name@),
                decreases order.len() - p,
            {
                p += 1;
            }
            let ghost before = order@;
            proof {
                assert forall|i: int| p <= i < before.len() implies lex_less(
                    name@,
                    t[before[i] as int].name@,
                ) by {
                    let q = t[before[p as int] as int].name@;
                    assert(!lex_less(q, name@));
                    lemma_lex_total(q, name@);
                    assert(t[before[p as int] as int].name@ != t[k as int].name@);
                    if i > p {
                        lemma_lex_transitive(name@, q, t[before[i] as int].name@);
                    }
                }
            }
            order.insert(p, k);
            proof {
                assert forall|i: int, j: int| 0 <= i < j < order@.len() implies lex_less(
                    t[order@[i] as int].name@,
                    t[order@[j] as int].name@,
                ) by {
                    if i < p && j == p {
                    } else if i < p && j > p {
                        lemma_lex_transitive(
                            t[before[i] as int].name@,
                            name@,
                            t[before[j - 1] as int].name@,
                        );
                    } else if i == p {
                    } else if i < p {
                    } else {
                        assert(order@[i] == before[i - 1]);
                        assert(order@[j] == before[j - 1]);
                    }
                }
                assert forall|m: usize| m < k + 1 implies order@.contains(m) by {
                    if m == k {
                        assert(order@[p as int] == k);
                    } else {
                        assert(before.contains(m));
                        let i = choose|i: int| 0 <= i < before.len() && before[i] == m;
                        if i < p {
                            assert(order@[i] == m);
                        } else {
                            assert(order@[i + 1] == m);
                        }
                    }
                }
            }
            k += 1;
        }
        proof {
            let names = order@.map_values(|i: usize| t[i as int].name@);
            let keys = self.state().symbols.dom();
            assert forall|i: int| 0 <= i < names.len() implies keys.contains(#[trigger] names[i]) by {
                assert(sym_map(t).contains_key(t[order@[i] as int].name@));
            }
            assert forall|x: Seq<char>| keys.contains(x) implies names.contains(x) by {
                let m = choose|m: int| 0 <= m < t.len() && t[m].name@ == x;
                assert(order@.contains(m as usize));
                let i = choose|i: int| 0 <= i < order@.len() && order@[i] == m as usize;
                assert(names[i] == x);
            }
        }
        order
    }

    fn table_head() -> (s: String)
        ensures
            s@ == report_title() + header_row() + separator_row(),
    {
        let mut s = String::from_str("\n=== ЛР4: ТАБЛИЦА СИМВОЛОВ ===\n");
        push_padded(&mut s, "Имя", 15);
        push_str(&mut s, " | ");
        push_padded(&mut s, "Тип", 8);
        push_str(&mut s, " | ");
        push_padded(&mut s, "Область", 12);
        push_str(&mut s, " | ");
        push_padded(&mut s, "Инициал.", 10);
        push_str(&mut s, " | ");
        push_padded(&mut s, "Линия", 6);
        push_str(&mut s, "\n");
        let mut d: usize = 0;
        while d < 65
            invariant
                d <= 65,
                s@ == report_title() + header_row() + Seq::new(d as nat, |_i: int| '-'),
            decreases 65 - d,
        {
            crate::text::push_char(&mut s, '-');
            d += 1;
            assert(Seq::new(d as nat, |_i: int| '-') =~= Seq::new((d - 1) as nat, |_i: int| '-').push(
                '-',
            ));
        }
        push_str(&mut s, "\n");
        assert(s@ =~= report_title() + header_row() + separator_row());
        s
    }

    fn push_row(s: &mut String, sym: &Symbol)
        ensures
            final(s)@ == old(s)@ + symbol_row(sym.name@, sym.info@),
    {
        let ghost before = s@;
        push_padded(s, sym.name.as_str(), 15);
        push_str(s, " | ");
        push_str(s, sym.info.data_type.name());
        push_str(s, " | ");
        push_padded(s, sym.info.scope.as_str(), 12);
        push_str(s, " | ");
        if sym.info.is_initialized {
            push_padded(s, "+", 10);
        } else {
            push_padded(s, "-", 10);
        }
        push_str(s, " | ");
        let line_text = decimal_string(sym.info.declared_at_line);
        push_padded(s, line_text.as_str(), 6);
        push_str(s, "\n");
        assert(s@ =~= before + symbol_row(sym.name@, sym.info@));
    }

    fn push_listed(s: &mut String, lines: &Vec<String>, prefix: &str)
        ensures
            final(s)@ == old(s)@ + listed(strs(lines@), prefix@, lines@.len() as int),
    {
        let ghost mid = s@;
        let mut k: usize = 0;
        while k < lines.len()
            invariant
                k <= lines@.len(),
                s@ == mid + listed(strs(lines@), prefix@, k as int),
            decreases lines.len() - k,
        {
            push_str(s, prefix);
            push_str(s, lines[k].as_str());
            push_str(s, "\n");
            k += 1;
        }
    }

    /// What `print_results` prints: the symbol table ordered by name, then
    /// the semantic errors, or when there are none, the triads.
    pub fn report(&self) -> (s: String)
        requires
            self.wf(),
        ensures
            exists|order: Seq<Seq<char>>|
                is_listing(order, self.state().symbols.dom()) && s@ == report_text(
                    self.state(),
                    order,
                ),
    {
        let order = self.sorted_indices();
        let ghost t = self.symbol_table@;
        let ghost names = order@.map_values(|i: usize| t[i as int].name@);
        let mut s = Self::table_head();
        let ghost head = s@;
        let mut i: usize = 0;
        while i < order.len()
            invariant
                self.wf(),
                t == self.symbol_table@,
                names == order@.map_values(|i: usize| t[i as int].name@),
                forall|j: int| 0 <= j < order@.len() ==> order@[j] < t.len(),
                i <= order@.len(),
                s@ == head + symbol_rows(self.state().symbols, names, i as int),
            decreases order.len() - i,
        {
            let sym = &self.symbol_table[order[i]];
            proof {
                lemma_sym_map(t);
                assert(names[i as int] == sym.name@);
                assert(self.state().symbols[sym.name@] == sym.info@);
            }
            Self::push_row(&mut s, sym);
            i += 1;
        }
        let empty = String::new();
        if self.errors.len() > 0 {
            push_str(&mut s, "\n=== СЕМАНТИЧЕСКИЕ ОШИБКИ ===\n");
            Self::push_listed(&mut s, &self.errors, "[ERROR] ");
        } else {
            push_str(&mut s, "\nСемантический анализ завершен успешно. Ошибок не найдено.\n");
            push_str(&mut s, "\n=== ЛР4: ПРОМЕЖУТОЧНОЕ ПРЕДСТАВЛЕНИЕ (ТРИАДЫ) ===\n");
            Self::push_listed(&mut s, &self.triads, empty.as_str());
        }
        assert(names.len() == order@.len());
        assert(s@ =~= report_text(self.state(), names));
        assert(is_listing(names, self.state().symbols.dom()));
        s
    }

    /// Analyzes `node`: records declarations, reports errors, and emits triads.
    /// Returns the operand that names the node's value (a literal, a name, `^n`),
    /// or an empty string.
    pub fn analyze(&mut self, node: &AstNode) -> (r: String)
        requires
            old(self).wf(),
            old(self).state().triads.len() + 2 * weight(node@) < usize::MAX,
        ensures
            final(self).wf(),
            (final(self).state(), r@) == sem(old(self).state(), node@),
            final(self).state().triads.len() <= old(self).state().triads.len() + 2 * weight(node@),
            extends(old(self).state().triads, final(self).state().triads),
            extends(old(self).state().errors, final(self).state().errors),
            old(self).state().symbols.dom().subset_of(final(self).state().symbols.dom()),
            final(self).state().scope == old(self).state().scope,
            keeps_symbols(old(self).state().symbols, final(self).state().symbols),
            node@ matches AstV::Literal { value, .. } ==> r@ == value,
            node@ matches AstV::Variable { name, .. } ==> r@ == name,
            node@ is BinaryOp || node@ is ReturnStmt ==> r@ == triad_ref(
                final(self).state().triads.len(),
            ),
            node@ matches AstV::AssignStmt { left, .. } ==> (final(self).state().symbols.contains_key(
                left,
            ) <==> r@ == triad_ref(final(self).state().triads.len())),
            node@ matches AstV::AssignStmt { left, .. } && old(self).state().symbols.contains_key(left)
                ==> r@ == triad_ref(final(self).state().triads.len()),
        decreases node, 1int,
    {
        proof {
            lemma_sem_keeps(self.state(), node@);
            if node@ is AssignStmt {
                lemma_assign_operand(self.state(), node@);
            }
        }
        match node {
            AstNode::Program(_) => self.analyze_seq(node),
            AstNode::Block(_) => self.analyze_seq(node),
            AstNode::Function { name, body, .. } => {
                let old_scope = self.current_scope.clone();
                self.current_scope = name.clone();
                self.analyze(body);
                self.current_scope = old_scope;
                String::new()
            },
            AstNode::VarDecl { .. } => self.analyze_var_decl(node),
            AstNode::AssignStmt { .. } => self.analyze_assign(node),
            AstNode::IfStmt { .. } => self.analyze_if(node),
            AstNode::WhileStmt { .. } => self.analyze_while(node),
            AstNode::ReturnStmt { value, .. } => {
                let res = self.analyze(value);
                self.add_triad("RET", res.as_str(), "_")
            },
            AstNode::BinaryOp { .. } => self.analyze_binary(node),
            AstNode::Literal { value, .. } => value.clone(),
            AstNode::Variable { name, line } => {
                match self.lookup(name.as_str()) {
                    Some(i) => {
                        if !self.symbol_table[i].info.is_initialized {
                            self.push_error(
                                named_msg(
                                    *line,
                                    "Использование неинициализированной переменной '",
                                    name.as_str(),
                                ),
                            );
                        }
                    },
                    None => {
                        self.push_error(
                            named_msg(*line, "Использование необъявленной переменной '", name.as_str()),
                        );
                    },
                }
                name.clone()
            },
        }
    }
}

} // verus!
