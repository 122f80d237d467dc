//! The tree drawing of a typed syntax tree, as lines of text.
use vstd::prelude::*;
use crate::text::{push_str};
use crate::compiler::ast::{AstNode, AstV, data_type_name};

verus! {

pub open spec fn marker(is_last: bool) -> Seq<char> {
    if is_last {
        "└── "@
    } else {
        "├── "@
    }
}

/// The indentation under a node drawn with `indent` and `is_last`.
pub open spec fn deeper(indent: Seq<char>, is_last: bool) -> Seq<char> {
    indent + if is_last {
        "    "@
    } else {
        "│   "@
    }
}

/// The drawing of the first `k` of `ns`, each under `indent`, the last of `ns` marked last.
pub open spec fn render_seq(ns: Seq<AstV>, k: int, indent: Seq<char>) -> Seq<char>
    decreases ns, k,
{
    if k <= 0 || k > ns.len() {
        Seq::empty()
    } else {
        render_seq(ns, k - 1, indent) + render(ns[k - 1], indent, k - 1 == ns.len() - 1)
    }
}

/// The lines that draw `n` after `indent`, with the last-child marker where `is_last`.
pub open spec fn render(n: AstV, indent: Seq<char>, is_last: bool) -> Seq<char>
    decreases n, 0int,
{
    let head = indent + marker(is_last);
    let sub = deeper(indent, is_last);
    match n {
        AstV::Program(ns) => "Program\n"@ + render_seq(ns, ns.len() as int, Seq::empty()),
        AstV::Function { name, return_type, body, .. } => head + "Function: "@ + name
            + " (returns "@ + data_type_name(return_type) + ")\n"@ + render(*body, sub, true),
        AstV::VarDecl { name, data_type, value, .. } => head + "VarDecl: "@ + name + " ["@
            + data_type_name(data_type) + "]"@ + match value {
            Some(v) => " =\n"@ + render(*v, sub, true),
            None => "\n"@,
        },
        AstV::Block(ns) => head + "Block\n"@ + render_seq(ns, ns.len() as int, sub),
        AstV::AssignStmt { left, right, .. } => head + "Assign: "@ + left + "\n"@ + render(
            *right,
            sub,
            true,
        ),
        AstV::IfStmt { condition, then_block, else_block, .. } => head + "If\n"@ + render(
            *condition,
            sub,
            false,
        ) + match else_block {
            Some(e) => render(*then_block, sub, false) + render(*e, sub, true),
            None => render(*then_block, sub, true),
        },
        AstV::WhileStmt { condition, body, .. } => head + "While\n"@ + render(*condition, sub, false)
            + render(*body, sub, true),
        AstV::ReturnStmt { value, .. } => head + "Return\n"@ + render(*value, sub, true),
        AstV::BinaryOp { left, op, right, .. } => head + "BinaryOp: "@ + op + "\n"@ + render(
            *left,
            sub,
            false,
        ) + render(*right, sub, true),
        AstV::Literal { value, data_type, .. } => head + "Literal: "@ + value + " ("@
            + data_type_name(data_type) + ")\n"@,
        AstV::Variable { name, .. } => head + "Variable: "@ + name + "\n"@,
    }
}

fn deeper_exec(indent: &str, is_last: bool) -> (s: String)
    ensures
        s@ == deeper(indent@, is_last),
{
    let mut s = String::new();
    push_str(&mut s, indent);
    if is_last {
        push_str(&mut s, "    ");
    } else {
        push_str(&mut s, "│   ");
    }
    s
}

fn head_exec(out: &mut String, indent: &str, is_last: bool)
    ensures
        final(out)@ == old(out)@ + indent@ + marker(is_last),
{
    push_str(out, indent);
    if is_last {
        push_str(out, "└── ");
    } else {
        push_str(out, "├── ");
    }
}

fn render_program(node: &AstNode, indent: &str, is_last: bool, out: &mut String)
    requires
        node is Program,
    ensures
        final(out)@ == old(out)@ + render(node@, indent@, is_last),
    decreases node, 0int,
{
    match node {
        AstNode::Program(nodes) => {
            push_str(out, "Program\n");
            proof {
                reveal_strlit("");
                assert(""@ =~= Seq::<char>::empty());
            }
            let ghost vs = AstNode::views(nodes@);
            proof {
                AstNode::lemma_views_index(nodes@);
            }
            let ghost out0 = out@;
            let mut i: usize = 0;
            while i < nodes.len()
                invariant
                    i <= nodes@.len() == vs.len(),
                    vs == AstNode::views(nodes@),
                    forall|k: int| 0 <= k < nodes@.len() ==> #[trigger] vs[k] == nodes@[k]@,
                    out@ == out0 + render_seq(vs, i as int, ""@),
                    *node == AstNode::Program(*nodes),
                    node@ == AstV::Program(vs),
                decreases nodes.len() - i,
            {
                proof {
                    assert(decreases_to!(node => nodes@[i as int]));
                }
                render_into(&nodes[i], "", i == nodes.len() - 1, out);
                i += 1;
            }

        },
        _ => {},
    }
}

fn render_function(node: &AstNode, indent: &str, is_last: bool, out: &mut String)
    requires
        node is Function,
    ensures
        final(out)@ == old(out)@ + render(node@, indent@, is_last),
    decreases node, 0int,
{
    match node {
        AstNode::Function { name, return_type, body, .. } => {
            head_exec(out, indent, is_last);
            push_str(out, "Function: ");
            push_str(out, name.as_str());
            push_str(out, " (returns ");
            push_str(out, return_type.name());
            push_str(out, ")\n");
            let sub = deeper_exec(indent, is_last);
            render_into(body, sub.as_str(), true, out);
        },
        _ => {},
    }
}

fn render_var_decl(node: &AstNode, indent: &str, is_last: bool, out: &mut String)
    requires
        node is VarDecl,
    ensures
        final(out)@ == old(out)@ + render(node@, indent@, is_last),
    decreases node, 0int,
{
    match node {
        AstNode::VarDecl { name, data_type, value, .. } => {
            head_exec(out, indent, is_last);
            push_str(out, "VarDecl: ");
            push_str(out, name.as_str());
            push_str(out, " [");
            push_str(out, data_type.name());
            push_str(out, "]");
            match value {
                Some(v) => {
                    push_str(out, " =\n");
                    let sub = deeper_exec(indent, is_last);
                    render_into(v, sub.as_str(), true, out);
                },
                None => {
                    push_str(out, "\n");
                },
            }
        },
        _ => {},
    }
}

fn render_block(node: &AstNode, indent: &str, is_last: bool, out: &mut String)
    requires
        node is Block,
    ensures
        final(out)@ == old(out)@ + render(node@, indent@, is_last),
    decreases node, 0int,
{
    match node {
        AstNode::Block(stmts) => {
            head_exec(out, indent, is_last);
            push_str(out, "Block\n");
            let sub = deeper_exec(indent, is_last);
            let ghost vs = AstNode::views(stmts@);
            proof {
                AstNode::lemma_views_index(stmts@);
            }
            let ghost out0 = out@;
            let mut i: usize = 0;
            while i < stmts.len()
                invariant
                    i <= stmts@.len() == vs.len(),
                    vs == AstNode::views(stmts@),
                    forall|k: int| 0 <= k < stmts@.len() ==> #[trigger] vs[k] == stmts@[k]@,
                    out@ == out0 + render_seq(vs, i as int, sub@),
                    *node == AstNode::Block(*stmts),
                    node@ == AstV::Block(vs),
                decreases stmts.len() - i,
            {
                proof {
                    assert(decreases_to!(node => stmts@[i as int]));
                }
                render_into(&stmts[i], sub.as_str(), i == stmts.len() - 1, out);
                i += 1;
            }

        },
        _ => {},
    }
}

fn render_assign_stmt(node: &AstNode, indent: &str, is_last: bool, out: &mut String)
    requires
        node is AssignStmt,
    ensures
        final(out)@ == old(out)@ + render(node@, indent@, is_last),
    decreases node, 0int,
{
    match node {
        AstNode::AssignStmt { left, right, .. } => {
            head_exec(out, indent, is_last);
            push_str(out, "Assign: ");
            push_str(out, left.as_str());
            push_str(out, "\n");
            let sub = deeper_exec(indent, is_last);
            render_into(right, sub.as_str(), true, out);
        },
        _ => {},
    }
}

fn render_if_stmt(node: &AstNode, indent: &str, is_last: bool, out: &mut String)
    requires
        node is IfStmt,
    ensures
        final(out)@ == old(out)@ + render(node@, indent@, is_last),
    decreases node, 0int,
{
    match node {
        AstNode::IfStmt { condition, then_block, else_block, .. } => {
            head_exec(out, indent, is_last);
            push_str(out, "If\n");
            let sub = deeper_exec(indent, is_last);
            render_into(condition, sub.as_str(), false, out);
            match else_block {
                Some(e) => {
                    render_into(then_block, sub.as_str(), false, out);
                    render_into(e, sub.as_str(), true, out);
                },
                None => {
                    render_into(then_block, sub.as_str(), true, out);
                },
            }
        },
        _ => {},
    }
}

fn render_while_stmt(node: &AstNode, indent: &str, is_last: bool, out: &mut String)
    requires
        node is WhileStmt,
    ensures
        final(out)@ == old(out)@ + render(node@, indent@, is_last),
    decreases node, 0int,
{
    match node {
        AstNode::WhileStmt { condition, body, .. } => {
            head_exec(out, indent, is_last);
            push_str(out, "While\n");
            let sub = deeper_exec(indent, is_last);
            render_into(condition, sub.as_str(), false, out);
            render_into(body, sub.as_str(), true, out);
        },
        _ => {},
    }
}

fn render_return_stmt(node: &AstNode, indent: &str, is_last: bool, out: &mut String)
    requires
        node is ReturnStmt,
    ensures
        final(out)@ == old(out)@ + render(node@, indent@, is_last),
    decreases node, 0int,
{
    match node {
        AstNode::ReturnStmt { value, .. } => {
            head_exec(out, indent, is_last);
            push_str(out, "Return\n");
            let sub = deeper_exec(indent, is_last);
            render_into(value, sub.as_str(), true, out);
        },
        _ => {},
    }
}

fn render_binary_op(node: &AstNode, indent: &str, is_last: bool, out: &mut String)
    requires
        node is BinaryOp,
    ensures
        final(out)@ == old(out)@ + render(node@, indent@, is_last),
    decreases node, 0int,
{
    match node {
        AstNode::BinaryOp { left, op, right, .. } => {
            head_exec(out, indent, is_last);
            push_str(out, "BinaryOp: ");
            push_str(out, op.as_str());
            push_str(out, "\n");
            let sub = deeper_exec(indent, is_last);
            render_into(left, sub.as_str(), false, out);
            render_into(right, sub.as_str(), true, out);
        },
        _ => {},
    }
}

fn render_literal(node: &AstNode, indent: &str, is_last: bool, out: &mut String)
    requires
        node is Literal,
    ensures
        final(out)@ == old(out)@ + render(node@, indent@, is_last),
    decreases node, 0int,
{
    match node {
        AstNode::Literal { value, data_type, .. } => {
            head_exec(out, indent, is_last);
            push_str(out, "Literal: ");
            push_str(out, value.as_str());
            push_str(out, " (");
            push_str(out, data_type.name());
            push_str(out, ")\n");
        },
        _ => {},
    }
}

fn render_variable(node: &AstNode, indent: &str, is_last: bool, out: &mut String)
    requires
        node is Variable,
    ensures
        final(out)@ == old(out)@ + render(node@, indent@, is_last),
    decreases node, 0int,
{
    match node {
        AstNode::Variable { name, .. } => {
            head_exec(out, indent, is_last);
            push_str(out, "Variable: ");
            push_str(out, name.as_str());
            push_str(out, "\n");
        },
        _ => {},
    }
}

/// Appends the drawing of `node` to `out`.
pub fn render_into(node: &AstNode, indent: &str, is_last: bool, out: &mut String)
    ensures
        final(out)@ == old(out)@ + render(node@, indent@, is_last),
    decreases node, 1int,
{
    match node {
        AstNode::Program(..) => render_program(node, indent, is_last, out),
        AstNode::Function { .. } => render_function(node, indent, is_last, out),
        AstNode::VarDecl { .. } => render_var_decl(node, indent, is_last, out),
        AstNode::Block(..) => render_block(node, indent, is_last, out),
        AstNode::AssignStmt { .. } => render_assign_stmt(node, indent, is_last, out),
        AstNode::IfStmt { .. } => render_if_stmt(node, indent, is_last, out),
        AstNode::WhileStmt { .. } => render_while_stmt(node, indent, is_last, out),
        AstNode::ReturnStmt { .. } => render_return_stmt(node, indent, is_last, out),
        AstNode::BinaryOp { .. } => render_binary_op(node, indent, is_last, out),
        AstNode::Literal { .. } => render_literal(node, indent, is_last, out),
        AstNode::Variable { .. } => render_variable(node, indent, is_last, out),
    }
}

/// The text that `print_ast` prints for `node`.
pub fn render_ast(node: &AstNode, indent: &str, is_last: bool) -> (s: String)
    ensures
        s@ == render(node@, indent@, is_last),
{
    let mut s = String::new();
    render_into(node, indent, is_last, &mut s);
    s
}

} // verus!
