//! The syntax tree of the syntax stage, its types kept as written, and its view.
use vstd::prelude::*;

verus! {

#[derive(Debug)]
pub enum AstNode {
    Program(Vec<AstNode>),
    Function { name: String, return_type: String, body: Box<AstNode> },
    VarDecl { name: String, data_type: String, value: Option<Box<AstNode>> },
    Block(Vec<AstNode>),
    AssignStmt { left: String, right: Box<AstNode> },
    IfStmt { condition: Box<AstNode>, then_block: Box<AstNode>, else_block: Option<Box<AstNode>> },
    WhileStmt { condition: Box<AstNode>, body: Box<AstNode> },
    ReturnStmt { value: Box<AstNode> },
    BinaryExpr { left: Box<AstNode>, op: String, right: Box<AstNode> },
    Literal(String),
    Identifier(String),
}

/// A syntax tree with its texts as characters.
pub enum AstV {
    Program(Seq<AstV>),
    Function { name: Seq<char>, return_type: Seq<char>, body: Box<AstV> },
    VarDecl { name: Seq<char>, data_type: Seq<char>, value: Option<Box<AstV>> },
    Block(Seq<AstV>),
    AssignStmt { left: Seq<char>, right: Box<AstV> },
    IfStmt { condition: Box<AstV>, then_block: Box<AstV>, else_block: Option<Box<AstV>> },
    WhileStmt { condition: Box<AstV>, body: Box<AstV> },
    ReturnStmt { value: Box<AstV> },
    BinaryExpr { left: Box<AstV>, op: Seq<char>, right: Box<AstV> },
    Literal(Seq<char>),
    Identifier(Seq<char>),
}

impl AstNode {
    pub open spec fn views(nodes: Seq<AstNode>) -> Seq<AstV>
        decreases nodes,
    {
        if nodes.len() == 0 {
            Seq::empty()
        } else {
            Self::views(nodes.subrange(0, nodes.len() - 1)).push(nodes[nodes.len() - 1].v())
        }
    }

    pub open spec fn v(&self) -> AstV
        decreases self,
    {
        match self {
            AstNode::Program(ns) => AstV::Program(Self::views(ns@)),
            AstNode::Function { name, return_type, body } => AstV::Function {
                name: name@,
                return_type: return_type@,
                body: Box::new(body.v()),
            },
            AstNode::VarDecl { name, data_type, value } => AstV::VarDecl {
                name: name@,
                data_type: data_type@,
                value: match value {
                    Some(b) => Some(Box::new(b.v())),
                    None => None,
                },
            },
            AstNode::Block(ns) => AstV::Block(Self::views(ns@)),
            AstNode::AssignStmt { left, right } => AstV::AssignStmt {
                left: left@,
                right: Box::new(right.v()),
            },
            AstNode::IfStmt { condition, then_block, else_block } => AstV::IfStmt {
                condition: Box::new(condition.v()),
                then_block: Box::new(then_block.v()),
                else_block: match else_block {
                    Some(b) => Some(Box::new(b.v())),
                    None => None,
                },
            },
            AstNode::WhileStmt { condition, body } => AstV::WhileStmt {
                condition: Box::new(condition.v()),
                body: Box::new(body.v()),
            },
            AstNode::ReturnStmt { value } => AstV::ReturnStmt { value: Box::new(value.v()) },
            AstNode::BinaryExpr { left, op, right } => AstV::BinaryExpr {
                left: Box::new(left.v()),
                op: op@,
                right: Box::new(right.v()),
            },
            AstNode::Literal(v) => AstV::Literal(v@),
            AstNode::Identifier(n) => AstV::Identifier(n@),
        }
    }

    pub proof fn lemma_views_push(nodes: Seq<AstNode>, n: AstNode)
        ensures
            Self::views(nodes.push(n)) == Self::views(nodes).push(n.v()),
    {
        assert(nodes.push(n).subrange(0, nodes.len() as int) == nodes);
    }

    pub proof fn lemma_views_index(nodes: Seq<AstNode>)
        ensures
            Self::views(nodes).len() == nodes.len(),
            forall|i: int| 0 <= i < nodes.len() ==> #[trigger] Self::views(nodes)[i] == nodes[i].v(),
        decreases nodes.len(),
    {
        if nodes.len() > 0 {
            let front = nodes.subrange(0, nodes.len() - 1);
            Self::lemma_views_index(front);
            assert forall|i: int| 0 <= i < nodes.len() implies #[trigger] Self::views(nodes)[i]
                == nodes[i].v() by {
                if i < nodes.len() - 1 {
                    assert(front[i] == nodes[i]);
                }
            }
        }
    }
}

impl View for AstNode {
    type V = AstV;

    open spec fn view(&self) -> AstV {
        self.v()
    }
}

} // verus!
