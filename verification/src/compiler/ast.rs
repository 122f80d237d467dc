//! The typed syntax tree of the full pipeline and its mathematical view.
use vstd::prelude::*;

verus! {

#[derive(Debug, Clone, Copy, PartialEq, Eq, Structural)]
pub enum DataType {
    Int,
    Float,
    Void,
    Char,
    Bool,
    Unknown,
}

/// The name that `Debug` prints for a data type.
pub open spec fn data_type_name(d: DataType) -> Seq<char> {
    match d {
        DataType::Int => "Int"@,
        DataType::Float => "Float"@,
        DataType::Void => "Void"@,
        DataType::Char => "Char"@,
        DataType::Bool => "Bool"@,
        DataType::Unknown => "Unknown"@,
    }
}

impl DataType {
    pub fn name(&self) -> (s: &'static str)
        ensures
            s@ == data_type_name(*self),
    {
        match self {
            DataType::Int => "Int",
            DataType::Float => "Float",
            DataType::Void => "Void",
            DataType::Char => "Char",
            DataType::Bool => "Bool",
            DataType::Unknown => "Unknown",
        }
    }
}

#[derive(Debug)]
pub enum AstNode {
    Program(Vec<AstNode>),
    Function { name: String, return_type: DataType, body: Box<AstNode>, line: usize },
    VarDecl { name: String, data_type: DataType, value: Option<Box<AstNode>>, line: usize },
    Block(Vec<AstNode>),
    AssignStmt { left: String, right: Box<AstNode>, line: usize },
    IfStmt {
        condition: Box<AstNode>,
        then_block: Box<AstNode>,
        else_block: Option<Box<AstNode>>,
        line: usize,
    },
    WhileStmt { condition: Box<AstNode>, body: Box<AstNode>, line: usize },
    ReturnStmt { value: Box<AstNode>, line: usize },
    BinaryOp { left: Box<AstNode>, op: String, right: Box<AstNode>, line: usize },
    Literal { value: String, data_type: DataType, line: usize },
    Variable { name: String, line: usize },
}

/// A syntax tree with its texts as characters.
pub enum AstV {
    Program(Seq<AstV>),
    Function { name: Seq<char>, return_type: DataType, body: Box<AstV>, line: usize },
    VarDecl { name: Seq<char>, data_type: DataType, value: Option<Box<AstV>>, line: usize },
    Block(Seq<AstV>),
    AssignStmt { left: Seq<char>, right: Box<AstV>, line: usize },
    IfStmt { condition: Box<AstV>, then_block: Box<AstV>, else_block: Option<Box<AstV>>, line: usize },
    WhileStmt { condition: Box<AstV>, body: Box<AstV>, line: usize },
    ReturnStmt { value: Box<AstV>, line: usize },
    BinaryOp { left: Box<AstV>, op: Seq<char>, right: Box<AstV>, line: usize },
    Literal { value: Seq<char>, data_type: DataType, line: usize },
    Variable { name: Seq<char>, line: usize },
}

impl AstNode {
    pub open spec fn views(nodes: Seq<AstNode>) -> Seq<AstV>
        decreases nodes,
    {
        if nodes.len() == 0 {
            Seq::empty()
        } else {
            Self::views(nodes.subrange(0, nodes.len() - 1)).push(nodes[nodes.len() - 1].v())
        }
    }

    pub open spec fn v(&self) -> AstV
        decreases self,
    {
        match self {
            AstNode::Program(ns) => AstV::Program(Self::views(ns@)),
            AstNode::Function { name, return_type, body, line } => AstV::Function {
                name: name@,
                return_type: *return_type,
                body: Box::new(body.v()),
                line: *line,
            },
            AstNode::VarDecl { name, data_type, value, line } => AstV::VarDecl {
                name: name@,
                data_type: *data_type,
                value: match value {
                    Some(b) => Some(Box::new(b.v())),
                    None => None,
                },
                line: *line,
            },
            AstNode::Block(ns) => AstV::Block(Self::views(ns@)),
            AstNode::AssignStmt { left, right, line } => AstV::AssignStmt {
                left: left@,
                right: Box::new(right.v()),
                line: *line,
            },
            AstNode::IfStmt { condition, then_block, else_block, line } => AstV::IfStmt {
                condition: Box::new(condition.v()),
                then_block: Box::new(then_block.v()),
                else_block: match else_block {
                    Some(b) => Some(Box::new(b.v())),
                    None => None,
                },
                line: *line,
            },
            AstNode::WhileStmt { condition, body, line } => AstV::WhileStmt {
                condition: Box::new(condition.v()),
                body: Box::new(body.v()),
                line: *line,
            },
            AstNode::ReturnStmt { value, line } => AstV::ReturnStmt {
                value: Box::new(value.v()),
                line: *line,
            },
            AstNode::BinaryOp { left, op, right, line } => AstV::BinaryOp {
                left: Box::new(left.v()),
                op: op@,
                right: Box::new(right.v()),
                line: *line,
            },
            AstNode::Literal { value, data_type, line } => AstV::Literal {
                value: value@,
                data_type: *data_type,
                line: *line,
            },
            AstNode::Variable { name, line } => AstV::Variable { name: name@, line: *line },
        }
    }

    pub proof fn lemma_views_push(nodes: Seq<AstNode>, n: AstNode)
        ensures
            Self::views(nodes.push(n)) == Self::views(nodes).push(n.v()),
    {
        assert(nodes.push(n).subrange(0, nodes.len() as int) == nodes);
    }

    pub proof fn lemma_views_index(nodes: Seq<AstNode>)
        ensures
            Self::views(nodes).len() == nodes.len(),
            forall|i: int| 0 <= i < nodes.len() ==> #[trigger] Self::views(nodes)[i] == nodes[i].v(),
        decreases nodes.len(),
    {
        if nodes.len() > 0 {
            let front = nodes.subrange(0, nodes.len() - 1);
            Self::lemma_views_index(front);
            assert forall|i: int| 0 <= i < nodes.len() implies #[trigger] Self::views(nodes)[i]
                == nodes[i].v() by {
                if i < nodes.len() - 1 {
                    assert(front[i] == nodes[i]);
                }
            }
        }
    }
}

impl AstNode {
    /// A copy of the whole tree.
    pub fn copy(&self) -> (c: AstNode)
        ensures
            c@ == self@,
        decreases self,
    {
        match self {
            AstNode::Program(ns) => AstNode::Program(copy_nodes(self, ns)),
            AstNode::Block(ns) => AstNode::Block(copy_nodes(self, ns)),
            AstNode::Function { name, return_type, body, line } => AstNode::Function {
                name: name.clone(),
                return_type: *return_type,
                body: Box::new(body.copy()),
                line: *line,
            },
            AstNode::VarDecl { name, data_type, value, line } => AstNode::VarDecl {
                name: name.clone(),
                data_type: *data_type,
                value: match value {
                    Some(b) => Some(Box::new(b.copy())),
                    None => None,
                },
                line: *line,
            },
            AstNode::AssignStmt { left, right, line } => AstNode::AssignStmt {
                left: left.clone(),
                right: Box::new(right.copy()),
                line: *line,
            },
            AstNode::IfStmt { condition, then_block, else_block, line } => AstNode::IfStmt {
                condition: Box::new(condition.copy()),
                then_block: Box::new(then_block.copy()),
                else_block: match else_block {
                    Some(b) => Some(Box::new(b.copy())),
                    None => None,
                },
                line: *line,
            },
            AstNode::WhileStmt { condition, body, line } => AstNode::WhileStmt {
                condition: Box::new(condition.copy()),
                body: Box::new(body.copy()),
                line: *line,
            },
            AstNode::ReturnStmt { value, line } => AstNode::ReturnStmt {
                value: Box::new(value.copy()),
                line: *line,
            },
            AstNode::BinaryOp { left, op, right, line } => AstNode::BinaryOp {
                left: Box::new(left.copy()),
                op: op.clone(),
                right: Box::new(right.copy()),
                line: *line,
            },
            AstNode::Literal { value, data_type, line } => AstNode::Literal {
                value: value.clone(),
                data_type: *data_type,
                line: *line,
            },
            AstNode::Variable { name, line } => AstNode::Variable { name: name.clone(), line: *line },
        }
    }
}

/// Copies of the children `ns` of `parent`.
fn copy_nodes(parent: &AstNode, ns: &Vec<AstNode>) -> (r: Vec<AstNode>)
    requires
        *parent == AstNode::Program(*ns) || *parent == AstNode::Block(*ns),
    ensures
        AstNode::views(r@) == AstNode::views(ns@),
    decreases parent, 0int,
{
    proof {
        AstNode::lemma_views_index(ns@);
    }
    let mut r: Vec<AstNode> = Vec::new();
    let mut i: usize = 0;
    while i < ns.len()
        invariant
            i <= ns@.len(),
            *parent == AstNode::Program(*ns) || *parent == AstNode::Block(*ns),
            AstNode::views(r@) == AstNode::views(ns@.take(i as int)),
        decreases ns.len() - i,
    {
        proof {
            let v = ns@;
            assert(decreases_to!(v => v[i as int]));
            match parent {
                AstNode::Program(m) => {
                    assert(decreases_to!(*m => m@));
                    assert(decreases_to!(parent => *m));
                },
                AstNode::Block(m) => {
                    assert(decreases_to!(*m => m@));
                    assert(decreases_to!(parent => *m));
                },
                _ => {},
            }
        }
        let c = ns[i].copy();
        proof {
            AstNode::lemma_views_push(r@, c);
            AstNode::lemma_views_push(ns@.take(i as int), ns@[i as int]);
            assert(ns@.take(i + 1) == ns@.take(i as int).push(ns@[i as int]));
        }
        r.push(c);
        i += 1;
    }
    assert(ns@.take(ns@.len() as int) == ns@);
    r
}

impl Clone for AstNode {
    fn clone(&self) -> (c: Self)
        ensures
            c@ == self@,
    {
        self.copy()
    }
}

impl View for AstNode {
    type V = AstV;

    open spec fn view(&self) -> AstV {
        self.v()
    }
}

} // verus!
