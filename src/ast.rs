use vstd::prelude::*;

verus! {

/// A binary operator of an expression.
#[derive(Debug, Clone, Copy, PartialEq, Eq, Structural)]
pub enum SQLOperator {
    EQ,
    NEQ,
    LT,
    LTEQ,
    GT,
    GTEQ,
    PLUS,
    MINUS,
    MULT,
    DIV,
}

/// A node of the syntax tree; each node owns its children.
#[derive(Debug, PartialEq)]
pub enum ASTNode {
    SQLSelect {
        projection: Vec<ASTNode>,
        selection: Option<Box<ASTNode>>,
        relation: Option<Box<ASTNode>>,
        limit: Option<Box<ASTNode>>,
        order: Option<Box<ASTNode>>,
    },
    SQLIdentifier { id: String, parts: Vec<String> },
    SQLFunction { id: String, args: Vec<ASTNode> },
    SQLBinaryExpr { left: Box<ASTNode>, op: SQLOperator, right: Box<ASTNode> },
    SQLLiteralInt(i64),
}

/// The mathematical value of a syntax tree.
pub enum Ast {
    Select {
        projection: Seq<Ast>,
        selection: Option<Box<Ast>>,
        relation: Option<Box<Ast>>,
        limit: Option<Box<Ast>>,
        order: Option<Box<Ast>>,
    },
    Identifier { name: Seq<char>, parts: Seq<Seq<char>> },
    Function { name: Seq<char>, args: Seq<Ast> },
    Binary { left: Box<Ast>, op: SQLOperator, right: Box<Ast> },
    Int(int),
}

/// The model of an optional child.
pub open spec fn opt_view(o: Option<Box<ASTNode>>) -> Option<Box<Ast>>
    decreases o,
{
    match o {
        Some(b) => Some(Box::new(node_view(*b))),
        None => None,
    }
}

/// The models of a list of nodes.
pub open spec fn nodes_view(v: Vec<ASTNode>) -> Seq<Ast>
    decreases v,
{
    Seq::new(
        v@.len(),
        |i: int|
            if 0 <= i < v@.len() {
                node_view(v@[i])
            } else {
                Ast::Int(0)
            },
    )
}

/// The model of a node.
pub open spec fn node_view(n: ASTNode) -> Ast
    decreases n,
{
    match n {
        ASTNode::SQLSelect { projection, selection, relation, limit, order } => Ast::Select {
            projection: nodes_view(projection),
            selection: opt_view(selection),
            relation: opt_view(relation),
            limit: opt_view(limit),
            order: opt_view(order),
        },
        ASTNode::SQLIdentifier { id, parts } => Ast::Identifier {
            name: id@,
            parts: parts@.map_values(|p: String| p@),
        },
        ASTNode::SQLFunction { id, args } => Ast::Function { name: id@, args: nodes_view(args) },
        ASTNode::SQLBinaryExpr { left, op, right } => Ast::Binary {
            left: Box::new(node_view(*left)),
            op,
            right: Box::new(node_view(*right)),
        },
        ASTNode::SQLLiteralInt(v) => Ast::Int(v as int),
    }
}

impl View for ASTNode {
    type V = Ast;

    open spec fn view(&self) -> Ast {
        node_view(*self)
    }
}

} // verus!
