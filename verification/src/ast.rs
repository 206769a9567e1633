//! The syntax tree: expressions, prototypes, statements and programs, each
//! with the mathematical value it stands for.

use vstd::prelude::*;
use crate::model::Modeled;

verus! {

/// What an expression stands for. Names are the bytes of their text; a number
/// is the bit pattern of its IEEE-754 double.
pub enum ExprModel {
    Number(u64),
    Variable(Seq<u8>),
    Infix(Box<ExprModel>, char, Box<ExprModel>),
    Call(Seq<u8>, Seq<ExprModel>),
}

/// What a prototype stands for: a name and the names of the parameters.
pub struct PrototypeModel {
    pub name: Seq<u8>,
    pub parameters: Seq<Seq<u8>>,
}

/// What a statement stands for.
pub enum StatementModel {
    Function(PrototypeModel, ExprModel),
    Extern(PrototypeModel),
    Expression(ExprModel),
}

/// An expression.
///
/// `Number` holds the bit pattern of an IEEE-754 double, so that the sign of
/// zero survives and equality is exact. `Infix` is reserved for a later
/// operator grammar: no rule of this crate builds one.
#[derive(Debug, PartialEq, Eq)]
pub enum Expr {
    Number(u64),
    Variable(String),
    Infix(Box<Expr>, char, Box<Expr>),
    Call(String, Vec<Expr>),
}

/// The name of a function and the names of its parameters.
#[derive(Debug, PartialEq, Eq)]
pub struct Prototype(pub String, pub Vec<String>);

/// One top-level item of a program.
#[derive(Debug, PartialEq, Eq)]
pub enum Statement {
    Function(Prototype, Expr),
    Extern(Prototype),
    Expression(Expr),
}

/// A whole program: its statements in source order.
#[derive(Debug, PartialEq, Eq)]
pub struct Program(pub Vec<Statement>);

impl Expr {
    /// The mathematical tree that this expression stands for.
    pub open spec fn tree(self) -> ExprModel
        decreases self,
    {
        match self {
            Expr::Number(bits) => ExprModel::Number(bits),
            Expr::Variable(name) => ExprModel::Variable(name.model()),
            Expr::Infix(left, op, right) => ExprModel::Infix(
                Box::new(left.tree()),
                op,
                Box::new(right.tree()),
            ),
            Expr::Call(callee, arguments) => ExprModel::Call(
                callee.model(),
                Seq::new(
                    arguments@.len(),
                    |i: int|
                        if 0 <= i < arguments@.len() {
                            arguments@[i].tree()
                        } else {
                            ExprModel::Number(0)
                        },
                ),
            ),
        }
    }
}

impl Modeled for Expr {
    type Model = ExprModel;

    open spec fn model(&self) -> ExprModel {
        self.tree()
    }
}

impl Modeled for Prototype {
    type Model = PrototypeModel;

    open spec fn model(&self) -> PrototypeModel {
        PrototypeModel { name: self.0.model(), parameters: self.1.model() }
    }
}

impl Modeled for Statement {
    type Model = StatementModel;

    open spec fn model(&self) -> StatementModel {
        match self {
            Statement::Function(prototype, body) => StatementModel::Function(
                prototype.model(),
                body.model(),
            ),
            Statement::Extern(prototype) => StatementModel::Extern(prototype.model()),
            Statement::Expression(expr) => StatementModel::Expression(expr.model()),
        }
    }
}

impl Modeled for Program {
    type Model = Seq<StatementModel>;

    open spec fn model(&self) -> Seq<StatementModel> {
        self.0.model()
    }
}

/// A call stands for its callee's bytes and its arguments' models.
pub proof fn lemma_call_model(callee: String, arguments: Vec<Expr>)
    ensures
        Expr::Call(callee, arguments).model() == ExprModel::Call(
            callee.model(),
            arguments.model(),
        ),
{
    let direct = Expr::Call(callee, arguments).tree();
    assert(direct->Call_1 =~= arguments.model());
}

} // verus!
