use vstd::prelude::*;

use crate::token::Token;
use crate::types::Type;

verus! {

/// A binary operator.
#[derive(Debug, PartialEq, Eq, Clone, Copy, Structural)]
pub enum OpKind {
    Addition,
    Subtraction,
    Multiplication,
    Division,
}

/// An expression.
#[derive(Debug, PartialEq)]
pub enum Value {
    Integer(String),
    Identifier(String),
    BinaryExpr { left: Box<Value>, op: OpKind, right: Box<Value>, evaluated_ty: Option<Type> },
    /// `+x`, the absolute value of `x`.
    Absolute(Box<Value>),
    /// `-x`.
    Negate(Box<Value>),
}

impl Value {
    /// A copy of the expression.
    pub fn duplicate(&self) -> (r: Value)
        ensures
            r == *self,
        decreases self,
    {
        match self {
            Value::Integer(s) => Value::Integer(s.clone()),
            Value::Identifier(s) => Value::Identifier(s.clone()),
            Value::BinaryExpr { left, op, right, evaluated_ty } => Value::BinaryExpr {
                left: Box::new((**left).duplicate()),
                op: *op,
                right: Box::new((**right).duplicate()),
                evaluated_ty: *evaluated_ty,
            },
            Value::Absolute(v) => Value::Absolute(Box::new((**v).duplicate())),
            Value::Negate(v) => Value::Negate(Box::new((**v).duplicate())),
        }
    }
}

#[derive(Debug, PartialEq, Eq, Clone, Copy, Structural)]
pub enum Mutability {
    /// Immutable, at run time.
    Immutable,
    /// Immutable, a constant.
    Const,
    /// Mutable, visible in the file where the program starts.
    Mutable,
}

/// What is known of a variable besides its name, type and value.
#[derive(Debug, PartialEq, Eq, Clone, Copy, Structural)]
pub struct VariableDescriptor {
    mutability: Mutability,
    evaluated_type: Option<Type>,
}

impl VariableDescriptor {
    pub closed spec fn mutability_spec(&self) -> Mutability {
        self.mutability
    }

    pub closed spec fn evaluated_type_spec(&self) -> Option<Type> {
        self.evaluated_type
    }

    /// The descriptor with the given mutability and no evaluated type.
    pub closed spec fn of(mutability: Mutability) -> Self {
        VariableDescriptor { mutability, evaluated_type: None }
    }

    pub proof fn lemma_of(mutability: Mutability)
        ensures
            Self::of(mutability).mutability_spec() == mutability,
            Self::of(mutability).evaluated_type_spec() is None,
    {
    }

    /// A descriptor with the given mutability and no evaluated type.
    pub fn default(mutability: Mutability) -> (r: Self)
        ensures
            r == Self::of(mutability),
            r.mutability_spec() == mutability,
            r.evaluated_type_spec() is None,
    {
        VariableDescriptor { mutability, evaluated_type: None }
    }

    pub fn mutability(&self) -> (r: Mutability)
        ensures
            r == self.mutability_spec(),
    {
        self.mutability
    }

    pub fn evaluated_type(&self) -> (r: Option<Type>)
        ensures
            r == self.evaluated_type_spec(),
    {
        self.evaluated_type
    }
}

#[derive(Debug, PartialEq)]
pub enum Statement {
    Variable(Variable),
}

impl Statement {
    /// A copy of the statement.
    pub fn duplicate(&self) -> (r: Statement)
        ensures
            r == *self,
    {
        match self {
            Statement::Variable(v) => Statement::Variable(v.duplicate()),
        }
    }
}

/// A variable declaration.
#[derive(Debug, PartialEq)]
pub struct Variable {
    pub ident: Token,
    pub ty: Option<Type>,
    pub value: Option<Value>,
    pub desc: VariableDescriptor,
}

impl Variable {
    pub fn new(ident: Token, ty: Option<Type>, value: Option<Value>, desc: VariableDescriptor) -> (r: Self)
        ensures
            r == (Variable { ident, ty, value, desc }),
    {
        Variable { ident, ty, value, desc }
    }

    /// A copy of the declaration.
    pub fn duplicate(&self) -> (r: Variable)
        ensures
            r == *self,
    {
        let value = match &self.value {
            Some(v) => Some(v.duplicate()),
            None => None,
        };
        Variable { ident: self.ident.duplicate(), ty: self.ty, value, desc: self.desc }
    }
}

} // verus!
