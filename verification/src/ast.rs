//! Operators and shapes of the syntax tree that later passes print or
//! compare.

use vstd::prelude::*;

verus! {

#[derive(Debug, Clone, Copy, PartialEq, Eq, Structural)]
pub enum BinOperator {
    Add,
    Sub,
    Mul,
    Div,
    Mod,
    Gt,
    Lt,
    Ge,
    Le,
    Eq,
    Ne,
}

impl BinOperator {
    pub open spec fn spec_as_str(self) -> Seq<char> {
        match self {
            BinOperator::Add => "+"@,
            BinOperator::Sub => "-"@,
            BinOperator::Mul => "*"@,
            BinOperator::Div => "/"@,
            BinOperator::Mod => "%"@,
            BinOperator::Gt => ">"@,
            BinOperator::Lt => "<"@,
            BinOperator::Ge => ">="@,
            BinOperator::Le => "<="@,
            BinOperator::Eq => "=="@,
            BinOperator::Ne => "!="@,
        }
    }

    /// The operator as written in source.
    pub fn as_str(&self) -> (r: &'static str)
        ensures
            r@ == self.spec_as_str(),
    {
        match self {
            BinOperator::Add => "+",
            BinOperator::Sub => "-",
            BinOperator::Mul => "*",
            BinOperator::Div => "/",
            BinOperator::Mod => "%",
            BinOperator::Gt => ">",
            BinOperator::Lt => "<",
            BinOperator::Ge => ">=",
            BinOperator::Le => "<=",
            BinOperator::Eq => "==",
            BinOperator::Ne => "!=",
        }
    }
}

#[derive(Debug, Clone, Copy, PartialEq, Eq, Structural)]
pub enum UnOperator {
    Neg,
}

impl UnOperator {
    /// The operator as written in source.
    pub fn as_str(&self) -> (r: &'static str)
        ensures
            r@ == "-"@,
    {
        match self {
            UnOperator::Neg => "-",
        }
    }
}

/// How a variant is written. Used only to check that a construction or a
/// pattern is written like the declaration; fields are named in every
/// shape.
#[derive(Debug, Clone, Copy, PartialEq, Eq, Structural)]
pub enum VariantShape {
    Unit,
    Tuple,
    Struct,
}

impl VariantShape {
    pub open spec fn spec_as_str(self) -> Seq<char> {
        match self {
            VariantShape::Unit => "unit"@,
            VariantShape::Tuple => "tuple"@,
            VariantShape::Struct => "struct"@,
        }
    }

    pub fn as_str(&self) -> (r: &'static str)
        ensures
            r@ == self.spec_as_str(),
    {
        match self {
            VariantShape::Unit => "unit",
            VariantShape::Tuple => "tuple",
            VariantShape::Struct => "struct",
        }
    }
}

} // verus!
