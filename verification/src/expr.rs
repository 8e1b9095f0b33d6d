//! Arithmetic expressions over `i32` and their evaluation.

use vstd::prelude::*;

verus! {

/// An arithmetic expression: a number, or the sum or the product of two
/// expressions.
pub enum MathOperation {
    Value(i32),
    Sum(Box<MathOperation>, Box<MathOperation>),
    Mul(Box<MathOperation>, Box<MathOperation>),
}

/// Things that have a name.
pub trait HasName {
    /// What the name says, as a sequence of characters.
    spec fn name_of(&self) -> Seq<char>;

    /// The name.
    fn name(&self) -> (r: &'static str)
        ensures
            r@ == self.name_of(),
    ;
}

impl HasName for MathOperation {
    /// The name of the outermost operation.
    open spec fn name_of(&self) -> Seq<char> {
        match self {
            MathOperation::Value(..) => "Value"@,
            MathOperation::Sum(..) => "Sum"@,
            MathOperation::Mul(..) => "Mul"@,
        }
    }

    fn name(&self) -> (r: &'static str) {
        match *self {
            MathOperation::Value(..) => "Value",
            MathOperation::Sum(..) => "Sum",
            MathOperation::Mul(..) => "Mul",
        }
    }
}

impl MathOperation {
    /// The number that the expression stands for.
    pub open spec fn value(&self) -> int
        decreases self,
    {
        match self {
            MathOperation::Value(i) => *i as int,
            MathOperation::Sum(left, right) => left.value() + right.value(),
            MathOperation::Mul(left, right) => left.value() * right.value(),
        }
    }

    /// The expression and every expression within it stand for a number
    /// that an `i32` can hold.
    pub open spec fn fits(&self) -> bool
        decreases self,
    {
        &&& i32::MIN <= self.value() <= i32::MAX
        &&& match self {
            MathOperation::Value(_) => true,
            MathOperation::Sum(left, right) => left.fits() && right.fits(),
            MathOperation::Mul(left, right) => left.fits() && right.fits(),
        }
    }

    /// Evaluates the expression, unless it or an expression within it
    /// stands for a number that no `i32` can hold.
    pub fn checked_solve(&self) -> (r: Option<i32>)
        ensures
            match r {
                Some(v) => self.fits() && v == self.value(),
                None => !self.fits(),
            },
        decreases self,
    {
        match *self {
            MathOperation::Value(i) => Some(i),
            MathOperation::Sum(ref left, ref right) => {
                match (left.checked_solve(), right.checked_solve()) {
                    (Some(a), Some(b)) => a.checked_add(b),
                    _ => None,
                }
            },
            MathOperation::Mul(ref left, ref right) => {
                match (left.checked_solve(), right.checked_solve()) {
                    (Some(a), Some(b)) => a.checked_mul(b),
                    _ => None,
                }
            },
        }
    }

    /// Evaluates the expression.
    pub fn solve(&self) -> (r: i32)
        requires
            self.fits(),
        ensures
            r == self.value(),
        decreases self,
    {
        match *self {
            MathOperation::Value(i) => i,
            MathOperation::Sum(ref left, ref right) => left.solve() + right.solve(),
            MathOperation::Mul(ref left, ref right) => left.solve() * right.solve(),
        }
    }
}

} // verus!
