//! The three kinds of equation, and how an equation finds its place in a
//! problem.

use crate::problem::Problem;
use crate::system::{Equation, System};
use vstd::prelude::*;

verus! {

/// What an equation demands, by the side on which the unknown stands. The
/// unknown is the first thing on its side; the literal words `(a, b)` are what
/// remains of the left and of the right side.
#[derive(Clone, Copy, Debug, PartialEq, Eq, Structural)]
pub enum EquationKind {
    /// The unknown stands on the left: the unknown followed by `a` begins
    /// with `b`.
    Subordinate,
    /// The unknown stands on the right: `a` begins with the unknown followed
    /// by `b`.
    Dominant,
    /// The unknown stands on neither side: `a` begins with `b`.
    Fixed,
}

/// The kind of an equation, from where the unknown stands. An equation with
/// the unknown on both sides is beyond the solver; only its literal words are
/// kept, as a fixed equation.
pub open spec fn kind_of(left_has_unknown: bool, right_has_unknown: bool) -> EquationKind {
    if left_has_unknown && !right_has_unknown {
        EquationKind::Subordinate
    } else if !left_has_unknown && right_has_unknown {
        EquationKind::Dominant
    } else {
        EquationKind::Fixed
    }
}

/// Tells the kind of an equation from where the unknown stands.
pub fn classify(left_has_unknown: bool, right_has_unknown: bool) -> (kind: EquationKind)
    ensures
        kind == kind_of(left_has_unknown, right_has_unknown),
{
    if left_has_unknown && !right_has_unknown {
        EquationKind::Subordinate
    } else if !left_has_unknown && right_has_unknown {
        EquationKind::Dominant
    } else {
        EquationKind::Fixed
    }
}

impl System {
    /// The system without any equation.
    pub open spec fn empty() -> System {
        System { subordinate: Seq::empty(), dominant: Seq::empty(), fixed: Seq::empty() }
    }

    /// The system with one more equation, last among those of its kind.
    pub open spec fn with_equation(self, kind: EquationKind, eq: Equation) -> System {
        match kind {
            EquationKind::Subordinate => System {
                subordinate: self.subordinate.push(eq),
                ..self
            },
            EquationKind::Dominant => System { dominant: self.dominant.push(eq), ..self },
            EquationKind::Fixed => System { fixed: self.fixed.push(eq), ..self },
        }
    }
}

impl Problem {
    /// A problem without any equation.
    pub fn empty() -> (r: Problem)
        ensures
            r@ == System::empty(),
    {
        let r = Problem {
            inferior_constraints: Vec::new(),
            superior_constraints: Vec::new(),
            constant_constraints: Vec::new(),
        };
        assert(r@.subordinate =~= Seq::<Equation>::empty());
        assert(r@.dominant =~= Seq::<Equation>::empty());
        assert(r@.fixed =~= Seq::<Equation>::empty());
        r
    }

    /// Adds the equation with the literal words `left` and `right` to those of
    /// its kind.
    pub fn add(&mut self, kind: EquationKind, left: Vec<i32>, right: Vec<i32>)
        ensures
            final(self)@ == old(self)@.with_equation(kind, (left@, right@)),
    {
        let ghost before = self@;
        match kind {
            EquationKind::Subordinate => {
                self.inferior_constraints.push((left, right));
                assert(self@.subordinate =~= before.subordinate.push((left@, right@)));
            },
            EquationKind::Dominant => {
                self.superior_constraints.push((left, right));
                assert(self@.dominant =~= before.dominant.push((left@, right@)));
            },
            EquationKind::Fixed => {
                self.constant_constraints.push((left, right));
                assert(self@.fixed =~= before.fixed.push((left@, right@)));
            },
        }
    }
}

} // verus!
