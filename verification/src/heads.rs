//! The candidate heads of one solving step: the symbols that the equations
//! demand as the next symbol of the unknown, known only as far as the solver
//! needs them.

use vstd::prelude::*;

verus! {

/// What a set of candidate heads means for the next symbol of the unknown.
#[derive(Clone, Copy, Debug, PartialEq, Eq, Structural)]
pub enum Heads {
    /// No equation demands a next symbol.
    Unconstrained,
    /// Every demand is for this one symbol.
    Forced(i32),
    /// Two equations demand different symbols.
    Conflict,
}

/// The meaning of a set of candidate heads: empty, one distinct symbol, or
/// two or more distinct symbols.
pub open spec fn resolve(heads: Set<i32>) -> Heads {
    if forall|a: i32| !heads.contains(a) {
        Heads::Unconstrained
    } else if forall|a: i32, b: i32| heads.contains(a) && heads.contains(b) ==> a == b {
        Heads::Forced(choose|a: i32| heads.contains(a))
    } else {
        Heads::Conflict
    }
}

/// Adding a symbol to a set of heads changes its meaning as `record` computes.
pub proof fn lemma_resolve_insert(heads: Set<i32>, head: i32)
    ensures
        resolve(heads.insert(head)) == resolve(heads).recorded(head),
{
    let grown = heads.insert(head);
    assert(grown.contains(head));
    match resolve(heads) {
        Heads::Unconstrained => {},
        Heads::Forced(only) => {
            assert(grown.contains(only));
        },
        Heads::Conflict => {
            let (a, b) = choose|a: i32, b: i32| heads.contains(a) && heads.contains(b) && a != b;
            assert(grown.contains(a) && grown.contains(b));
        },
    }
}

impl Heads {
    /// The meaning of the heads after one more demand, for the symbol `head`.
    pub open spec fn recorded(self, head: i32) -> Heads {
        match self {
            Heads::Unconstrained => Heads::Forced(head),
            Heads::Forced(only) => if only == head {
                Heads::Forced(only)
            } else {
                Heads::Conflict
            },
            Heads::Conflict => Heads::Conflict,
        }
    }

    /// Records one more demand, for the symbol `head`.
    pub fn record(self, head: i32) -> (r: Heads)
        ensures
            r == self.recorded(head),
    {
        match self {
            Heads::Unconstrained => Heads::Forced(head),
            Heads::Forced(only) => if only == head {
                Heads::Forced(only)
            } else {
                Heads::Conflict
            },
            Heads::Conflict => Heads::Conflict,
        }
    }
}

} // verus!
