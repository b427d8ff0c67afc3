//! The equation system as the solver holds it, and the solver itself.

use crate::correctness::{solution_properties, theorem_solution_properties};
use crate::heads::{lemma_resolve_insert, resolve, Heads};
use crate::system::{
    advance_dominant, advance_subordinate, candidate_heads, dominant_holds, fixed_holds,
    lemma_advance_dominant_push, lemma_advance_subordinate_push, lemma_empty_assignment,
    lemma_heads_push_dominant, lemma_heads_push_subordinate, subordinate_holds,
    Candidate, Equation, System,
};
use crate::word::{begins_with, starts_with, suffix_from};
use std::collections::VecDeque;
use vstd::prelude::*;

verus! {

/// An equation system in one unknown, its equations sorted by kind. Each
/// equation is a pair of literal words `(a, b)`.
pub struct Problem {
    /// Subordinate equations: the unknown followed by `a` begins with `b`.
    pub inferior_constraints: Vec<(Vec<i32>, Vec<i32>)>,
    /// Dominant equations: `a` begins with the unknown followed by `b`.
    pub superior_constraints: Vec<(Vec<i32>, Vec<i32>)>,
    /// Fixed equations: `a` begins with `b`.
    pub constant_constraints: Vec<(Vec<i32>, Vec<i32>)>,
}

/// The equations that a list of pairs of vectors holds.
pub open spec fn equations_view(eqs: Seq<(Vec<i32>, Vec<i32>)>) -> Seq<Equation> {
    eqs.map_values(|e: (Vec<i32>, Vec<i32>)| (e.0@, e.1@))
}

/// The candidates that a list of solver results holds.
pub open spec fn candidates_view(cs: Seq<(VecDeque<i32>, bool)>) -> Seq<Candidate> {
    cs.map_values(|c: (VecDeque<i32>, bool)| (c.0@, c.1))
}

impl View for Problem {
    type V = System;

    open spec fn view(&self) -> System {
        System {
            subordinate: equations_view(self.inferior_constraints@),
            dominant: equations_view(self.superior_constraints@),
            fixed: equations_view(self.constant_constraints@),
        }
    }
}

/// The index of the first pair `(a, b)` in which `a` does not begin with `b`.
pub fn first_violation(eqs: &Vec<(Vec<i32>, Vec<i32>)>) -> (r: Option<usize>)
    ensures
        match r {
            Some(i) => {
                &&& i < eqs.len()
                &&& !begins_with(eqs[i as int].0@, eqs[i as int].1@)
                &&& forall|j: int| 0 <= j < i ==> begins_with(eqs[j].0@, eqs[j].1@)
            },
            None => forall|j: int| 0 <= j < eqs.len() ==> begins_with(eqs[j].0@, eqs[j].1@),
        },
{
    let mut i: usize = 0;
    while i < eqs.len()
        invariant
            i <= eqs.len(),
            forall|j: int| 0 <= j < i ==> begins_with(eqs[j].0@, eqs[j].1@),
        decreases eqs.len() - i,
    {
        if !starts_with(&eqs[i].0, &eqs[i].1) {
            return Some(i);
        }
        i += 1;
    }
    None
}

/// How solving a problem ends.
#[derive(Debug, PartialEq, Eq)]
pub enum Verdict {
    /// A fixed equation is violated, so nothing solves the problem whatever
    /// the unknown is. Holds the index of the first such equation among the
    /// fixed ones.
    NeverSatisfied(usize),
    /// Every fixed equation holds. Holds the solution set.
    Solved(Vec<(VecDeque<i32>, bool)>),
}

impl Problem {
    /// A problem made of the three lists of equations.
    pub fn new(
        inferior_constraints: Vec<(Vec<i32>, Vec<i32>)>,
        superior_constraints: Vec<(Vec<i32>, Vec<i32>)>,
        constant_constraints: Vec<(Vec<i32>, Vec<i32>)>,
    ) -> (r: Problem)
        ensures
            r.inferior_constraints == inferior_constraints,
            r.superior_constraints == superior_constraints,
            r.constant_constraints == constant_constraints,
    {
        Problem { inferior_constraints, superior_constraints, constant_constraints }
    }

    /// Checks the fixed equations and, where they all hold, solves for the
    /// unknown. A violated fixed equation ends the work before any solving:
    /// the verdict names the first one.
    pub fn solve(&self) -> (v: Verdict)
        ensures
            v is NeverSatisfied <==> !self@.fixed_part_holds(),
            match v {
                Verdict::NeverSatisfied(i) => self@.first_violated_at(i as int),
                Verdict::Solved(cs) => {
                    &&& candidates_view(cs@) == self@.solutions()
                    &&& self@.solved_by(candidates_view(cs@))
                    &&& forall|k: int|
                        0 <= k < cs.len() && !(#[trigger] candidates_view(cs@)[k]).1
                            ==> self@.satisfied_by(candidates_view(cs@)[k].0)
                    &&& forall|k: int, tail: Seq<i32>|
                        0 <= k < cs.len() && (#[trigger] candidates_view(cs@)[k]).1
                            ==> #[trigger] self@.satisfied_by(candidates_view(cs@)[k].0 + tail)
                },
            },
    {
        let ghost sys = self@;
        match first_violation(&self.constant_constraints) {
            Some(i) => {
                assert(!fixed_holds(sys.fixed[i as int]));
                Verdict::NeverSatisfied(i)
            },
            None => {
                let cs = self.solve_impl();
                Verdict::Solved(cs)
            },
        }
    }

    /// Whether the empty word satisfies every subordinate and every dominant
    /// equation. The fixed equations take no part in this.
    pub fn is_empty_satisfiable(&self) -> (r: bool)
        ensures
            r == self@.empty_satisfiable(),
    {
        let ghost sys = self@;
        proof {
            assert forall|i: int| 0 <= i < sys.subordinate.len() implies subordinate_holds(
                #[trigger] sys.subordinate[i],
                Seq::empty(),
            ) == begins_with(
                self.inferior_constraints[i].0@,
                self.inferior_constraints[i].1@,
            ) by {
                lemma_empty_assignment(sys.subordinate[i]);
            }
            assert forall|i: int| 0 <= i < sys.dominant.len() implies dominant_holds(
                #[trigger] sys.dominant[i],
                Seq::empty(),
            ) == begins_with(
                self.superior_constraints[i].0@,
                self.superior_constraints[i].1@,
            ) by {
                lemma_empty_assignment(sys.dominant[i]);
            }
        }
        match first_violation(&self.inferior_constraints) {
            Some(i) => {
                assert(!subordinate_holds(sys.subordinate[i as int], Seq::empty()));
                false
            },
            None => match first_violation(&self.superior_constraints) {
                Some(i) => {
                    assert(!dominant_holds(sys.dominant[i as int], Seq::empty()));
                    false
                },
                None => true,
            },
        }
    }

    /// The solution set of the subordinate and dominant equations: the classes
    /// of values of the unknown that satisfy all of them. The fixed equations
    /// take no part in this.
    ///
    /// The result is a function of the equations alone, so solving the same
    /// problem again gives the same solution set. It stands for exactly the
    /// solutions: a prefix without an arbitrary tail is one as it stands, a
    /// prefix with an arbitrary tail is one whatever follows it, and no
    /// solution is left out.
    pub fn solve_impl(&self) -> (ret: Vec<(VecDeque<i32>, bool)>)
        ensures
            candidates_view(ret@) == self@.solutions(),
            self@.variable_part_solved_by(candidates_view(ret@)),
            forall|k: int|
                0 <= k < ret.len() && !(#[trigger] candidates_view(ret@)[k]).1
                    ==> self@.variable_part_satisfied_by(candidates_view(ret@)[k].0),
            forall|k: int, tail: Seq<i32>|
                0 <= k < ret.len() && (#[trigger] candidates_view(ret@)[k]).1
                    ==> #[trigger] self@.variable_part_satisfied_by(
                    candidates_view(ret@)[k].0 + tail,
                ),
        decreases self@.remaining(),
    {
        let ghost sys = self@;
        proof {
            theorem_solution_properties(sys);
        }
        let mut ret: Vec<(VecDeque<i32>, bool)> = Vec::new();
        if self.is_empty_satisfiable() {
            ret.push((VecDeque::new(), false));
        }

        let mut heads = Heads::Unconstrained;
        let mut next_inferior_constraints: Vec<(Vec<i32>, Vec<i32>)> = Vec::new();
        let mut i: usize = 0;
        assert(advance_subordinate(Seq::<Equation>::empty()) =~= Seq::<Equation>::empty()) by {
            reveal(Seq::filter);
        }
        assert(sys.subordinate.take(0) =~= Seq::<Equation>::empty());
        while i < self.inferior_constraints.len()
            invariant
                sys == self@,
                i <= self.inferior_constraints.len(),
                equations_view(next_inferior_constraints@) == advance_subordinate(
                    sys.subordinate.take(i as int),
                ),
                heads == resolve(
                    candidate_heads(sys.subordinate.take(i as int), Seq::<Equation>::empty()),
                ),
            decreases self.inferior_constraints.len() - i,
        {
            let left = &self.inferior_constraints[i].0;
            let right = &self.inferior_constraints[i].1;
            let ghost seen = sys.subordinate.take(i as int);
            let ghost eq = sys.subordinate[i as int];
            proof {
                assert(sys.subordinate.take(i + 1) =~= seen.push(eq));
                lemma_advance_subordinate_push(seen, eq);
                lemma_heads_push_subordinate(seen, Seq::<Equation>::empty(), eq);
            }
            if right.len() > 0 {
                let head = right[0];
                proof {
                    lemma_resolve_insert(
                        candidate_heads(seen, Seq::<Equation>::empty()),
                        head,
                    );
                }
                heads = heads.record(head);
                let shorter = (suffix_from(left, 0), suffix_from(right, 1));
                next_inferior_constraints.push(shorter);
                assert(shorter.0@ =~= eq.0);
            }
            i += 1;
        }
        assert(sys.subordinate.take(i as int) =~= sys.subordinate);

        let mut next_superior_constraints: Vec<(Vec<i32>, Vec<i32>)> = Vec::new();
        let mut j: usize = 0;
        assert(sys.dominant.take(0) =~= Seq::<Equation>::empty());
        while j < self.superior_constraints.len()
            invariant
                sys == self@,
                j <= self.superior_constraints.len(),
                forall|k: int| 0 <= k < j ==> (#[trigger] sys.dominant[k]).0.len() > 0,
                equations_view(next_superior_constraints@) == advance_dominant(
                    sys.dominant.take(j as int),
                ),
                heads == resolve(candidate_heads(sys.subordinate, sys.dominant.take(j as int))),
                candidates_view(ret@) == sys.empty_solution(),
                solution_properties(sys, sys.solutions()),
            decreases self.superior_constraints.len() - j,
        {
            let left = &self.superior_constraints[j].0;
            let right = &self.superior_constraints[j].1;
            let ghost seen = sys.dominant.take(j as int);
            let ghost eq = sys.dominant[j as int];
            proof {
                assert(sys.dominant.take(j + 1) =~= seen.push(eq));
                lemma_advance_dominant_push(seen, eq);
                lemma_heads_push_dominant(sys.subordinate, seen, eq);
            }
            if left.len() > 0 {
                let head = left[0];
                proof {
                    lemma_resolve_insert(candidate_heads(sys.subordinate, seen), head);
                }
                heads = heads.record(head);
                let shorter = (suffix_from(left, 1), suffix_from(right, 0));
                next_superior_constraints.push(shorter);
                assert(shorter.1@ =~= eq.1);
            } else {
                return ret;
            }
            j += 1;
        }
        assert(sys.dominant.take(j as int) =~= sys.dominant);

        match heads {
            Heads::Unconstrained => {
                let mut free: Vec<(VecDeque<i32>, bool)> = Vec::new();
                free.push((VecDeque::new(), true));
                free
            },
            Heads::Forced(head) => {
                let next = Problem {
                    inferior_constraints: next_inferior_constraints,
                    superior_constraints: next_superior_constraints,
                    constant_constraints: Vec::new(),
                };
                proof {
                    assert(next@.fixed =~= Seq::<Equation>::empty());
                    sys.lemma_reduced_is_smaller();
                }
                let mut tmp = next.solve_impl();
                let ghost found = tmp@;
                let mut k: usize = 0;
                while k < tmp.len()
                    invariant
                        k <= tmp.len(),
                        tmp.len() == found.len(),
                        forall|n: int|
                            0 <= n < k ==> (#[trigger] tmp@[n]).0@ == seq![head] + found[n].0@
                                && tmp@[n].1 == found[n].1,
                        forall|n: int| k <= n < tmp.len() ==> tmp@[n] == found[n],
                    decreases tmp.len() - k,
                {
                    tmp[k].0.push_front(head);
                    k += 1;
                }
                ret.append(&mut tmp);
                ret
            },
            Heads::Conflict => ret,
        }
    }
}

} // verus!
