//! The mathematical model of an equation system, of what it means for a word
//! to solve it, and of the solution set that the solver computes.

use crate::heads::{resolve, Heads};
use crate::word::begins_with;
use vstd::prelude::*;

verus! {

/// A pair `(a, b)` of literal words. What it demands depends on its kind.
pub type Equation = (Seq<i32>, Seq<i32>);

/// One class of values of the unknown: a forced prefix, and whether any
/// continuation may follow it (`true`) or the prefix is the whole value
/// (`false`).
pub type Candidate = (Seq<i32>, bool);

/// A subordinate equation `(a, b)` holds for `x` when `x ++ a` begins with `b`.
pub open spec fn subordinate_holds(eq: Equation, x: Seq<i32>) -> bool {
    begins_with(x + eq.0, eq.1)
}

/// A dominant equation `(a, b)` holds for `x` when `a` begins with `x ++ b`.
pub open spec fn dominant_holds(eq: Equation, x: Seq<i32>) -> bool {
    begins_with(eq.0, x + eq.1)
}

/// A fixed equation `(a, b)` holds when `a` begins with `b`.
pub open spec fn fixed_holds(eq: Equation) -> bool {
    begins_with(eq.0, eq.1)
}

/// The word `x` belongs to the class that `c` stands for.
pub open spec fn represents(c: Candidate, x: Seq<i32>) -> bool {
    if c.1 {
        begins_with(x, c.0)
    } else {
        x == c.0
    }
}

/// The word `x` belongs to one of the classes in `cs`.
pub open spec fn covers(cs: Seq<Candidate>, x: Seq<i32>) -> bool {
    exists|k: int| 0 <= k < cs.len() && represents(#[trigger] cs[k], x)
}

/// The symbols that the equations demand as the first symbol of a non-empty
/// unknown: the first symbol of each non-empty right side of a subordinate
/// equation and of each non-empty left side of a dominant one.
pub open spec fn candidate_heads(subordinate: Seq<Equation>, dominant: Seq<Equation>) -> Set<i32> {
    Set::new(
        |h: i32|
            {
                ||| exists|i: int|
                    0 <= i < subordinate.len() && (#[trigger] subordinate[i]).1.len() > 0
                        && subordinate[i].1[0] == h
                ||| exists|i: int|
                    0 <= i < dominant.len() && (#[trigger] dominant[i]).0.len() > 0
                        && dominant[i].0[0] == h
            },
    )
}

/// The subordinate equations that remain once the unknown has given up its
/// first symbol: those with an empty right side are discharged, the others
/// lose the first symbol of their right side.
pub open spec fn advance_subordinate(eqs: Seq<Equation>) -> Seq<Equation> {
    eqs.filter(|e: Equation| e.1.len() > 0).map_values(|e: Equation| (e.0, e.1.skip(1)))
}

/// The dominant equations once the unknown has given up its first symbol: each
/// loses the first symbol of its left side.
pub open spec fn advance_dominant(eqs: Seq<Equation>) -> Seq<Equation> {
    eqs.map_values(|e: Equation| (e.0.skip(1), e.1))
}

/// The total length of the right sides.
pub open spec fn total_right(eqs: Seq<Equation>) -> nat
    decreases eqs.len(),
{
    if eqs.len() == 0 {
        0
    } else {
        total_right(eqs.drop_last()) + eqs.last().1.len()
    }
}

/// The total length of the left sides.
pub open spec fn total_left(eqs: Seq<Equation>) -> nat
    decreases eqs.len(),
{
    if eqs.len() == 0 {
        0
    } else {
        total_left(eqs.drop_last()) + eqs.last().0.len()
    }
}

/// Puts `head` in front of the prefix of every candidate.
pub open spec fn prepend_all(head: i32, cs: Seq<Candidate>) -> Seq<Candidate> {
    cs.map_values(|c: Candidate| (seq![head] + c.0, c.1))
}

/// An equation system in one unknown `X`: three lists of equations, by kind.
pub struct System {
    /// Equations `(a, b)` that read `X ++ a` begins with `b`.
    pub subordinate: Seq<Equation>,
    /// Equations `(a, b)` that read `a` begins with `X ++ b`.
    pub dominant: Seq<Equation>,
    /// Equations `(a, b)` that read `a` begins with `b`.
    pub fixed: Seq<Equation>,
}

impl System {
    /// Every equation that mentions the unknown holds for `x`.
    pub open spec fn variable_part_satisfied_by(self, x: Seq<i32>) -> bool {
        &&& forall|i: int|
            0 <= i < self.subordinate.len() ==> subordinate_holds(#[trigger] self.subordinate[i], x)
        &&& forall|i: int|
            0 <= i < self.dominant.len() ==> dominant_holds(#[trigger] self.dominant[i], x)
    }

    /// Every fixed equation holds.
    pub open spec fn fixed_part_holds(self) -> bool {
        forall|i: int| 0 <= i < self.fixed.len() ==> fixed_holds(#[trigger] self.fixed[i])
    }

    /// The word `x` solves the system: every equation holds for it.
    pub open spec fn satisfied_by(self, x: Seq<i32>) -> bool {
        self.variable_part_satisfied_by(x) && self.fixed_part_holds()
    }

    /// The fixed equation at index `i` is violated, and none before it is.
    pub open spec fn first_violated_at(self, i: int) -> bool {
        &&& 0 <= i < self.fixed.len()
        &&& !fixed_holds(self.fixed[i])
        &&& forall|j: int| 0 <= j < i ==> fixed_holds(#[trigger] self.fixed[j])
    }

    /// Only one fixed equation is the first that is violated.
    pub proof fn lemma_first_violated_unique(self, i: int, j: int)
        requires
            self.first_violated_at(i),
            self.first_violated_at(j),
        ensures
            i == j,
    {
    }

    /// The candidates `cs` stand for exactly the words that satisfy every
    /// equation that mentions the unknown.
    pub open spec fn variable_part_solved_by(self, cs: Seq<Candidate>) -> bool {
        forall|x: Seq<i32>| covers(cs, x) <==> self.variable_part_satisfied_by(x)
    }

    /// The candidates `cs` stand for exactly the words that solve the system.
    pub open spec fn solved_by(self, cs: Seq<Candidate>) -> bool {
        forall|x: Seq<i32>| covers(cs, x) <==> self.satisfied_by(x)
    }

    /// The empty word satisfies every equation that mentions the unknown.
    pub open spec fn empty_satisfiable(self) -> bool {
        self.variable_part_satisfied_by(Seq::empty())
    }

    /// Some dominant equation has an empty left side, which no non-empty
    /// unknown can satisfy.
    pub open spec fn blocked(self) -> bool {
        exists|i: int| 0 <= i < self.dominant.len() && (#[trigger] self.dominant[i]).0.len() == 0
    }

    /// The system that the rest of the unknown has to solve once its first
    /// symbol is decided. The fixed equations are not carried along.
    pub open spec fn reduced(self) -> System {
        System {
            subordinate: advance_subordinate(self.subordinate),
            dominant: advance_dominant(self.dominant),
            fixed: Seq::empty(),
        }
    }

    /// The number of literal symbols that still constrain the unknown.
    pub open spec fn remaining(self) -> nat {
        total_right(self.subordinate) + total_left(self.dominant)
    }

    /// The empty word as the one exact value of the unknown, where it is a
    /// solution; nothing where it is not.
    pub open spec fn empty_solution(self) -> Seq<Candidate> {
        if self.empty_satisfiable() {
            seq![(Seq::<i32>::empty(), false)]
        } else {
            Seq::empty()
        }
    }

    /// The solution set: every class of values of the unknown that satisfies
    /// the equations mentioning it, in the order in which the solver finds
    /// them.
    ///
    /// The empty word comes first, where it is a solution. A blocked system
    /// has no other. Otherwise the candidate heads decide: with none, every
    /// word is a solution, and the single class "anything" stands for all of
    /// them; with one, the solutions of the reduced system follow, each behind
    /// that symbol; with several, no non-empty word is a solution.
    pub open spec fn solutions(self) -> Seq<Candidate>
        decreases self.remaining(),
        via Self::solutions_decreases
    {
        if self.blocked() {
            self.empty_solution()
        } else {
            match resolve(candidate_heads(self.subordinate, self.dominant)) {
                Heads::Unconstrained => seq![(Seq::<i32>::empty(), true)],
                Heads::Forced(head) => self.empty_solution() + prepend_all(
                    head,
                    self.reduced().solutions(),
                ),
                Heads::Conflict => self.empty_solution(),
            }
        }
    }

    #[via_fn]
    proof fn solutions_decreases(self) {
        if !self.blocked() && resolve(candidate_heads(self.subordinate, self.dominant)) is Forced {
            self.lemma_reduced_is_smaller();
        }
    }

    /// A system that is not blocked and has a candidate head loses at least
    /// one literal symbol when it is reduced.
    pub proof fn lemma_reduced_is_smaller(self)
        requires
            !self.blocked(),
            exists|h: i32| candidate_heads(self.subordinate, self.dominant).contains(h),
        ensures
            self.reduced().remaining() < self.remaining(),
    {
        lemma_advance_subordinate_total(self.subordinate);
        lemma_advance_dominant_total(self.dominant);
    }
}

/// With the empty word for the unknown, a subordinate or dominant equation
/// `(a, b)` says that `a` begins with `b`.
pub proof fn lemma_empty_assignment(eq: Equation)
    ensures
        subordinate_holds(eq, Seq::empty()) == begins_with(eq.0, eq.1),
        dominant_holds(eq, Seq::empty()) == begins_with(eq.0, eq.1),
{
    assert(Seq::<i32>::empty() + eq.0 =~= eq.0);
    assert(Seq::<i32>::empty() + eq.1 =~= eq.1);
}

/// Advancing after one more equation: the equation is kept, shortened, where
/// its right side is not empty.
pub proof fn lemma_advance_subordinate_push(eqs: Seq<Equation>, e: Equation)
    ensures
        advance_subordinate(eqs.push(e)) == if e.1.len() > 0 {
            advance_subordinate(eqs).push((e.0, e.1.skip(1)))
        } else {
            advance_subordinate(eqs)
        },
{
    reveal(Seq::filter);
    assert(eqs.push(e).drop_last() =~= eqs);
}

/// Advancing after one more dominant equation.
pub proof fn lemma_advance_dominant_push(eqs: Seq<Equation>, e: Equation)
    ensures
        advance_dominant(eqs.push(e)) == advance_dominant(eqs).push((e.0.skip(1), e.1)),
{
    assert(advance_dominant(eqs.push(e)) =~= advance_dominant(eqs).push((e.0.skip(1), e.1)));
}

/// Every advanced subordinate equation comes from one with a non-empty right
/// side, and every such equation has its advanced form in the result.
pub proof fn lemma_advance_subordinate_members(eqs: Seq<Equation>)
    ensures
        forall|k: int|
            0 <= k < advance_subordinate(eqs).len() ==> exists|i: int|
                0 <= i < eqs.len() && (#[trigger] eqs[i]).1.len() > 0 && (
                #[trigger] advance_subordinate(eqs)[k]) == (eqs[i].0, eqs[i].1.skip(1)),
        forall|i: int|
            0 <= i < eqs.len() && (#[trigger] eqs[i]).1.len() > 0 ==> exists|k: int|
                0 <= k < advance_subordinate(eqs).len() && (#[trigger] advance_subordinate(
                    eqs,
                )[k]) == (eqs[i].0, eqs[i].1.skip(1)),
    decreases eqs.len(),
{
    if eqs.len() > 0 {
        let front = eqs.drop_last();
        let e = eqs.last();
        lemma_advance_subordinate_members(front);
        lemma_advance_subordinate_push(front, e);
        assert(front.push(e) =~= eqs);
        let adv = advance_subordinate(eqs);
        let adv_front = advance_subordinate(front);
        assert forall|k: int| 0 <= k < adv.len() implies exists|i: int|
            0 <= i < eqs.len() && (#[trigger] eqs[i]).1.len() > 0 && (#[trigger] adv[k]) == (
                eqs[i].0,
                eqs[i].1.skip(1),
            ) by {
            if k < adv_front.len() {
                let i = choose|i: int|
                    0 <= i < front.len() && (#[trigger] front[i]).1.len() > 0 && adv_front[k] == (
                        front[i].0,
                        front[i].1.skip(1),
                    );
                assert(eqs[i] == front[i]);
            } else {
                assert(eqs[eqs.len() - 1] == e);
            }
        }
        assert forall|i: int| 0 <= i < eqs.len() && (#[trigger] eqs[i]).1.len() > 0 implies exists|
            k: int,
        |
            0 <= k < adv.len() && (#[trigger] adv[k]) == (eqs[i].0, eqs[i].1.skip(1)) by {
            if i < front.len() {
                let k = choose|k: int|
                    0 <= k < adv_front.len() && (#[trigger] adv_front[k]) == (
                        front[i].0,
                        front[i].1.skip(1),
                    );
                assert(adv[k] == adv_front[k]);
            } else {
                assert(adv[adv.len() - 1] == (e.0, e.1.skip(1)));
            }
        }
    } else {
        reveal(Seq::filter);
    }
}

/// Advancing never adds literal symbols to the right sides, and removes one
/// for each equation whose right side is not empty.
pub proof fn lemma_advance_subordinate_total(eqs: Seq<Equation>)
    ensures
        total_right(advance_subordinate(eqs)) <= total_right(eqs),
        (exists|i: int| 0 <= i < eqs.len() && (#[trigger] eqs[i]).1.len() > 0) ==> total_right(
            advance_subordinate(eqs),
        ) < total_right(eqs),
    decreases eqs.len(),
{
    if eqs.len() > 0 {
        let front = eqs.drop_last();
        let e = eqs.last();
        lemma_advance_subordinate_total(front);
        lemma_advance_subordinate_push(front, e);
        assert(front.push(e) =~= eqs);
        if e.1.len() > 0 {
            let shorter = (e.0, e.1.skip(1));
            assert(advance_subordinate(front).push(shorter).drop_last() =~= advance_subordinate(
                front,
            ));
        }
    } else {
        reveal(Seq::filter);
    }
}

/// Where every left side is non-empty, advancing removes one literal symbol
/// for each dominant equation.
pub proof fn lemma_advance_dominant_total(eqs: Seq<Equation>)
    requires
        forall|i: int| 0 <= i < eqs.len() ==> (#[trigger] eqs[i]).0.len() > 0,
    ensures
        total_left(advance_dominant(eqs)) + eqs.len() == total_left(eqs),
    decreases eqs.len(),
{
    if eqs.len() > 0 {
        let front = eqs.drop_last();
        let e = eqs.last();
        lemma_advance_dominant_total(front);
        lemma_advance_dominant_push(front, e);
        assert(front.push(e) =~= eqs);
        assert(advance_dominant(front).push((e.0.skip(1), e.1)).drop_last() =~= advance_dominant(
            front,
        ));
    }
}

/// One more subordinate equation adds the first symbol of its right side to
/// the candidate heads, if it has one.
pub proof fn lemma_heads_push_subordinate(
    subordinate: Seq<Equation>,
    dominant: Seq<Equation>,
    e: Equation,
)
    ensures
        candidate_heads(subordinate.push(e), dominant) == if e.1.len() > 0 {
            candidate_heads(subordinate, dominant).insert(e.1[0])
        } else {
            candidate_heads(subordinate, dominant)
        },
{
    let before = candidate_heads(subordinate, dominant);
    let after = candidate_heads(subordinate.push(e), dominant);
    let longer = subordinate.push(e);
    let expected = if e.1.len() > 0 {
        before.insert(e.1[0])
    } else {
        before
    };
    assert forall|h: i32| expected.contains(h) implies after.contains(h) by {
        if before.contains(h) {
            if exists|i: int|
                0 <= i < subordinate.len() && (#[trigger] subordinate[i]).1.len() > 0
                    && subordinate[i].1[0] == h {
                let i = choose|i: int|
                    0 <= i < subordinate.len() && (#[trigger] subordinate[i]).1.len() > 0
                        && subordinate[i].1[0] == h;
                assert(longer[i] == subordinate[i]);
            }
        } else {
            assert(longer[longer.len() - 1] == e);
        }
    }
}

/// One more dominant equation adds the first symbol of its left side to the
/// candidate heads, if it has one.
pub proof fn lemma_heads_push_dominant(
    subordinate: Seq<Equation>,
    dominant: Seq<Equation>,
    e: Equation,
)
    ensures
        candidate_heads(subordinate, dominant.push(e)) == if e.0.len() > 0 {
            candidate_heads(subordinate, dominant).insert(e.0[0])
        } else {
            candidate_heads(subordinate, dominant)
        },
{
    let before = candidate_heads(subordinate, dominant);
    let after = candidate_heads(subordinate, dominant.push(e));
    let longer = dominant.push(e);
    let expected = if e.0.len() > 0 {
        before.insert(e.0[0])
    } else {
        before
    };
    assert forall|h: i32| expected.contains(h) implies after.contains(h) by {
        if before.contains(h) {
            if exists|i: int|
                0 <= i < dominant.len() && (#[trigger] dominant[i]).0.len() > 0
                    && dominant[i].0[0] == h {
                let i = choose|i: int|
                    0 <= i < dominant.len() && (#[trigger] dominant[i]).0.len() > 0
                        && dominant[i].0[0] == h;
                assert(longer[i] == dominant[i]);
            }
        } else {
            assert(longer[longer.len() - 1] == e);
        }
    }
}

} // verus!
