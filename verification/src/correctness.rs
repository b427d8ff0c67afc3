//! Why the solution set is right: it stands for exactly the words that satisfy
//! the equations.

use crate::heads::{resolve, Heads};
use crate::system::{
    advance_subordinate, candidate_heads, covers, dominant_holds,
    lemma_advance_subordinate_members, prepend_all, represents, subordinate_holds, Candidate,
    Equation, System,
};
use crate::word::begins_with;
use vstd::prelude::*;

verus! {

/// Two non-empty words: the first begins with the second exactly when their
/// first symbols agree and the rest of the first begins with the rest of the
/// second.
pub proof fn lemma_begins_with_step(a: Seq<i32>, b: Seq<i32>)
    requires
        a.len() > 0,
        b.len() > 0,
    ensures
        begins_with(a, b) <==> a[0] == b[0] && begins_with(a.skip(1), b.skip(1)),
{
    if a[0] == b[0] && begins_with(a.skip(1), b.skip(1)) {
        assert forall|i: int| 0 <= i < b.len() implies a[i] == b[i] by {
            if i > 0 {
                assert(a.skip(1)[i - 1] == b.skip(1)[i - 1]);
            }
        }
    }
}

/// A subordinate equation with a non-empty right side holds for a non-empty
/// word exactly when the word starts with the first symbol of that side and
/// the advanced equation holds for the rest of the word.
pub proof fn lemma_subordinate_step(eq: Equation, x: Seq<i32>)
    requires
        x.len() > 0,
        eq.1.len() > 0,
    ensures
        subordinate_holds(eq, x) <==> x[0] == eq.1[0] && subordinate_holds(
            (eq.0, eq.1.skip(1)),
            x.skip(1),
        ),
{
    lemma_begins_with_step(x + eq.0, eq.1);
}

/// A dominant equation holds for a non-empty word exactly when its left side
/// starts with the first symbol of the word and the advanced equation holds
/// for the rest of the word.
pub proof fn lemma_dominant_step(eq: Equation, x: Seq<i32>)
    requires
        x.len() > 0,
    ensures
        dominant_holds(eq, x) <==> eq.0.len() > 0 && eq.0[0] == x[0] && dominant_holds(
            (eq.0.skip(1), eq.1),
            x.skip(1),
        ),
{
    if eq.0.len() > 0 {
        lemma_begins_with_step(eq.0, x + eq.1);
    }
}

/// A non-empty word satisfies the equations that mention the unknown exactly
/// when the system is not blocked, the word starts with every candidate head,
/// and the rest of the word satisfies the reduced system.
pub proof fn lemma_satisfied_step(sys: System, x: Seq<i32>)
    requires
        x.len() > 0,
    ensures
        sys.variable_part_satisfied_by(x) <==> {
            &&& !sys.blocked()
            &&& forall|h: i32| candidate_heads(sys.subordinate, sys.dominant).contains(h) ==> h == x[0]
            &&& sys.reduced().variable_part_satisfied_by(x.skip(1))
        },
{
    let heads = candidate_heads(sys.subordinate, sys.dominant);
    let next = sys.reduced();
    let rest = x.skip(1);
    lemma_advance_subordinate_members(sys.subordinate);
    if sys.variable_part_satisfied_by(x) {
        if sys.blocked() {
            let i = choose|i: int|
                0 <= i < sys.dominant.len() && (#[trigger] sys.dominant[i]).0.len() == 0;
            assert(!dominant_holds(sys.dominant[i], x));
        }
        assert forall|k: int| 0 <= k < next.subordinate.len() implies subordinate_holds(
            #[trigger] next.subordinate[k],
            rest,
        ) by {
            let i = choose|i: int|
                0 <= i < sys.subordinate.len() && (#[trigger] sys.subordinate[i]).1.len() > 0 && (
                #[trigger] advance_subordinate(sys.subordinate)[k]) == (
                    sys.subordinate[i].0,
                    sys.subordinate[i].1.skip(1),
                );
            lemma_subordinate_step(sys.subordinate[i], x);
        }
    }
    if !sys.blocked() && (forall|h: i32| heads.contains(h) ==> h == x[0])
        && next.variable_part_satisfied_by(rest) {
        assert forall|i: int| 0 <= i < sys.subordinate.len() implies subordinate_holds(
            #[trigger] sys.subordinate[i],
            x,
        ) by {
            let eq = sys.subordinate[i];
            if eq.1.len() > 0 {
                assert(heads.contains(eq.1[0]));
                let k = choose|k: int|
                    0 <= k < advance_subordinate(sys.subordinate).len() && (
                    #[trigger] advance_subordinate(sys.subordinate)[k]) == (eq.0, eq.1.skip(1));
                assert(subordinate_holds(next.subordinate[k], rest));
                lemma_subordinate_step(eq, x);
            }
        }
        assert forall|i: int| 0 <= i < sys.dominant.len() implies dominant_holds(
            #[trigger] sys.dominant[i],
            x,
        ) by {
            let eq = sys.dominant[i];
            assert(heads.contains(eq.0[0]));
            assert(dominant_holds(next.dominant[i], rest));
            lemma_dominant_step(eq, x);
        }
    }
}

/// A word belongs to the candidates behind `head` exactly when it starts with
/// `head` and its rest belongs to the candidates.
pub proof fn lemma_covers_prepend(head: i32, cs: Seq<Candidate>, x: Seq<i32>)
    ensures
        covers(prepend_all(head, cs), x) <==> x.len() > 0 && x[0] == head && covers(cs, x.skip(1)),
{
    let longer = prepend_all(head, cs);
    assert forall|k: int| 0 <= k < cs.len() implies (represents(#[trigger] longer[k], x) <==> x.len()
        > 0 && x[0] == head && represents(cs[k], x.skip(1))) by {
        let c = cs[k];
        let p = seq![head] + c.0;
        assert(p.skip(1) =~= c.0);
        if c.1 {
            if x.len() > 0 {
                lemma_begins_with_step(x, p);
            }
        } else {
            if x.len() > 0 && x[0] == head && x.skip(1) == c.0 {
                assert(x =~= p);
            }
        }
    }
    if covers(longer, x) {
        let k = choose|k: int| 0 <= k < longer.len() && represents(#[trigger] longer[k], x);
        assert(represents(cs[k], x.skip(1)));
    }
    if x.len() > 0 && x[0] == head && covers(cs, x.skip(1)) {
        let k = choose|k: int| 0 <= k < cs.len() && represents(#[trigger] cs[k], x.skip(1));
        assert(represents(longer[k], x));
    }
}

/// A word belongs to one of two lists of candidates put together exactly when
/// it belongs to one of the lists.
pub proof fn lemma_covers_concat(a: Seq<Candidate>, b: Seq<Candidate>, x: Seq<i32>)
    ensures
        covers(a + b, x) <==> covers(a, x) || covers(b, x),
{
    let both = a + b;
    if covers(both, x) {
        let k = choose|k: int| 0 <= k < both.len() && represents(#[trigger] both[k], x);
        if k < a.len() {
            assert(represents(a[k], x));
        } else {
            assert(represents(b[k - a.len()], x));
        }
    }
    if covers(a, x) {
        let k = choose|k: int| 0 <= k < a.len() && represents(#[trigger] a[k], x);
        assert(represents(both[k], x));
    }
    if covers(b, x) {
        let k = choose|k: int| 0 <= k < b.len() && represents(#[trigger] b[k], x);
        assert(represents(both[k + a.len()], x));
    }
}

/// The solution set stands for exactly the words that satisfy every equation
/// that mentions the unknown: each such word belongs to one of its classes,
/// and every word of every class is such a word.
pub proof fn theorem_solutions_exact(sys: System, x: Seq<i32>)
    ensures
        covers(sys.solutions(), x) <==> sys.variable_part_satisfied_by(x),
    decreases sys.remaining(),
{
    let heads = candidate_heads(sys.subordinate, sys.dominant);
    let base = sys.empty_solution();
    let empty = Seq::<i32>::empty();
    assert(covers(base, x) <==> sys.empty_satisfiable() && x.len() == 0) by {
        if sys.empty_satisfiable() {
            if x.len() == 0 {
                assert(represents(base[0], x));
            }
        }
    }
    if x.len() == 0 {
        assert(x =~= empty);
    } else {
        lemma_satisfied_step(sys, x);
    }
    if !sys.blocked() {
        match resolve(heads) {
            Heads::Unconstrained => {
                let free = seq![(empty, true)];
                assert(represents(free[0], x));
                lemma_advance_subordinate_members(sys.subordinate);
                assert forall|i: int| 0 <= i < sys.subordinate.len() implies subordinate_holds(
                    #[trigger] sys.subordinate[i],
                    x,
                ) by {
                    let eq = sys.subordinate[i];
                    if eq.1.len() > 0 {
                        assert(heads.contains(eq.1[0]));
                    }
                }
                assert forall|i: int| 0 <= i < sys.dominant.len() implies dominant_holds(
                    #[trigger] sys.dominant[i],
                    x,
                ) by {
                    let eq = sys.dominant[i];
                    assert(heads.contains(eq.0[0]));
                }
            },
            Heads::Forced(head) => {
                assert(heads.contains(head));
                sys.lemma_reduced_is_smaller();
                let rest = sys.reduced().solutions();
                lemma_covers_concat(base, prepend_all(head, rest), x);
                lemma_covers_prepend(head, rest, x);
                if x.len() > 0 {
                    theorem_solutions_exact(sys.reduced(), x.skip(1));
                }
            },
            Heads::Conflict => {
                let (a, b) = choose|a: i32, b: i32| heads.contains(a) && heads.contains(b) && a != b;
                assert(heads.contains(a) && heads.contains(b));
            },
        }
    }
}

/// The solution set stands for exactly the words that satisfy every equation
/// that mentions the unknown.
pub proof fn theorem_solutions_solve(sys: System)
    ensures
        sys.variable_part_solved_by(sys.solutions()),
        sys.fixed_part_holds() ==> sys.solved_by(sys.solutions()),
{
    assert forall|x: Seq<i32>| covers(sys.solutions(), x) <==> sys.variable_part_satisfied_by(
        x,
    ) by {
        theorem_solutions_exact(sys, x);
    }
}

/// A candidate without an arbitrary tail is a solution as it stands: its
/// prefix, taken as the whole value of the unknown, satisfies every
/// subordinate and every dominant equation, and with them every fixed
/// equation where those hold at all.
pub proof fn theorem_exact_candidate_is_solution(sys: System, k: int)
    requires
        0 <= k < sys.solutions().len(),
        !sys.solutions()[k].1,
    ensures
        sys.variable_part_satisfied_by(sys.solutions()[k].0),
        sys.fixed_part_holds() ==> sys.satisfied_by(sys.solutions()[k].0),
{
    let c = sys.solutions()[k];
    assert(represents(c, c.0));
    theorem_solutions_exact(sys, c.0);
}

/// A candidate with an arbitrary tail stands for solutions only: its prefix
/// followed by any word at all, the empty one included, satisfies every
/// subordinate and every dominant equation, and with them every fixed
/// equation where those hold at all.
pub proof fn theorem_open_candidate_is_solution(sys: System, k: int, tail: Seq<i32>)
    requires
        0 <= k < sys.solutions().len(),
        sys.solutions()[k].1,
    ensures
        sys.variable_part_satisfied_by(sys.solutions()[k].0 + tail),
        sys.fixed_part_holds() ==> sys.satisfied_by(sys.solutions()[k].0 + tail),
{
    let c = sys.solutions()[k];
    assert(represents(c, c.0 + tail));
    theorem_solutions_exact(sys, c.0 + tail);
}

/// Every word that satisfies the subordinate and dominant equations belongs to
/// a class of the solution set: nothing is lost.
pub proof fn theorem_every_solution_is_found(sys: System, x: Seq<i32>)
    requires
        sys.variable_part_satisfied_by(x),
    ensures
        covers(sys.solutions(), x),
{
    theorem_solutions_exact(sys, x);
}

/// The solution set is a function of the subordinate and dominant equations
/// alone: two systems that agree on them have the same solution set, whatever
/// their fixed equations are.
pub proof fn theorem_solutions_ignore_fixed(a: System, b: System)
    requires
        a.subordinate == b.subordinate,
        a.dominant == b.dominant,
    ensures
        a.solutions() == b.solutions(),
{
}

/// Two systems with the same solutions have solution sets that stand for the
/// same words, in whatever order and form their equations are written.
pub proof fn theorem_equivalent_systems_agree(a: System, b: System, x: Seq<i32>)
    requires
        forall|y: Seq<i32>| a.variable_part_satisfied_by(y) <==> b.variable_part_satisfied_by(y),
    ensures
        covers(a.solutions(), x) <==> covers(b.solutions(), x),
{
    theorem_solutions_exact(a, x);
    theorem_solutions_exact(b, x);
}

/// What the solver promises of the candidates it returns for `sys`: they stand
/// for exactly the words that satisfy the subordinate and dominant equations;
/// so a prefix without an arbitrary tail satisfies them as it stands, and one
/// with an arbitrary tail does whatever follows it.
pub open spec fn solution_properties(sys: System, cs: Seq<Candidate>) -> bool {
    &&& sys.variable_part_solved_by(cs)
    &&& forall|k: int|
        0 <= k < cs.len() && !(#[trigger] cs[k]).1 ==> sys.variable_part_satisfied_by(cs[k].0)
    &&& forall|k: int, tail: Seq<i32>|
        0 <= k < cs.len() && (#[trigger] cs[k]).1 ==> #[trigger] sys.variable_part_satisfied_by(
            cs[k].0 + tail,
        )
}

/// The solution set of a system has the properties that the solver promises.
pub proof fn theorem_solution_properties(sys: System)
    ensures
        solution_properties(sys, sys.solutions()),
{
    let cs = sys.solutions();
    theorem_solutions_solve(sys);
    assert forall|k: int| 0 <= k < cs.len() && !(#[trigger] cs[k]).1 implies sys.variable_part_satisfied_by(
        cs[k].0,
    ) by {
        theorem_exact_candidate_is_solution(sys, k);
    }
    assert forall|k: int, tail: Seq<i32>| 0 <= k < cs.len() && (#[trigger] cs[k]).1 implies #[trigger] sys.variable_part_satisfied_by(
        cs[k].0 + tail,
    ) by {
        theorem_open_candidate_is_solution(sys, k, tail);
    }
}

} // verus!
