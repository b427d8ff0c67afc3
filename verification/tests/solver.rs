use one_variable::problem::{first_violation, Problem, Verdict};
use one_variable::word::{starts_with, suffix_from};
use std::collections::VecDeque;

type Pairs = Vec<(Vec<i32>, Vec<i32>)>;

fn word(symbols: &[i32]) -> VecDeque<i32> {
    symbols.iter().copied().collect()
}

fn concat(a: &[i32], b: &[i32]) -> Vec<i32> {
    let mut r = a.to_vec();
    r.extend_from_slice(b);
    r
}

fn satisfies(problem: &Problem, x: &[i32]) -> bool {
    problem.inferior_constraints.iter().all(|(a, b)| concat(x, a).starts_with(b))
        && problem.superior_constraints.iter().all(|(a, b)| a.starts_with(&concat(x, b)))
        && problem.constant_constraints.iter().all(|(a, b)| a.starts_with(b))
}

fn covered(solutions: &[(VecDeque<i32>, bool)], x: &[i32]) -> bool {
    solutions.iter().any(|(prefix, tail)| {
        let prefix: Vec<i32> = prefix.iter().copied().collect();
        if *tail {
            x.starts_with(&prefix)
        } else {
            x == prefix.as_slice()
        }
    })
}

fn words_up_to(length: usize, symbols: &[i32]) -> Vec<Vec<i32>> {
    let mut all: Vec<Vec<i32>> = vec![vec![]];
    let mut last: Vec<Vec<i32>> = vec![vec![]];
    for _ in 0..length {
        let mut next = Vec::new();
        for w in &last {
            for s in symbols {
                let mut longer = w.clone();
                longer.push(*s);
                next.push(longer);
            }
        }
        all.extend(next.iter().cloned());
        last = next;
    }
    all
}

fn sample_problems() -> Vec<Problem> {
    let lists: Vec<(Pairs, Pairs)> = vec![
        (vec![], vec![]),
        (vec![(vec![1], vec![1])], vec![(vec![2], vec![])]),
        (vec![], vec![(vec![1, 2, 3], vec![])]),
        (vec![(vec![2], vec![1, 2])], vec![]),
        (vec![(vec![], vec![1, 2])], vec![(vec![1, 2, 3, 0], vec![3])]),
        (vec![(vec![], vec![1]), (vec![], vec![2])], vec![]),
        (vec![(vec![3], vec![])], vec![(vec![], vec![])]),
        (vec![(vec![3], vec![3, 1])], vec![(vec![], vec![1])]),
        (vec![(vec![0, 1], vec![0, 0, 1])], vec![(vec![0, 0, 2], vec![0, 2])]),
        (vec![(vec![1], vec![2, 2, 1]), (vec![5], vec![2])], vec![(vec![2, 2, 7], vec![])]),
        (vec![(vec![1, 1], vec![1, 1, 1])], vec![]),
    ];
    lists.into_iter().map(|(inferior, superior)| Problem::new(inferior, superior, vec![])).collect()
}

#[test]
fn no_equations_leave_the_unknown_free() {
    let problem = Problem::new(vec![], vec![], vec![]);
    assert_eq!(problem.solve_impl(), vec![(word(&[]), true)]);
    assert_eq!(problem.solve(), Verdict::Solved(vec![(word(&[]), true)]));
}

#[test]
fn conflicting_heads_leave_only_the_empty_word() {
    // X 1 b.w. 1   and   2 b.w. X
    let problem = Problem::new(vec![(vec![1], vec![1])], vec![(vec![2], vec![])], vec![]);
    assert!(problem.is_empty_satisfiable());
    assert_eq!(problem.solve_impl(), vec![(word(&[]), false)]);
    assert_eq!(problem.solve(), Verdict::Solved(vec![(word(&[]), false)]));
}

#[test]
fn violated_fixed_equation_is_reported() {
    // 1 2 b.w. 3
    let problem = Problem::new(vec![], vec![], vec![(vec![1, 2], vec![3])]);
    assert_eq!(problem.solve(), Verdict::NeverSatisfied(0));
}

#[test]
fn first_violated_fixed_equation_is_named() {
    let problem = Problem::new(
        vec![(vec![], vec![1])],
        vec![],
        vec![(vec![1, 2], vec![1]), (vec![1], vec![1, 2]), (vec![4], vec![5])],
    );
    assert_eq!(problem.solve(), Verdict::NeverSatisfied(1));
}

#[test]
fn fixed_equations_that_hold_do_not_change_the_solutions() {
    let problem = Problem::new(
        vec![(vec![], vec![5, 6])],
        vec![],
        vec![(vec![1, 2], vec![1]), (vec![], vec![])],
    );
    assert_eq!(problem.solve(), Verdict::Solved(vec![(word(&[5, 6]), true)]));
    assert_eq!(problem.solve_impl(), vec![(word(&[5, 6]), true)]);
}

#[test]
fn solver_ignores_fixed_equations() {
    let problem = Problem::new(vec![], vec![], vec![(vec![1, 2], vec![3])]);
    assert_eq!(problem.solve_impl(), vec![(word(&[]), true)]);
}

#[test]
fn subordinate_right_side_is_forced_and_the_rest_is_free() {
    // X b.w. 5 6
    let problem = Problem::new(vec![(vec![], vec![5, 6])], vec![], vec![]);
    assert!(!problem.is_empty_satisfiable());
    assert_eq!(problem.solve_impl(), vec![(word(&[5, 6]), true)]);
}

#[test]
fn dominant_left_side_bounds_the_unknown() {
    // 1 2 3 b.w. X
    let problem = Problem::new(vec![], vec![(vec![1, 2, 3], vec![])], vec![]);
    assert_eq!(
        problem.solve_impl(),
        vec![
            (word(&[]), false),
            (word(&[1]), false),
            (word(&[1, 2]), false),
            (word(&[1, 2, 3]), false),
        ]
    );
}

#[test]
fn exact_and_open_candidates_come_in_the_order_found() {
    // X 2 b.w. 1 2
    let problem = Problem::new(vec![(vec![2], vec![1, 2])], vec![], vec![]);
    assert_eq!(problem.solve_impl(), vec![(word(&[1]), false), (word(&[1, 2]), true)]);
}

#[test]
fn free_tail_replaces_the_empty_candidate_of_its_level() {
    // X 7 b.w. (nothing): the empty word is a solution, and so is every word.
    let problem = Problem::new(vec![(vec![7], vec![])], vec![], vec![]);
    assert!(problem.is_empty_satisfiable());
    assert_eq!(problem.solve_impl(), vec![(word(&[]), true)]);
}

#[test]
fn dominant_equation_with_empty_left_side_stops_the_search() {
    // (nothing) b.w. X   and   X b.w. 4
    let problem = Problem::new(vec![(vec![], vec![4])], vec![(vec![], vec![])], vec![]);
    assert_eq!(problem.solve_impl(), vec![]);
    // (nothing) b.w. X alone leaves the empty word.
    let problem = Problem::new(vec![], vec![(vec![], vec![])], vec![]);
    assert_eq!(problem.solve_impl(), vec![(word(&[]), false)]);
}

#[test]
fn no_solution_at_all() {
    // X b.w. 1   and   X b.w. 2
    let problem = Problem::new(vec![(vec![], vec![1]), (vec![], vec![2])], vec![], vec![]);
    assert_eq!(problem.solve_impl(), vec![]);
    assert_eq!(problem.solve(), Verdict::Solved(vec![]));
}

#[test]
fn negative_symbols_are_symbols_like_any_other() {
    let problem = Problem::new(vec![(vec![], vec![-1, i32::MIN])], vec![], vec![]);
    assert_eq!(problem.solve_impl(), vec![(word(&[-1, i32::MIN]), true)]);
}

#[test]
fn exact_candidates_satisfy_every_equation() {
    for problem in sample_problems() {
        for (prefix, tail) in problem.solve_impl() {
            if !tail {
                let x: Vec<i32> = prefix.into_iter().collect();
                assert!(satisfies(&problem, &x));
            }
        }
    }
}

#[test]
fn open_candidates_satisfy_every_equation_whatever_follows() {
    let tails = words_up_to(3, &[0, 1, 2, 9]);
    for problem in sample_problems() {
        for (prefix, tail) in problem.solve_impl() {
            if tail {
                let prefix: Vec<i32> = prefix.into_iter().collect();
                for t in &tails {
                    assert!(satisfies(&problem, &concat(&prefix, t)));
                }
            }
        }
    }
}

#[test]
fn solution_set_covers_exactly_the_solutions() {
    let words = words_up_to(5, &[0, 1, 2, 3]);
    for problem in sample_problems() {
        let solutions = problem.solve_impl();
        for x in &words {
            assert_eq!(covered(&solutions, x), satisfies(&problem, x));
        }
    }
}

#[test]
fn solving_twice_gives_the_same_solution_set() {
    for problem in sample_problems() {
        assert_eq!(problem.solve_impl(), problem.solve_impl());
        assert_eq!(problem.solve(), problem.solve());
    }
}

#[test]
fn empty_satisfiable_checks_both_kinds_alike() {
    assert!(Problem::new(vec![], vec![], vec![]).is_empty_satisfiable());
    assert!(Problem::new(vec![(vec![1, 2], vec![1])], vec![], vec![]).is_empty_satisfiable());
    assert!(!Problem::new(vec![(vec![1], vec![1, 2])], vec![], vec![]).is_empty_satisfiable());
    assert!(Problem::new(vec![], vec![(vec![1, 2], vec![1])], vec![]).is_empty_satisfiable());
    assert!(!Problem::new(vec![], vec![(vec![2], vec![1])], vec![]).is_empty_satisfiable());
    // a violated fixed equation takes no part
    assert!(Problem::new(vec![], vec![], vec![(vec![], vec![1])]).is_empty_satisfiable());
}

#[test]
fn begins_with_on_vectors() {
    assert!(starts_with(&vec![], &vec![]));
    assert!(starts_with(&vec![1, 2], &vec![]));
    assert!(starts_with(&vec![1, 2], &vec![1]));
    assert!(starts_with(&vec![1, 2], &vec![1, 2]));
    assert!(!starts_with(&vec![1, 2], &vec![1, 2, 3]));
    assert!(!starts_with(&vec![1, 2], &vec![2]));
    assert!(!starts_with(&vec![], &vec![1]));
}

#[test]
fn suffix_drops_the_first_symbols() {
    assert_eq!(suffix_from(&vec![1, 2, 3], 0), vec![1, 2, 3]);
    assert_eq!(suffix_from(&vec![1, 2, 3], 1), vec![2, 3]);
    assert_eq!(suffix_from(&vec![1, 2, 3], 3), Vec::<i32>::new());
}

#[test]
fn first_violation_is_the_first() {
    assert_eq!(first_violation(&vec![]), None);
    assert_eq!(first_violation(&vec![(vec![1], vec![1]), (vec![1], vec![])]), None);
    assert_eq!(
        first_violation(&vec![(vec![1], vec![1]), (vec![1], vec![2]), (vec![], vec![2])]),
        Some(1)
    );
}
