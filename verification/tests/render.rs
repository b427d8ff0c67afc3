use one_variable::problem::Problem;
use one_variable::render::{push_symbol, push_word, render_candidate, render_symbol, render_violation};
use one_variable::text::{chars_of, parse_symbol};
use std::collections::VecDeque;

fn word(symbols: &[i32]) -> VecDeque<i32> {
    symbols.iter().copied().collect()
}

#[test]
fn numerals_of_symbols() {
    assert_eq!(render_symbol(0), "0");
    assert_eq!(render_symbol(7), "7");
    assert_eq!(render_symbol(10), "10");
    assert_eq!(render_symbol(1203), "1203");
    assert_eq!(render_symbol(-1), "-1");
    assert_eq!(render_symbol(-450), "-450");
    assert_eq!(render_symbol(i32::MAX), "2147483647");
    assert_eq!(render_symbol(i32::MIN), "-2147483648");
}

#[test]
fn numerals_agree_with_the_standard_ones() {
    for n in [0, 1, 9, 10, 11, 99, 100, 101, 12345, -1, -9, -10, -99999, i32::MAX, i32::MIN] {
        assert_eq!(render_symbol(n), n.to_string());
    }
}

#[test]
fn empty_exact_candidate_is_epsilon() {
    assert_eq!(render_candidate(&word(&[]), false), "epsilon");
}

#[test]
fn empty_open_candidate_is_the_arbitrary_tail_alone() {
    assert_eq!(render_candidate(&word(&[]), true), "t (t is arbitrary)");
}

#[test]
fn exact_candidate_is_its_symbols() {
    assert_eq!(render_candidate(&word(&[1]), false), "1");
    assert_eq!(render_candidate(&word(&[1, -20, 3]), false), "1 -20 3");
}

#[test]
fn open_candidate_ends_with_the_arbitrary_tail() {
    assert_eq!(render_candidate(&word(&[1]), true), "1 t (t is arbitrary)");
    assert_eq!(render_candidate(&word(&[10, 2]), true), "10 2 t (t is arbitrary)");
}

#[test]
fn violation_line_names_the_equation() {
    assert_eq!(render_violation(&vec![1, 2], &vec![3]), "constraint never satisfied: 1 2 b.w. 3");
    assert_eq!(render_violation(&vec![], &vec![3]), "constraint never satisfied:  b.w. 3");
    assert_eq!(render_violation(&vec![], &vec![]), "constraint never satisfied:  b.w. ");
}

#[test]
fn report_of_a_violated_fixed_equation_is_one_line() {
    let problem = Problem::new(
        vec![(vec![], vec![1])],
        vec![],
        vec![(vec![1], vec![1]), (vec![1, 2], vec![3]), (vec![], vec![9])],
    );
    assert_eq!(problem.report(), vec!["constraint never satisfied: 1 2 b.w. 3".to_string()]);
}

#[test]
fn report_of_no_equations() {
    let problem = Problem::new(vec![], vec![], vec![]);
    assert_eq!(problem.report(), vec!["t (t is arbitrary)".to_string()]);
}

#[test]
fn report_of_the_empty_word_alone() {
    let problem = Problem::new(vec![(vec![1], vec![1])], vec![(vec![2], vec![])], vec![]);
    assert_eq!(problem.report(), vec!["epsilon".to_string()]);
}

#[test]
fn report_has_one_line_for_each_candidate() {
    let problem = Problem::new(vec![(vec![2], vec![1, 2])], vec![], vec![]);
    assert_eq!(problem.report(), vec!["1".to_string(), "1 2 t (t is arbitrary)".to_string()]);
    let problem = Problem::new(vec![], vec![(vec![1, 2], vec![])], vec![]);
    assert_eq!(
        problem.report(),
        vec!["epsilon".to_string(), "1".to_string(), "1 2".to_string()]
    );
}

#[test]
fn report_of_no_solution_is_empty() {
    let problem = Problem::new(vec![(vec![], vec![1]), (vec![], vec![2])], vec![], vec![]);
    assert_eq!(problem.report(), Vec::<String>::new());
}

#[test]
fn written_numerals_read_back_as_the_symbol() {
    for n in [0, 1, -1, 9, 10, -10, 99, 100, 4096, -70000, i32::MAX, i32::MIN, i32::MAX - 1] {
        let text = render_symbol(n);
        let chars = chars_of(&text);
        assert_eq!(parse_symbol(&chars, 0, chars.len()), Some(n));
    }
}

#[test]
fn numerals_are_appended_to_what_is_there() {
    let mut out = String::from("x=");
    push_symbol(&mut out, -42);
    assert_eq!(out, "x=-42");
    push_word(&mut out, &vec![1, 20, -3]);
    assert_eq!(out, "x=-421 20 -3");
    push_word(&mut out, &vec![]);
    assert_eq!(out, "x=-421 20 -3");
}
