//! The text of a result: one line for each class of solutions, or one line
//! that names a violated fixed equation.

use crate::problem::{candidates_view, Problem, Verdict};
use crate::system::{Candidate, Equation, System};
use crate::text::{all_digits, is_digit, lines_view, natural_of, symbol_of};
use std::collections::VecDeque;
use vstd::prelude::*;
use vstd::string::StringExecFns;

verus! {

/// The decimal digit for `d`, which is below ten.
pub open spec fn digit_char(d: nat) -> char {
    seq!['0', '1', '2', '3', '4', '5', '6', '7', '8', '9'][d as int]
}

/// The decimal digits of `n`, most significant first, without leading zeros.
pub open spec fn digits(n: nat) -> Seq<char>
    decreases n,
{
    if n < 10 {
        seq![digit_char(n)]
    } else {
        digits(n / 10).push(digit_char(n % 10))
    }
}

/// The decimal numeral of `n`, with a minus sign in front if `n` is negative.
pub open spec fn decimal(n: int) -> Seq<char> {
    if n < 0 {
        seq!['-'] + digits((-n) as nat)
    } else {
        digits(n as nat)
    }
}

/// The parts in order, with `sep` between each two neighbours.
pub open spec fn join(parts: Seq<Seq<char>>, sep: Seq<char>) -> Seq<char>
    decreases parts.len(),
{
    if parts.len() == 0 {
        Seq::empty()
    } else if parts.len() == 1 {
        parts[0]
    } else {
        join(parts.drop_last(), sep) + sep + parts.last()
    }
}

/// The numerals of the symbols of a word.
pub open spec fn numerals(w: Seq<i32>) -> Seq<Seq<char>> {
    w.map_values(|s: i32| decimal(s as int))
}

/// The line for an exact empty value of the unknown.
pub open spec fn epsilon_text() -> Seq<char> {
    "epsilon"@
}

/// The token that stands for an arbitrary tail.
pub open spec fn arbitrary_tail_text() -> Seq<char> {
    "t (t is arbitrary)"@
}

/// What a violation line starts with.
pub open spec fn violation_text() -> Seq<char> {
    "constraint never satisfied: "@
}

/// The relation sign between the two sides of an equation.
pub open spec fn relation_text() -> Seq<char> {
    " b.w. "@
}

/// The tokens of a candidate's line: the numerals of its prefix, followed by
/// the token for an arbitrary tail if it has one.
pub open spec fn candidate_tokens(c: Candidate) -> Seq<Seq<char>> {
    if c.1 {
        numerals(c.0).push(arbitrary_tail_text())
    } else {
        numerals(c.0)
    }
}

/// The line for a candidate: its tokens with single spaces between them, or
/// the word for the empty value where there is no token.
pub open spec fn candidate_line(c: Candidate) -> Seq<char> {
    if candidate_tokens(c).len() == 0 {
        epsilon_text()
    } else {
        join(candidate_tokens(c), seq![' '])
    }
}

/// The line that names a violated fixed equation, its two sides written as
/// numerals with single spaces between them.
pub open spec fn violation_line(eq: Equation) -> Seq<char> {
    violation_text() + join(numerals(eq.0), seq![' ']) + relation_text() + join(
        numerals(eq.1),
        seq![' '],
    )
}

/// The lines of a result: the line of the first violated fixed equation and
/// nothing else, or the lines of the solution set in its order.
pub open spec fn report_lines(sys: System) -> Seq<Seq<char>> {
    if sys.fixed_part_holds() {
        sys.solutions().map_values(|c: Candidate| candidate_line(c))
    } else {
        seq![violation_line(sys.fixed[choose|i: int| sys.first_violated_at(i)])]
    }
}

/// Joining one more part: the separator comes before it unless it is the
/// first.
pub proof fn lemma_join_push(parts: Seq<Seq<char>>, sep: Seq<char>, last: Seq<char>)
    ensures
        join(parts.push(last), sep) == if parts.len() == 0 {
            last
        } else {
            join(parts, sep) + sep + last
        },
{
    assert(parts.push(last).drop_last() =~= parts);
}

/// The decimal digits of a number are digits, at least one, and stand for
/// that number.
pub proof fn lemma_digits_read_back(n: nat)
    ensures
        digits(n).len() > 0,
        all_digits(digits(n)),
        natural_of(digits(n)) == n,
    decreases n,
{
    let d = digit_char(n % 10);
    assert(is_digit(d) && d as int - '0' as int == n % 10);
    let front = if n >= 10 {
        digits(n / 10)
    } else {
        Seq::<char>::empty()
    };
    if n >= 10 {
        lemma_digits_read_back(n / 10);
    }
    assert(digits(n) =~= front.push(d));
    assert(digits(n).drop_last() =~= front);
    assert(natural_of(digits(n)) == 10 * natural_of(front) + n % 10);
}

/// The numeral that is written for a symbol stands for that symbol when it is
/// read.
pub proof fn theorem_numeral_reads_back(n: i32)
    ensures
        symbol_of(decimal(n as int)) == Some(n),
{
    let w = decimal(n as int);
    if n < 0 {
        let ds = digits((-n) as nat);
        lemma_digits_read_back((-n) as nat);
        assert(w.skip(1) =~= ds);
    } else {
        lemma_digits_read_back(n as nat);
    }
}

/// The text of one decimal digit.
fn digit_text(d: u32) -> (r: &'static str)
    requires
        d < 10,
    ensures
        r@ == seq![digit_char(d as nat)],
{
    proof {
        reveal_strlit("0");
        reveal_strlit("1");
        reveal_strlit("2");
        reveal_strlit("3");
        reveal_strlit("4");
        reveal_strlit("5");
        reveal_strlit("6");
        reveal_strlit("7");
        reveal_strlit("8");
        reveal_strlit("9");
    }
    let r = if d == 0 {
        "0"
    } else if d == 1 {
        "1"
    } else if d == 2 {
        "2"
    } else if d == 3 {
        "3"
    } else if d == 4 {
        "4"
    } else if d == 5 {
        "5"
    } else if d == 6 {
        "6"
    } else if d == 7 {
        "7"
    } else if d == 8 {
        "8"
    } else {
        "9"
    };
    r
}

/// Appends the decimal digits of `n` to `out`.
fn push_digits(out: &mut String, n: u32)
    ensures
        final(out)@ == old(out)@ + digits(n as nat),
    decreases n,
{
    if n >= 10 {
        push_digits(out, n / 10);
    }
    out.append(digit_text(n % 10));
}

/// Appends the decimal numeral of `n` to `out`.
pub fn push_symbol(out: &mut String, n: i32)
    ensures
        final(out)@ == old(out)@ + decimal(n as int),
{
    if n < 0 {
        proof {
            reveal_strlit("-");
        }
        out.append("-");
        let magnitude: u32 = if n == i32::MIN {
            2147483648u32
        } else {
            (-n) as u32
        };
        push_digits(out, magnitude);
    } else {
        push_digits(out, n as u32);
    }
}

/// The decimal numeral of `n`.
pub fn render_symbol(n: i32) -> (r: String)
    ensures
        r@ == decimal(n as int),
{
    let mut r = String::new();
    push_symbol(&mut r, n);
    r
}

/// Appends the numerals of `w` to `out`, with single spaces between them.
pub fn push_word(out: &mut String, w: &Vec<i32>)
    ensures
        final(out)@ == old(out)@ + join(numerals(w@), seq![' ']),
{
    let mut i: usize = 0;
    while i < w.len()
        invariant
            i <= w.len(),
            out@ == old(out)@ + join(numerals(w@).take(i as int), seq![' ']),
        decreases w.len() - i,
    {
        let ghost before = numerals(w@).take(i as int);
        proof {
            reveal_strlit(" ");
            lemma_join_push(before, seq![' '], decimal(w@[i as int] as int));
            assert(numerals(w@).take(i + 1) =~= before.push(decimal(w@[i as int] as int)));
        }
        if i > 0 {
            out.append(" ");
        }
        push_symbol(out, w[i]);
        i += 1;
    }
    assert(numerals(w@).take(i as int) =~= numerals(w@));
}

/// The line for one candidate of a solution set.
pub fn render_candidate(prefix: &VecDeque<i32>, has_arbitrary_tail: bool) -> (r: String)
    ensures
        r@ == candidate_line((prefix@, has_arbitrary_tail)),
{
    let mut r = String::new();
    let mut i: usize = 0;
    while i < prefix.len()
        invariant
            i <= prefix.len(),
            r@ == join(numerals(prefix@).take(i as int), seq![' ']),
        decreases prefix.len() - i,
    {
        let ghost before = numerals(prefix@).take(i as int);
        proof {
            reveal_strlit(" ");
            lemma_join_push(before, seq![' '], decimal(prefix@[i as int] as int));
            assert(numerals(prefix@).take(i + 1) =~= before.push(
                decimal(prefix@[i as int] as int),
            ));
        }
        if i > 0 {
            r.append(" ");
        }
        push_symbol(&mut r, prefix[i]);
        i += 1;
    }
    assert(numerals(prefix@).take(i as int) =~= numerals(prefix@));
    if has_arbitrary_tail {
        proof {
            reveal_strlit(" ");
            lemma_join_push(numerals(prefix@), seq![' '], arbitrary_tail_text());
        }
        if prefix.len() > 0 {
            r.append(" ");
        }
        r.append("t (t is arbitrary)");
        r
    } else if prefix.len() == 0 {
        String::from_str("epsilon")
    } else {
        r
    }
}

/// The line that names a violated fixed equation with the sides `left` and
/// `right`.
pub fn render_violation(left: &Vec<i32>, right: &Vec<i32>) -> (r: String)
    ensures
        r@ == violation_line((left@, right@)),
{
    let mut r = String::from_str("constraint never satisfied: ");
    push_word(&mut r, left);
    r.append(" b.w. ");
    push_word(&mut r, right);
    r
}

impl Problem {
    /// Solves the problem and writes the result down: one line for each
    /// candidate of the solution set, in its order, or, where a fixed equation
    /// is violated, one line that names the first such equation.
    pub fn report(&self) -> (lines: Vec<String>)
        ensures
            lines_view(lines@) == report_lines(self@),
    {
        let ghost sys = self@;
        let mut lines: Vec<String> = Vec::new();
        match self.solve() {
            Verdict::NeverSatisfied(i) => {
                let left = &self.constant_constraints[i].0;
                let right = &self.constant_constraints[i].1;
                lines.push(render_violation(left, right));
                proof {
                    let chosen = choose|k: int| sys.first_violated_at(k);
                    sys.lemma_first_violated_unique(chosen, i as int);
                }
            },
            Verdict::Solved(cs) => {
                let mut k: usize = 0;
                while k < cs.len()
                    invariant
                        k <= cs.len(),
                        lines.len() == k,
                        forall|n: int|
                            0 <= n < k ==> (#[trigger] lines@[n])@ == candidate_line(
                                candidates_view(cs@)[n],
                            ),
                    decreases cs.len() - k,
                {
                    lines.push(render_candidate(&cs[k].0, cs[k].1));
                    k += 1;
                }
            },
        }
        lines
    }
}

} // verus!
