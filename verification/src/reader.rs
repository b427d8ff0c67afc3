//! Reading a problem from lines of text, one equation to a line: the left
//! side, the sign `b.w.`, the right side. A side is a row of words between
//! white space. Its first word names the unknown if it starts with a letter;
//! every other word is the numeral of a symbol.

use crate::equation::{classify, kind_of};
use crate::problem::Problem;
use crate::system::System;
use crate::text::{
    alphabetic, chars_of, cut, lines_view, parse_symbol, symbol_of, token_ranges, tokens,
};
use vstd::prelude::*;
use vstd::string::{StrSliceExecFns, StringExecFns};

verus! {

/// One side of an equation as it was read.
#[derive(Debug, PartialEq, Eq)]
pub struct Side {
    /// The name of the unknown, where the side starts with one.
    pub variable: Option<String>,
    /// The symbols of the side's literal word.
    pub literals: Vec<i32>,
}

/// What a side holds: the name of the unknown, if any, and its literal word.
pub struct SideText {
    pub variable: Option<Seq<char>>,
    pub literals: Seq<i32>,
}

impl View for Side {
    type V = SideText;

    open spec fn view(&self) -> SideText {
        SideText {
            variable: match self.variable {
                Some(name) => Some(name@),
                None => None,
            },
            literals: self.literals@,
        }
    }
}

/// Why a line is no equation.
#[derive(Clone, Copy, Debug, PartialEq, Eq, Structural)]
pub enum LineError {
    /// The sign `b.w.` does not occur in the line.
    MissingSeparator,
    /// A word that should be a numeral stands for no symbol.
    InvalidSymbol,
}

/// Why a list of lines is no problem.
#[derive(Debug, PartialEq, Eq)]
pub enum ReadError {
    /// The line with this index lacks the sign `b.w.`.
    MissingSeparator(usize),
    /// The line with this index holds a word that should be a numeral and
    /// stands for no symbol.
    InvalidSymbol(usize),
    /// The lines name more than one unknown. Holds the names, each once, in
    /// the order in which they first occur.
    MultipleVariables(Vec<String>),
}

/// The sign `b.w.` stands in `line` at index `i`.
pub open spec fn separator_at(line: Seq<char>, i: int) -> bool {
    &&& 0 <= i
    &&& i + 4 <= line.len()
    &&& line[i] == 'b'
    &&& line[i + 1] == '.'
    &&& line[i + 2] == 'w'
    &&& line[i + 3] == '.'
}

/// The first sign `b.w.` in `line` stands at index `i`.
pub open spec fn first_separator_at(line: Seq<char>, i: int) -> bool {
    &&& separator_at(line, i)
    &&& forall|j: int| 0 <= j < i ==> !separator_at(line, j)
}

/// The words of a side after the name of the unknown, if it starts with one.
pub open spec fn literal_words(side: Seq<char>) -> Seq<Seq<char>> {
    if names_unknown(side) {
        tokens(side).skip(1)
    } else {
        tokens(side)
    }
}

/// The side starts with the name of an unknown: its first word starts with a
/// letter.
pub open spec fn names_unknown(side: Seq<char>) -> bool {
    tokens(side).len() > 0 && alphabetic(tokens(side)[0][0])
}

/// A side as it is read from its text, if every word that should be a numeral
/// stands for a symbol.
pub open spec fn side_of(side: Seq<char>) -> Option<SideText> {
    let words = literal_words(side);
    if forall|k: int| 0 <= k < words.len() ==> symbol_of(#[trigger] words[k]) is Some {
        Some(
            SideText {
                variable: if names_unknown(side) {
                    Some(tokens(side)[0])
                } else {
                    None
                },
                literals: words.map_values(|w: Seq<char>| symbol_of(w).unwrap()),
            },
        )
    } else {
        None
    }
}

/// The two sides of an equation as they are read from a line: what stands
/// before the first sign `b.w.`, and what stands after it.
pub open spec fn line_of(line: Seq<char>) -> Result<(SideText, SideText), LineError> {
    if exists|i: int| separator_at(line, i) {
        let i = choose|i: int| first_separator_at(line, i);
        match (side_of(line.take(i)), side_of(line.skip(i + 4))) {
            (Some(left), Some(right)) => Ok((left, right)),
            _ => Err(LineError::InvalidSymbol),
        }
    } else {
        Err(LineError::MissingSeparator)
    }
}

/// The names with one more, unless it is there already or there is none to
/// add.
pub open spec fn with_name(names: Seq<Seq<char>>, name: Option<Seq<char>>) -> Seq<Seq<char>> {
    match name {
        Some(n) => if names.contains(n) {
            names
        } else {
            names.push(n)
        },
        None => names,
    }
}

/// The names of the unknown that the equations use, each once, in the order
/// in which they first occur.
pub open spec fn names_of(equations: Seq<(SideText, SideText)>) -> Seq<Seq<char>>
    decreases equations.len(),
{
    if equations.len() == 0 {
        Seq::empty()
    } else {
        let (left, right) = equations.last();
        with_name(with_name(names_of(equations.drop_last()), left.variable), right.variable)
    }
}

/// The system that the equations make up, each among those of its kind, in
/// the order in which they come.
pub open spec fn system_of(equations: Seq<(SideText, SideText)>) -> System
    decreases equations.len(),
{
    if equations.len() == 0 {
        System::empty()
    } else {
        let (left, right) = equations.last();
        system_of(equations.drop_last()).with_equation(
            kind_of(left.variable is Some, right.variable is Some),
            (left.literals, right.literals),
        )
    }
}

/// The equations that the lines hold, where each line holds one.
pub open spec fn equations_of(lines: Seq<Seq<char>>) -> Seq<(SideText, SideText)> {
    lines.map_values(|l: Seq<char>| line_of(l).unwrap())
}

/// The index of the first sign `b.w.` in a line.
pub fn find_separator(line: &Vec<char>) -> (r: Option<usize>)
    ensures
        match r {
            Some(i) => first_separator_at(line@, i as int),
            None => forall|i: int| !separator_at(line@, i),
        },
{
    if line.len() < 4 {
        return None;
    }
    let mut i: usize = 0;
    while i <= line.len() - 4
        invariant
            4 <= line.len(),
            forall|j: int| 0 <= j < i ==> !separator_at(line@, j),
        decreases line.len() - i,
    {
        if line[i] == 'b' && line[i + 1] == '.' && line[i + 2] == 'w' && line[i + 3] == '.' {
            return Some(i);
        }
        i += 1;
    }
    None
}

/// Reads the side that the characters of `line` between the indices `from` and
/// `to` hold.
fn parse_side(line: &str, chars: &Vec<char>, from: usize, to: usize) -> (r: Option<Side>)
    requires
        chars@ == line@,
        from <= to <= chars.len(),
    ensures
        match r {
            Some(side) => side_of(chars@.subrange(from as int, to as int)) == Some(side@),
            None => side_of(chars@.subrange(from as int, to as int)) is None,
        },
{
    let ghost text = chars@.subrange(from as int, to as int);
    let ranges = token_ranges(chars, from, to);
    let mut variable: Option<String> = None;
    let mut next: usize = 0;
    if ranges.len() > 0 {
        let first = ranges[0];
        if chars[first.0].is_alphabetic() {
            variable = Some(String::from_str(line.substring_char(first.0, first.1)));
            next = 1;
        }
    }
    let ghost words = literal_words(text);
    let mut literals: Vec<i32> = Vec::new();
    let mut k: usize = next;
    while k < ranges.len()
        invariant
            next <= k <= ranges.len(),
            text == chars@.subrange(from as int, to as int),
            words == literal_words(text),
            words == cut(chars@, ranges@).skip(next as int),
            cut(chars@, ranges@).len() == ranges.len(),
            forall|n: int|
                0 <= n < ranges.len() ==> from <= (#[trigger] ranges[n]).0 < ranges[n].1 <= to,
            to <= chars.len(),
            literals.len() == k - next,
            forall|n: int|
                0 <= n < k - next ==> symbol_of(#[trigger] words[n]) == Some(literals@[n]),
        decreases ranges.len() - k,
    {
        let range = ranges[k];
        match parse_symbol(chars, range.0, range.1) {
            Some(symbol) => {
                literals.push(symbol);
            },
            None => {
                assert(symbol_of(words[k - next]) is None);
                return None;
            },
        }
        k += 1;
    }
    let side = Side { variable, literals };
    proof {
        let expected = side_of(text).unwrap();
        assert(side@.literals =~= expected.literals);
    }
    Some(side)
}

/// Reads the two sides of the equation that a line holds.
pub fn parse_line(line: &str) -> (r: Result<(Side, Side), LineError>)
    ensures
        match r {
            Ok((left, right)) => line_of(line@) == Ok::<_, LineError>((left@, right@)),
            Err(e) => line_of(line@) == Err::<(SideText, SideText), _>(e),
        },
{
    let chars = chars_of(line);
    match find_separator(&chars) {
        None => Err(LineError::MissingSeparator),
        Some(i) => {
            proof {
                let chosen = choose|j: int| first_separator_at(line@, j);
                assert(first_separator_at(line@, i as int));
                assert(chosen == i);
                assert(chars@.subrange(0, i as int) =~= line@.take(i as int));
                assert(chars@.subrange(i + 4, chars.len() as int) =~= line@.skip(i + 4));
            }
            let left = parse_side(line, &chars, 0, i);
            let right = parse_side(line, &chars, i + 4, chars.len());
            match (left, right) {
                (Some(left), Some(right)) => Ok((left, right)),
                _ => Err(LineError::InvalidSymbol),
            }
        },
    }
}

/// Adds a name to the names, unless it is there already or there is none to
/// add.
fn note_name(names: &mut Vec<String>, name: Option<String>)
    ensures
        lines_view(final(names)@) == with_name(
            lines_view(old(names)@),
            match name {
                Some(n) => Some(n@),
                None => None,
            },
        ),
{
    match name {
        Some(n) => {
            let ghost known = lines_view(names@);
            let mut k: usize = 0;
            while k < names.len()
                invariant
                    k <= names.len(),
                    known == lines_view(names@),
                    names@ == old(names)@,
                    name == Some(n),
                    forall|j: int| 0 <= j < k ==> known[j] != n@,
                decreases names.len() - k,
            {
                if names[k] == n {
                    assert(known[k as int] == n@);
                    return ;
                }
                k += 1;
            }
            names.push(n);
        },
        None => {},
    }
}

impl Problem {
    /// Reads a problem from lines of text, one equation to a line.
    ///
    /// The first line that holds no equation ends the reading with its index
    /// and what is wrong with it. Where every line holds one, the lines must
    /// not name more than one unknown. The problem holds the equations by
    /// kind, in the order of the lines.
    pub fn read_from_lines(lines: &Vec<String>) -> (r: Result<Problem, ReadError>)
        ensures
            match r {
                Ok(problem) => {
                    &&& forall|j: int|
                        0 <= j < lines.len() ==> line_of(#[trigger] lines_view(lines@)[j]) is Ok
                    &&& names_of(equations_of(lines_view(lines@))).len() < 2
                    &&& problem@ == system_of(equations_of(lines_view(lines@)))
                },
                Err(ReadError::MissingSeparator(i)) => {
                    &&& i < lines.len()
                    &&& line_of(lines_view(lines@)[i as int]) == Err::<(SideText, SideText), _>(
                        LineError::MissingSeparator,
                    )
                    &&& forall|j: int| 0 <= j < i ==> line_of(#[trigger] lines_view(lines@)[j]) is Ok
                },
                Err(ReadError::InvalidSymbol(i)) => {
                    &&& i < lines.len()
                    &&& line_of(lines_view(lines@)[i as int]) == Err::<(SideText, SideText), _>(
                        LineError::InvalidSymbol,
                    )
                    &&& forall|j: int| 0 <= j < i ==> line_of(#[trigger] lines_view(lines@)[j]) is Ok
                },
                Err(ReadError::MultipleVariables(names)) => {
                    &&& forall|j: int|
                        0 <= j < lines.len() ==> line_of(#[trigger] lines_view(lines@)[j]) is Ok
                    &&& lines_view(names@) == names_of(equations_of(lines_view(lines@)))
                    &&& names.len() >= 2
                },
            },
    {
        let ghost texts = lines_view(lines@);
        let ghost all = equations_of(texts);
        let mut problem = Problem::empty();
        let mut names: Vec<String> = Vec::new();
        let mut i: usize = 0;
        while i < lines.len()
            invariant
                i <= lines.len(),
                texts == lines_view(lines@),
                all == equations_of(texts),
                forall|j: int| 0 <= j < i ==> line_of(#[trigger] texts[j]) is Ok,
                problem@ == system_of(all.take(i as int)),
                lines_view(names@) == names_of(all.take(i as int)),
            decreases lines.len() - i,
        {
            match parse_line(lines[i].as_str()) {
                Err(LineError::MissingSeparator) => {
                    return Err(ReadError::MissingSeparator(i));
                },
                Err(LineError::InvalidSymbol) => {
                    return Err(ReadError::InvalidSymbol(i));
                },
                Ok((left, right)) => {
                    proof {
                        assert(all.take(i + 1).drop_last() =~= all.take(i as int));
                    }
                    let kind = classify(left.variable.is_some(), right.variable.is_some());
                    note_name(&mut names, left.variable);
                    note_name(&mut names, right.variable);
                    problem.add(kind, left.literals, right.literals);
                },
            }
            i += 1;
        }
        assert(all.take(i as int) =~= all);
        if names.len() >= 2 {
            Err(ReadError::MultipleVariables(names))
        } else {
            Ok(problem)
        }
    }
}

} // verus!
