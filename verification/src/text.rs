//! The pieces of a line of text: its characters, its words, and the symbols
//! that its numerals stand for.

use vstd::prelude::*;

verus! {

/// Whether `c` has the Unicode property White_Space.
pub uninterp spec fn white_space(c: char) -> bool;

/// Whether `c` has the Unicode property Alphabetic.
pub uninterp spec fn alphabetic(c: char) -> bool;

/// `char::is_whitespace` of the standard library tells whether a character has
/// the Unicode property White_Space. Nothing is claimed of which characters
/// have it.
pub assume_specification[ char::is_whitespace ](c: char) -> (r: bool)
    ensures
        r == white_space(c),
;

/// `char::is_alphabetic` of the standard library tells whether a character has
/// the Unicode property Alphabetic. Nothing is claimed of which characters
/// have it.
pub assume_specification[ char::is_alphabetic ](c: char) -> (r: bool)
    ensures
        r == alphabetic(c),
;

/// The texts that a list of strings holds.
pub open spec fn lines_view(lines: Seq<String>) -> Seq<Seq<char>> {
    lines.map_values(|l: String| l@)
}

/// The words of a text: its longest runs of characters that are not white
/// space, in order. No word is empty.
pub open spec fn tokens(s: Seq<char>) -> Seq<Seq<char>>
    decreases s.len(),
{
    if s.len() == 0 {
        Seq::empty()
    } else {
        let front = tokens(s.drop_last());
        let c = s.last();
        if white_space(c) {
            front
        } else if s.len() >= 2 && !white_space(s[s.len() - 2]) {
            front.drop_last().push(front.last().push(c))
        } else {
            front.push(seq![c])
        }
    }
}

/// No word of a text is empty, and none holds white space. A text that does
/// not end in white space ends with its last word.
pub proof fn theorem_tokens_are_words(s: Seq<char>)
    ensures
        forall|k: int| 0 <= k < tokens(s).len() ==> (#[trigger] tokens(s)[k]).len() > 0,
        forall|k: int, i: int|
            0 <= k < tokens(s).len() && 0 <= i < tokens(s)[k].len() ==> !white_space(
                #[trigger] tokens(s)[k][i],
            ),
        s.len() > 0 && !white_space(s.last()) ==> tokens(s).len() > 0 && tokens(s).last().last()
            == s.last(),
    decreases s.len(),
{
    if s.len() > 0 {
        let front = tokens(s.drop_last());
        theorem_tokens_are_words(s.drop_last());
        if !white_space(s.last()) && s.len() >= 2 && !white_space(s[s.len() - 2]) {
            // the last word of `front` grows by one character
            assert(s.drop_last().last() == s[s.len() - 2]);
            assert(front.len() > 0);
        }
    }
}

/// The pieces of `s` that the ranges mark, each from its first index up to,
/// and without, its second.
pub open spec fn cut(s: Seq<char>, ranges: Seq<(usize, usize)>) -> Seq<Seq<char>> {
    ranges.map_values(|r: (usize, usize)| s.subrange(r.0 as int, r.1 as int))
}

/// The characters of a string.
pub fn chars_of(s: &str) -> (v: Vec<char>)
    ensures
        v@ == s@,
{
    let mut v: Vec<char> = Vec::new();
    for c in it: s.chars()
        invariant
            v@ == it.seq().take(it.index()),
    {
        v.push(c);
    }
    v
}

/// The characters of `s` from index `a` up to, and without, index `b` are a
/// word of the text between `from` and `to`: none of them is white space, and
/// the run cannot be made longer at either end.
pub open spec fn word_at(s: Seq<char>, from: int, to: int, a: int, b: int) -> bool {
    &&& from <= a < b <= to
    &&& forall|i: int| a <= i < b ==> !white_space(#[trigger] s[i])
    &&& a == from || white_space(s[a - 1])
    &&& b == to || white_space(s[b])
}

/// The places of the words of `s` between the indices `from` and `to`, in
/// order: each place is a pair of the index where the word starts and the
/// index where it ends.
pub fn token_ranges(s: &Vec<char>, from: usize, to: usize) -> (ranges: Vec<(usize, usize)>)
    requires
        from <= to <= s.len(),
    ensures
        cut(s@, ranges@) == tokens(s@.subrange(from as int, to as int)),
        forall|k: int|
            0 <= k < ranges.len() ==> word_at(
                s@,
                from as int,
                to as int,
                (#[trigger] ranges[k]).0 as int,
                ranges[k].1 as int,
            ),
        forall|k: int, l: int|
            0 <= k < l < ranges.len() ==> (#[trigger] ranges[k]).1 < (#[trigger] ranges[l]).0,
        forall|i: int|
            from <= i < to && !white_space(#[trigger] s@[i]) ==> exists|k: int|
                0 <= k < ranges.len() && (#[trigger] ranges[k]).0 <= i < ranges[k].1,
{
    let mut ranges: Vec<(usize, usize)> = Vec::new();
    let mut start: Option<usize> = None;
    let mut i: usize = from;
    while i < to
        invariant
            from <= i <= to <= s.len(),
            forall|k: int|
                0 <= k < ranges.len() ==> word_at(
                    s@,
                    from as int,
                    to as int,
                    (#[trigger] ranges[k]).0 as int,
                    ranges[k].1 as int,
                ) && ranges[k].1 <= i,
            forall|k: int, l: int|
                0 <= k < l < ranges.len() ==> (#[trigger] ranges[k]).1 < (#[trigger] ranges[l]).0,
            start is Some <==> i > from && !white_space(s@[i - 1]),
            start matches Some(b) ==> {
                &&& from <= b < i
                &&& forall|j: int| b <= j < i ==> !white_space(#[trigger] s@[j])
                &&& b == from || white_space(s@[b - 1])
                &&& forall|k: int| 0 <= k < ranges.len() ==> (#[trigger] ranges[k]).1 < b
            },
            forall|j: int|
                from <= j < i && !white_space(#[trigger] s@[j]) ==> {
                    ||| exists|k: int|
                        0 <= k < ranges.len() && (#[trigger] ranges[k]).0 <= j < ranges[k].1
                    ||| start matches Some(b) && b <= j
                },
            tokens(s@.subrange(from as int, i as int)) == match start {
                Some(b) => cut(s@, ranges@).push(s@.subrange(b as int, i as int)),
                None => cut(s@, ranges@),
            },
        decreases to - i,
    {
        let c = s[i];
        let ghost seen = s@.subrange(from as int, i as int);
        let ghost longer = s@.subrange(from as int, i + 1);
        let ghost placed = ranges@;
        proof {
            assert(longer.drop_last() =~= seen);
        }
        if c.is_whitespace() {
            match start {
                Some(b) => {
                    ranges.push((b, i));
                    start = None;
                    proof {
                        let last = placed.len() as int;
                        assert forall|j: int|
                            from <= j < i + 1 && !white_space(#[trigger] s@[j]) implies exists|
                            k: int,
                        |
                            0 <= k < ranges.len() && (#[trigger] ranges[k]).0 <= j < ranges[k].1 by {
                            if exists|k: int|
                                0 <= k < placed.len() && (#[trigger] placed[k]).0 <= j < placed[k].1 {
                                let k = choose|k: int|
                                    0 <= k < placed.len() && (#[trigger] placed[k]).0 <= j
                                        < placed[k].1;
                                assert(ranges[k] == placed[k]);
                            } else {
                                assert(ranges[last].0 <= j < ranges[last].1);
                            }
                        }
                    }
                },
                None => {},
            }
        } else {
            match start {
                Some(b) => {
                    let ghost word = s@.subrange(b as int, i as int);
                    assert(word.push(c) =~= s@.subrange(b as int, i + 1));
                },
                None => {
                    assert(seq![c] =~= s@.subrange(i as int, i + 1));
                    start = Some(i);
                },
            }
        }
        i += 1;
    }
    let ghost placed = ranges@;
    match start {
        Some(b) => {
            ranges.push((b, to));
            proof {
                let last = placed.len() as int;
                assert forall|j: int|
                    from <= j < to && !white_space(#[trigger] s@[j]) implies exists|k: int|
                    0 <= k < ranges.len() && (#[trigger] ranges[k]).0 <= j < ranges[k].1 by {
                    if exists|k: int|
                        0 <= k < placed.len() && (#[trigger] placed[k]).0 <= j < placed[k].1 {
                        let k = choose|k: int|
                            0 <= k < placed.len() && (#[trigger] placed[k]).0 <= j < placed[k].1;
                        assert(ranges[k] == placed[k]);
                    } else {
                        assert(ranges[last].0 <= j < ranges[last].1);
                    }
                }
            }
        },
        None => {},
    }
    ranges
}

/// Whether `c` is one of the ten decimal digits.
pub open spec fn is_digit(c: char) -> bool {
    '0' <= c <= '9'
}

/// Every character of `ds` is a decimal digit.
pub open spec fn all_digits(ds: Seq<char>) -> bool {
    forall|i: int| 0 <= i < ds.len() ==> is_digit(#[trigger] ds[i])
}

/// The number that the decimal digits `ds` stand for.
pub open spec fn natural_of(ds: Seq<char>) -> int
    decreases ds.len(),
{
    if ds.len() == 0 {
        0
    } else {
        10 * natural_of(ds.drop_last()) + (ds.last() as int - '0' as int)
    }
}

/// The symbol that a word stands for: an optional sign, `+` or `-`, and after
/// it one decimal digit or more, where the number they stand for is a symbol.
/// Any other word stands for none.
pub open spec fn symbol_of(w: Seq<char>) -> Option<i32> {
    let signed = w.len() > 0 && (w[0] == '-' || w[0] == '+');
    let ds = if signed {
        w.skip(1)
    } else {
        w
    };
    let value = if w.len() > 0 && w[0] == '-' {
        -natural_of(ds)
    } else {
        natural_of(ds)
    };
    if ds.len() > 0 && all_digits(ds) && i32::MIN <= value <= i32::MAX {
        Some(value as i32)
    } else {
        None
    }
}

/// More digits never stand for a smaller number.
pub proof fn lemma_natural_grows(ds: Seq<char>, n: int)
    requires
        all_digits(ds),
        0 <= n <= ds.len(),
    ensures
        0 <= natural_of(ds.take(n)) <= natural_of(ds),
    decreases ds.len() - n,
{
    if n == 0 {
        lemma_natural_nonnegative(ds);
    } else if n < ds.len() {
        let longer = ds.take(n + 1);
        assert(longer.drop_last() =~= ds.take(n));
        lemma_natural_grows(ds, n + 1);
        lemma_natural_nonnegative(ds.take(n));
    } else {
        assert(ds.take(n) =~= ds);
        lemma_natural_nonnegative(ds);
    }
}

/// Digits stand for a number that is not negative.
pub proof fn lemma_natural_nonnegative(ds: Seq<char>)
    requires
        all_digits(ds),
    ensures
        0 <= natural_of(ds),
    decreases ds.len(),
{
    if ds.len() > 0 {
        lemma_natural_nonnegative(ds.drop_last());
    }
}

/// The symbol that the word of `s` between the indices `from` and `to` stands
/// for, if it stands for one.
#[verifier::loop_isolation(false)]
pub fn parse_symbol(s: &Vec<char>, from: usize, to: usize) -> (r: Option<i32>)
    requires
        from <= to <= s.len(),
    ensures
        r == symbol_of(s@.subrange(from as int, to as int)),
{
    let ghost w = s@.subrange(from as int, to as int);
    if from == to {
        return None;
    }
    let negative = s[from] == '-';
    let signed = negative || s[from] == '+';
    let first: usize = if signed {
        from + 1
    } else {
        from
    };
    let ghost ds = s@.subrange(first as int, to as int);
    assert(ds =~= if signed {
        w.skip(1)
    } else {
        w
    });
    if first == to {
        return None;
    }
    let mut value: i64 = 0;
    let mut i: usize = first;
    while i < to
        invariant
            first <= i <= to,
            all_digits(ds.take(i - first)),
            value == natural_of(ds.take(i - first)),
            0 <= value <= 2147483648,
        decreases to - i,
    {
        let c = s[i];
        let ghost seen = ds.take(i - first);
        let ghost longer = ds.take(i - first + 1);
        proof {
            assert(longer.drop_last() =~= seen);
            assert(ds[i - first] == c);
        }
        if !(c >= '0' && c <= '9') {
            return None;
        }
        let digit: i64 = (c as u32 - '0' as u32) as i64;
        value = 10 * value + digit;
        if value > 2147483648 {
            proof {
                if all_digits(ds) {
                    lemma_natural_grows(ds, i - first + 1);
                }
            }
            return None;
        }
        i += 1;
    }
    assert(ds.take(i - first) =~= ds);
    if negative {
        Some((-value) as i32)
    } else if value <= 2147483647 {
        Some(value as i32)
    } else {
        None
    }
}

} // verus!
