//! Words of symbols and the "begins-with" relation between them.

use vstd::prelude::*;

verus! {

/// `a` begins with `b`: `b` is no longer than `a` and agrees with it symbol
/// for symbol. Every word begins with the empty word.
pub open spec fn begins_with(a: Seq<i32>, b: Seq<i32>) -> bool {
    &&& b.len() <= a.len()
    &&& forall|i: int| 0 <= i < b.len() ==> a[i] == b[i]
}

/// Decides whether `a` begins with `b`.
pub fn starts_with(a: &Vec<i32>, b: &Vec<i32>) -> (r: bool)
    ensures
        r == begins_with(a@, b@),
{
    if b.len() > a.len() {
        return false;
    }
    let mut i: usize = 0;
    while i < b.len()
        invariant
            i <= b.len() <= a.len(),
            forall|j: int| 0 <= j < i ==> a@[j] == b@[j],
        decreases b.len() - i,
    {
        if a[i] != b[i] {
            return false;
        }
        i += 1;
    }
    true
}

/// A copy of `w` without its first `from` symbols.
pub fn suffix_from(w: &Vec<i32>, from: usize) -> (r: Vec<i32>)
    requires
        from <= w.len(),
    ensures
        r@ == w@.skip(from as int),
{
    let mut r: Vec<i32> = Vec::new();
    let mut i: usize = from;
    while i < w.len()
        invariant
            from <= i <= w.len(),
            r@ == w@.subrange(from as int, i as int),
        decreases w.len() - i,
    {
        r.push(w[i]);
        i += 1;
    }
    r
}

} // verus!
