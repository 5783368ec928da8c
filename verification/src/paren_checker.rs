//! The balance of parentheses in raw text.

use vstd::prelude::*;
use vstd::string::StrSliceExecFns;

verus! {

/// What one character adds to the number of open parentheses.
pub open spec fn paren_step(c: char) -> int {
    if c == '(' {
        1
    } else if c == ')' {
        -1
    } else {
        0
    }
}

/// Opening minus closing parentheses in `s`.
pub open spec fn paren_depth(s: Seq<char>) -> int
    decreases s.len(),
{
    if s.len() == 0 {
        0
    } else {
        paren_depth(s.drop_last()) + paren_step(s.last())
    }
}

/// Every `)` closes a `(` that stands before it, and none stays open.
pub open spec fn balanced(s: Seq<char>) -> bool {
    &&& paren_depth(s) == 0
    &&& forall|k: int| 0 <= k <= s.len() ==> paren_depth(#[trigger] s.take(k)) >= 0
}

/// The depth of a prefix is bounded by its length.
proof fn lemma_depth_bound(s: Seq<char>)
    ensures
        paren_depth(s) <= s.len(),
    decreases s.len(),
{
    if s.len() > 0 {
        lemma_depth_bound(s.drop_last());
    }
}

/// Tells whether the parentheses of `sequence` pair up. All other
/// characters are passed over.
pub fn check_pairs(sequence: &str) -> (ok: bool)
    ensures
        ok == balanced(sequence@),
{
    let n: usize = sequence.unicode_len();
    let mut open: usize = 0;
    let mut i: usize = 0;
    while i < n
        invariant
            n == sequence@.len(),
            i <= n,
            open == paren_depth(sequence@.take(i as int)),
            forall|k: int| 0 <= k <= i ==> paren_depth(#[trigger] sequence@.take(k)) >= 0,
        decreases n - i,
    {
        let c = sequence.get_char(i);
        proof {
            let next = sequence@.take(i + 1);
            assert(next.drop_last() =~= sequence@.take(i as int));
            assert(next.last() == c);
            lemma_depth_bound(next);
        }
        if c == '(' {
            open = open + 1;
        } else if c == ')' {
            if open == 0 {
                assert(paren_depth(sequence@.take(i + 1)) < 0);
                return false;
            }
            open = open - 1;
        }
        i = i + 1;
    }
    assert(sequence@.take(n as int) =~= sequence@);
    open == 0
}

} // verus!
