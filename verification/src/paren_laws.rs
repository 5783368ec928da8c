//! Parentheses in the text and among the tokens.
//!
//! The scan makes a token of each parenthesis and of nothing else, so the
//! parentheses of the tokens pair up where those of the text do.

use vstd::prelude::*;
use crate::Type;
use crate::conversion_laws::{closes, pairs_up};
use crate::paren_checker::{balanced, paren_depth, paren_step};
use crate::tokenizer::{closed, ends_unit, is_paren, scan, tokens_of};

verus! {

/// The parentheses of `s` close the `depth` groups that are open before it,
/// and their own.
pub open spec fn closes_text(s: Seq<char>, depth: nat) -> bool
    decreases s.len(),
{
    if s.len() == 0 {
        depth == 0
    } else if s[0] == '(' {
        closes_text(s.skip(1), depth + 1)
    } else if s[0] == ')' {
        depth > 0 && closes_text(s.skip(1), (depth - 1) as nat)
    } else {
        closes_text(s.skip(1), depth)
    }
}

/// The depth of a text is that of its first character and of the rest.
proof fn lemma_depth_first(s: Seq<char>)
    requires
        s.len() > 0,
    ensures
        paren_depth(s) == paren_step(s[0]) + paren_depth(s.skip(1)),
    decreases s.len(),
{
    if s.len() == 1 {
        assert(s.drop_last() =~= s.skip(1));
    } else {
        lemma_depth_first(s.drop_last());
        assert(s.drop_last().skip(1) =~= s.skip(1).drop_last());
        assert(s.skip(1).last() == s.last());
    }
}

/// No prefix closes more than `depth` groups beyond its own, and the whole
/// closes exactly those.
pub open spec fn stays_above(s: Seq<char>, depth: nat) -> bool {
    &&& depth + paren_depth(s) == 0
    &&& forall|k: int| 0 <= k <= s.len() ==> depth + paren_depth(#[trigger] s.take(k)) >= 0
}

proof fn lemma_closes_text(s: Seq<char>, depth: nat)
    ensures
        closes_text(s, depth) == stays_above(s, depth),
    decreases s.len(),
{
    if s.len() == 0 {
        assert(s.take(0) =~= s);
    } else {
        let rest = s.skip(1);
        let step = paren_step(s[0]);
        lemma_depth_first(s);
        assert(paren_depth(s.take(1)) == step) by {
            lemma_depth_first(s.take(1));
            assert(paren_depth(s.take(1).skip(1)) == 0);
        }
        if depth + step < 0 {
            assert(!stays_above(s, depth));
        } else {
            let below = (depth + step) as nat;
            lemma_closes_text(rest, below);
            assert(closes_text(s, depth) == closes_text(rest, below));
            if stays_above(rest, below) {
                assert forall|k: int| 0 <= k <= s.len() implies depth + paren_depth(
                    #[trigger] s.take(k),
                ) >= 0 by {
                    if k == 0 {
                        assert(s.take(0).len() == 0);
                    } else {
                        lemma_depth_first(s.take(k));
                        assert(s.take(k).skip(1) =~= rest.take(k - 1));
                    }
                }
            }
            if stays_above(s, depth) {
                assert forall|k: int| 0 <= k <= rest.len() implies below + paren_depth(
                    #[trigger] rest.take(k),
                ) >= 0 by {
                    lemma_depth_first(s.take(k + 1));
                    assert(s.take(k + 1).skip(1) =~= rest.take(k));
                }
            }
        }
    }
}

/// The two ways to say that the parentheses of a text pair up agree.
pub proof fn balanced_is_closing(s: Seq<char>)
    ensures
        balanced(s) == closes_text(s, 0),
{
    lemma_closes_text(s, 0);
}

/// The groups left open behind the tokens `ts`, begun with `depth`; `None`
/// where a `)` finds none to close.
pub open spec fn depth_behind(ts: Seq<Type>, depth: nat) -> Option<nat>
    decreases ts.len(),
{
    if ts.len() == 0 {
        Some(depth)
    } else {
        match depth_behind(ts.drop_last(), depth) {
            None => None,
            Some(d) => match ts.last() {
                Type::Parentheses(c) => if c == '(' {
                    Some(d + 1)
                } else if c == ')' {
                    if d > 0 {
                        Some((d - 1) as nat)
                    } else {
                        None
                    }
                } else {
                    Some(d)
                },
                _ => Some(d),
            },
        }
    }
}

/// What the tokens behind `ts` have to close is what `ts` leaves open.
proof fn lemma_closes_behind(ts: Seq<Type>, rest: Seq<Type>, depth: nat)
    ensures
        closes(ts + rest, depth) == match depth_behind(ts, depth) {
            Some(d) => closes(rest, d),
            None => false,
        },
    decreases ts.len(),
{
    if ts.len() == 0 {
        assert(ts + rest =~= rest);
    } else {
        let front = ts.drop_last();
        let tail = seq![ts.last()] + rest;
        assert(ts + rest =~= front + tail);
        lemma_closes_behind(front, tail, depth);
        assert(tail[0] == ts.last());
        assert(tail.skip(1) =~= rest);
    }
}

/// The scan hands the parentheses of the text on to the tokens.
proof fn lemma_scan_closes(
    s: Seq<char>,
    unit: Seq<char>,
    out: Seq<Type>,
    g: spec_fn(Seq<char>) -> Option<u64>,
    depth: nat,
)
    requires
        scan(s, unit, out, g) is Some,
    ensures
        closes(scan(s, unit, out, g).unwrap(), depth) == match depth_behind(out, depth) {
            Some(d) => closes_text(s, d),
            None => false,
        },
    decreases s.len(),
{
    let ts = scan(s, unit, out, g).unwrap();
    let none = Seq::<Type>::empty();
    if s.len() == 0 || ends_unit(s[0]) {
        let shut = closed(out, unit, g).unwrap();
        assert(depth_behind(shut, depth) == depth_behind(out, depth)) by {
            if unit.len() > 0 {
                assert(shut.drop_last() =~= out);
            }
        }
        if s.len() == 0 {
            assert(shut + none =~= shut);
            lemma_closes_behind(shut, none, depth);
        } else if is_paren(s[0]) {
            let next = shut.push(Type::Parentheses(s[0]));
            assert(next.drop_last() =~= shut);
            lemma_scan_closes(s.skip(1), Seq::empty(), next, g, depth);
        } else {
            lemma_scan_closes(s.skip(1), Seq::empty(), shut, g, depth);
        }
    } else {
        lemma_scan_closes(s.skip(1), unit.push(s[0]), out, g, depth);
    }
}

/// The parentheses of the tokens pair up where those of the text do, and
/// only there.
pub proof fn tokens_pair_up_as_the_text(
    s: Seq<char>,
    ts: Seq<Type>,
    g: spec_fn(Seq<char>) -> Option<u64>,
)
    requires
        tokens_of(s, g) == Some(ts),
    ensures
        pairs_up(ts) == balanced(s),
{
    lemma_scan_closes(s, Seq::empty(), Seq::empty(), g, 0);
    balanced_is_closing(s);
}

} // verus!
