//! The comparator: the Unicode Collation Algorithm's verdict on two strings,
//! made strict by the code-point order.

use crate::code_point::code_point_order;
use crate::code_point::compare_code_points;
use crate::code_point::lemma_code_point_less_total;
use core::cmp::Ordering;
use feruca::Collator;
use vstd::prelude::*;

verus! {

/// What the collation engine answers when it is asked to compare `a` with `b`,
/// in that order, under its default settings: the CLDR root table, variable
/// weights shifted, ties between identical sort keys broken by byte value.
///
/// The answer comes out of weight tables that are compiled into the engine, so
/// it depends on the two strings and on nothing else. Nothing more is claimed
/// of it here: in particular not that it is transitive, nor that the answer
/// for `(b, a)` mirrors the answer for `(a, b)`.
pub uninterp spec fn collation(a: Seq<char>, b: Seq<char>) -> Ordering;

/// Asks `feruca::Collator::collate`, on a collator made by
/// `Collator::default()`, to compare `a` with `b`.
///
/// Trusted, not proved: what comes back is the engine's answer for these two
/// strings and depends on them alone, and the call returns for every two
/// strings. The engine reads its weights from tables that are compiled into
/// it, and the panics in its source guard those tables, not its input. A
/// fresh collator serves each call, so that no setting made elsewhere can
/// bear on the answer.
#[verifier::external_body]
fn collate(a: &str, b: &str) -> (verdict: Ordering)
    ensures
        verdict == collation(a@, b@),
{
    Collator::default().collate(a, b)
}

/// A verdict with a tie read as `Less`.
///
/// It is applied to the engine's answer for two different strings that were
/// handed over in code-point order, where `Less` is what the code points say.
pub open spec fn settle(verdict: Ordering) -> Ordering {
    match verdict {
        Ordering::Equal => Ordering::Less,
        Ordering::Less => Ordering::Less,
        Ordering::Greater => Ordering::Greater,
    }
}

/// The same verdict seen from the other side.
pub open spec fn mirror(verdict: Ordering) -> Ordering {
    match verdict {
        Ordering::Less => Ordering::Greater,
        Ordering::Equal => Ordering::Equal,
        Ordering::Greater => Ordering::Less,
    }
}

/// The order of two strings, made from their order by code point and from
/// the engine's verdict on the two, taken with the smaller code points first.
///
/// Identical strings are `Equal` and the verdict is not looked at. Else the
/// verdict stands, with a tie settled in favour of the smaller code points, and
/// is mirrored where the first string has the larger code points.
pub open spec fn decided(by_code_point: Ordering, verdict: Ordering) -> Ordering {
    match by_code_point {
        Ordering::Equal => Ordering::Equal,
        Ordering::Less => settle(verdict),
        Ordering::Greater => mirror(settle(verdict)),
    }
}

/// The collation order of `a` relative to `b`.
///
/// Two different strings are put to the engine with the one that is smaller by
/// code point first. So different strings are never `Equal`, and the order of
/// `(b, a)` is always the mirror of the order of `(a, b)`.
pub open spec fn compare_spec(a: Seq<char>, b: Seq<char>) -> Ordering {
    match code_point_order(a, b) {
        Ordering::Equal => Ordering::Equal,
        Ordering::Less => decided(Ordering::Less, collation(a, b)),
        Ordering::Greater => decided(Ordering::Greater, collation(b, a)),
    }
}

/// `a` may stand before `b` in a sorted sequence.
pub open spec fn in_order(a: Seq<char>, b: Seq<char>) -> bool {
    compare_spec(a, b) != Ordering::Greater
}

/// Makes the order of two strings from their order by code point and from the
/// engine's verdict on the two, taken with the smaller code points first.
pub fn decide(by_code_point: Ordering, verdict: Ordering) -> (order: Ordering)
    ensures
        order == decided(by_code_point, verdict),
{
    match by_code_point {
        Ordering::Equal => Ordering::Equal,
        Ordering::Less => match verdict {
            Ordering::Greater => Ordering::Greater,
            _ => Ordering::Less,
        },
        Ordering::Greater => match verdict {
            Ordering::Greater => Ordering::Less,
            _ => Ordering::Greater,
        },
    }
}

/// Compares two strings for sorting.
pub fn compare(a: &str, b: &str) -> (order: Ordering)
    ensures
        order == compare_spec(a@, b@),
        order == Ordering::Equal <==> a@ == b@,
{
    let by_code_point = compare_code_points(a, b);
    match by_code_point {
        Ordering::Equal => Ordering::Equal,
        Ordering::Less => decide(by_code_point, collate(a, b)),
        Ordering::Greater => decide(by_code_point, collate(b, a)),
    }
}

/// Tells whether `a` may stand before `b` in a sorted sequence.
pub fn is_in_order(a: &str, b: &str) -> (yes: bool)
    ensures
        yes == in_order(a@, b@),
{
    match compare(a, b) {
        Ordering::Greater => false,
        _ => true,
    }
}

/// Two different strings never compare as equal: where the collation weights
/// tie, the code points decide.
pub proof fn law_distinct_strings_never_tie(a: Seq<char>, b: Seq<char>)
    ensures
        compare_spec(a, b) == Ordering::Equal <==> a == b,
{
}

/// Swapping the two strings mirrors the order.
pub proof fn law_compare_mirrors(a: Seq<char>, b: Seq<char>)
    ensures
        compare_spec(b, a) == mirror(compare_spec(a, b)),
{
    lemma_code_point_less_total(a, b);
}

/// Of `a` before `b`, `a` the same as `b`, and `b` before `a`, exactly one
/// holds.
pub proof fn law_trichotomy(a: Seq<char>, b: Seq<char>)
    ensures
        compare_spec(a, b) == Ordering::Less || a == b || compare_spec(b, a) == Ordering::Less,
        !(compare_spec(a, b) == Ordering::Less && a == b),
        !(compare_spec(a, b) == Ordering::Less && compare_spec(b, a) == Ordering::Less),
        !(a == b && compare_spec(b, a) == Ordering::Less),
{
    law_compare_mirrors(a, b);
}

/// Any two strings can be put in order one way or the other, and both ways
/// only if they are the same string.
pub proof fn lemma_in_order_total(a: Seq<char>, b: Seq<char>)
    ensures
        in_order(a, b) || in_order(b, a),
        in_order(a, b) && in_order(b, a) ==> a == b,
{
    law_compare_mirrors(a, b);
}

} // verus!
