//! The raw code-point order on strings: the last tie-break of the comparator.

use core::cmp::Ordering;
use vstd::prelude::*;
use vstd::std_specs::iter::IteratorSpec;

verus! {

/// The Unicode scalar value of a character.
pub open spec fn scalar(c: char) -> int {
    c as int
}

/// `a` comes strictly before `b` when the two are read as sequences of scalar
/// values: at the first position where they differ `a` holds the smaller
/// value, or `a` ends there and `b` goes on.
pub open spec fn code_point_less(a: Seq<char>, b: Seq<char>) -> bool
    decreases a.len(),
{
    if b.len() == 0 {
        false
    } else if a.len() == 0 {
        true
    } else if a[0] != b[0] {
        scalar(a[0]) < scalar(b[0])
    } else {
        code_point_less(a.drop_first(), b.drop_first())
    }
}

/// No string comes before itself.
pub proof fn lemma_code_point_less_irreflexive(a: Seq<char>)
    ensures
        !code_point_less(a, a),
    decreases a.len(),
{
    if a.len() > 0 {
        lemma_code_point_less_irreflexive(a.drop_first());
    }
}

/// Of two different strings exactly one comes before the other.
pub proof fn lemma_code_point_less_total(a: Seq<char>, b: Seq<char>)
    ensures
        a != b ==> (code_point_less(a, b) <==> !code_point_less(b, a)),
        a == b ==> !code_point_less(a, b) && !code_point_less(b, a),
    decreases a.len(),
{
    if a == b {
        lemma_code_point_less_irreflexive(a);
    } else if a.len() > 0 && b.len() > 0 {
        if a[0] == b[0] {
            assert(a.drop_first() != b.drop_first()) by {
                if a.drop_first() == b.drop_first() {
                    assert(a =~= seq![a[0]] + a.drop_first());
                    assert(b =~= seq![b[0]] + b.drop_first());
                }
            }
            lemma_code_point_less_total(a.drop_first(), b.drop_first());
        }
    } else {
        assert(a.len() != b.len()) by {
            if a.len() == b.len() {
                assert(a =~= b);
            }
        }
    }
}

/// Dropping a prefix that two strings share does not change which of them comes
/// first.
pub proof fn lemma_code_point_less_skip(a: Seq<char>, b: Seq<char>, k: int)
    requires
        0 <= k <= a.len(),
        k <= b.len(),
        a.take(k) == b.take(k),
    ensures
        code_point_less(a, b) == code_point_less(a.skip(k), b.skip(k)),
        (a == b) == (a.skip(k) == b.skip(k)),
    decreases k,
{
    if k == 0 {
        assert(a.skip(0) =~= a);
        assert(b.skip(0) =~= b);
    } else {
        assert(a[0] == a.take(k)[0]);
        assert(b[0] == b.take(k)[0]);
        let a1 = a.drop_first();
        let b1 = b.drop_first();
        assert(a1.take(k - 1) =~= a.take(k).drop_first());
        assert(b1.take(k - 1) =~= b.take(k).drop_first());
        lemma_code_point_less_skip(a1, b1, k - 1);
        assert(a1.skip(k - 1) =~= a.skip(k));
        assert(b1.skip(k - 1) =~= b.skip(k));
        if a1 == b1 {
            assert(a =~= seq![a[0]] + a1);
            assert(b =~= seq![b[0]] + b1);
        }
    }
}

/// The order of two strings by their code points alone.
pub open spec fn code_point_order(a: Seq<char>, b: Seq<char>) -> Ordering {
    if a == b {
        Ordering::Equal
    } else if code_point_less(a, b) {
        Ordering::Less
    } else {
        Ordering::Greater
    }
}

fn scalar_value(c: char) -> (value: u32)
    ensures
        value == scalar(c),
{
    c as u32
}

/// Compares two strings by their code points, reading both once from the
/// front.
pub fn compare_code_points(a: &str, b: &str) -> (order: Ordering)
    ensures
        order == code_point_order(a@, b@),
{
    let mut left = a.chars();
    let mut right = b.chars();
    let ghost mut seen: int = 0;
    loop
        invariant
            0 <= seen <= a@.len(),
            seen <= b@.len(),
            left.remaining() == a@.skip(seen),
            right.remaining() == b@.skip(seen),
            a@.take(seen) == b@.take(seen),
        decreases a@.len() - seen,
    {
        proof {
            lemma_code_point_less_skip(a@, b@, seen);
        }
        let x = left.next();
        let y = right.next();
        match (x, y) {
            (None, None) => {
                assert(a@.skip(seen) =~= b@.skip(seen));
                return Ordering::Equal;
            },
            (None, Some(_)) => {
                return Ordering::Less;
            },
            (Some(_), None) => {
                return Ordering::Greater;
            },
            (Some(c), Some(d)) => {
                if c != d {
                    if scalar_value(c) < scalar_value(d) {
                        return Ordering::Less;
                    } else {
                        return Ordering::Greater;
                    }
                }
                proof {
                    seen = seen + 1;
                }
            },
        }
    }
}

} // verus!
