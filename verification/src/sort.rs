//! The sort driver: a merge sort of keyed items under the comparator.

use crate::collation::in_order;
use crate::collation::is_in_order;
use crate::collation::lemma_in_order_total;
use vstd::multiset::Multiset;
use vstd::prelude::*;
use vstd::seq_lib::lemma_multiset_commutative;

verus! {

/// The keys of a sequence of keyed items, in the items' order.
pub open spec fn pair_keys<R>(pairs: Seq<(String, R)>) -> Seq<Seq<char>> {
    Seq::new(pairs.len(), |i: int| pairs[i].0@)
}

/// Each key may stand before its right-hand neighbour.
pub open spec fn neighbours_in_order(keys: Seq<Seq<char>>) -> bool {
    forall|i: int| 0 <= i && i + 1 < keys.len() ==> in_order(#[trigger] keys[i], keys[i + 1])
}

/// Each key may stand before every key to its right.
pub open spec fn all_in_order(keys: Seq<Seq<char>>) -> bool {
    forall|i: int, j: int|
        0 <= i < j < keys.len() ==> in_order(#[trigger] keys[i], #[trigger] keys[j])
}

/// Among these keys, whatever may stand before a key may also stand before
/// all that this key may stand before.
pub open spec fn transitive_among(keys: Seq<Seq<char>>) -> bool {
    forall|i: int, j: int, k: int|
        0 <= i < keys.len() && 0 <= j < keys.len() && 0 <= k < keys.len() && in_order(
            #[trigger] keys[i],
            #[trigger] keys[j],
        ) && in_order(keys[j], #[trigger] keys[k]) ==> in_order(keys[i], keys[k])
}

/// Every key of `left` may stand before every key of `right`.
pub open spec fn all_before(left: Seq<Seq<char>>, right: Seq<Seq<char>>) -> bool {
    forall|i: int, j: int|
        0 <= i < left.len() && 0 <= j < right.len() ==> in_order(
            #[trigger] left[i],
            #[trigger] right[j],
        )
}

/// Each key may stand after its right-hand neighbour: the sequence runs from
/// the largest key down.
spec fn neighbours_in_reverse(keys: Seq<Seq<char>>) -> bool {
    forall|i: int| 0 <= i && i + 1 < keys.len() ==> in_order(keys[i + 1], #[trigger] keys[i])
}

/// A sequence without items has no item in its multiset.
proof fn lemma_no_items<A>(s: Seq<A>)
    requires
        s.len() == 0,
    ensures
        s.to_multiset() == Multiset::<A>::empty(),
{
    assert forall|a: A| s.to_multiset().count(a) == 0 by {
        vstd::seq_lib::to_multiset_contains(s, a);
    }
}

/// Merges two runs, each with its neighbours in order, into one.
///
/// Items leave the two runs from the back, the larger first and on a tie the
/// one of `right`, and are set aside; when one run is used up, what was set
/// aside goes behind the rest of the other.
fn merge<R>(left: Vec<(String, R)>, right: Vec<(String, R)>) -> (merged: Vec<(String, R)>)
    requires
        neighbours_in_order(pair_keys(left@)),
        neighbours_in_order(pair_keys(right@)),
    ensures
        merged@.to_multiset() == left@.to_multiset().add(right@.to_multiset()),
        neighbours_in_order(pair_keys(merged@)),
        all_before(pair_keys(left@), pair_keys(right@)) ==> merged@ == left@ + right@,
{
    let ghost left0 = left@;
    let ghost right0 = right@;
    let ghost undisturbed = all_before(pair_keys(left@), pair_keys(right@));
    let mut left = left;
    let mut right = right;
    let mut aside: Vec<(String, R)> = Vec::new();
    proof {
        lemma_no_items(aside@);
    }
    while left.len() > 0 && right.len() > 0
        invariant
            // What is left of each run is its front part.
            left@ == left0.take(left@.len() as int),
            right@ == right0.take(right@.len() as int),
            left@.len() <= left0.len(),
            right@.len() <= right0.len(),
            neighbours_in_order(pair_keys(left0)),
            neighbours_in_order(pair_keys(right0)),
            undisturbed == all_before(pair_keys(left0), pair_keys(right0)),
            // What was set aside runs from the largest key down, and the last
            // item of either run may stand before the smallest of it.
            neighbours_in_reverse(pair_keys(aside@)),
            aside@.len() > 0 && left@.len() > 0 ==> in_order(left@.last().0@, aside@.last().0@),
            aside@.len() > 0 && right@.len() > 0 ==> in_order(right@.last().0@, aside@.last().0@),
            // No item is lost and none is made.
            left@.to_multiset().add(right@.to_multiset()).add(aside@.to_multiset())
                == left0.to_multiset().add(right0.to_multiset()),
            // Where all of `left` may stand before all of `right`, only
            // `right` gives items away.
            undisturbed ==> left@ == left0 && aside@ == right0.skip(right@.len() as int).reverse(),
        decreases left@.len() + right@.len(),
    {
        let ghost left1 = left@;
        let ghost right1 = right@;
        let ghost aside1 = aside@;
        let from_left = !is_in_order(&left[left.len() - 1].0, &right[right.len() - 1].0);
        proof {
            lemma_in_order_total(left1.last().0@, right1.last().0@);
            if undisturbed {
                assert(pair_keys(left0)[left1.len() - 1] == left1.last().0@);
                assert(pair_keys(right0)[right1.len() - 1] == right1.last().0@);
            }
        }
        let item = if from_left {
            left.pop().unwrap()
        } else {
            right.pop().unwrap()
        };
        aside.push(item);
        proof {
            let keys = pair_keys(aside@);
            assert forall|i: int| 0 <= i && i + 1 < keys.len() implies in_order(
                keys[i + 1],
                #[trigger] keys[i],
            ) by {
                if i + 1 < aside1.len() {
                    assert(pair_keys(aside1)[i] == keys[i]);
                }
            }
            if from_left {
                assert(left1 =~= left@.push(item));
                if left@.len() > 0 {
                    let at = left@.len() - 1;
                    assert(pair_keys(left0)[at] == left@.last().0@);
                }
            } else {
                assert(right1 =~= right@.push(item));
                if right@.len() > 0 {
                    let at = right@.len() - 1;
                    assert(pair_keys(right0)[at] == right@.last().0@);
                }
            }
            vstd::seq_lib::to_multiset_build(left@, item);
            vstd::seq_lib::to_multiset_build(right@, item);
            vstd::seq_lib::to_multiset_build(aside1, item);
        }
    }
    let ghost left2 = left@;
    let ghost right2 = right@;
    let ghost aside2 = aside@;
    let mut merged = if left.len() > 0 {
        left
    } else {
        right
    };
    let ghost rest = merged@;
    proof {
        if left2.len() == 0 {
            lemma_no_items(left2);
        } else {
            lemma_no_items(right2);
        }
        assert(rest.to_multiset().add(aside2.to_multiset()) =~= left0.to_multiset().add(
            right0.to_multiset(),
        ));
        assert(neighbours_in_order(pair_keys(rest))) by {
            let keys = pair_keys(rest);
            assert forall|i: int| 0 <= i && i + 1 < keys.len() implies in_order(
                #[trigger] keys[i],
                keys[i + 1],
            ) by {
                if left2.len() > 0 {
                    assert(pair_keys(left0)[i] == keys[i]);
                } else {
                    assert(pair_keys(right0)[i] == keys[i]);
                }
            }
        }
    }
    while aside.len() > 0
        invariant
            // What has left `aside` stands behind the rest, last out first.
            aside@ == aside2.take(aside@.len() as int),
            aside@.len() <= aside2.len(),
            merged@ == rest + aside2.skip(aside@.len() as int).reverse(),
            neighbours_in_reverse(pair_keys(aside2)),
            neighbours_in_order(pair_keys(merged@)),
            aside@.len() > 0 && merged@.len() > 0 ==> in_order(
                merged@.last().0@,
                aside@.last().0@,
            ),
            merged@.to_multiset().add(aside@.to_multiset()) == rest.to_multiset().add(
                aside2.to_multiset(),
            ),
        decreases aside@.len(),
    {
        let ghost merged1 = merged@;
        let ghost aside1 = aside@;
        let item = aside.pop().unwrap();
        merged.push(item);
        proof {
            assert(aside1 =~= aside@.push(item));
            let keys = pair_keys(merged@);
            assert forall|i: int| 0 <= i && i + 1 < keys.len() implies in_order(
                #[trigger] keys[i],
                keys[i + 1],
            ) by {
                if i + 1 < merged1.len() {
                    assert(pair_keys(merged1)[i] == keys[i]);
                }
            }
            if aside@.len() > 0 {
                let at = aside@.len() - 1;
                assert(pair_keys(aside2)[at] == aside@.last().0@);
            }
            vstd::seq_lib::to_multiset_build(aside@, item);
            vstd::seq_lib::to_multiset_build(merged1, item);
        }
    }
    proof {
        lemma_no_items(aside@);
    }
    merged
}

/// Where whatever stands before a key also stands before what follows it,
/// neighbours in order are enough for all pairs to be in order.
pub proof fn lemma_neighbours_suffice(keys: Seq<Seq<char>>)
    requires
        neighbours_in_order(keys),
        transitive_among(keys),
    ensures
        all_in_order(keys),
{
    assert forall|i: int, j: int| 0 <= i < j < keys.len() implies in_order(
        #[trigger] keys[i],
        #[trigger] keys[j],
    ) by {
        lemma_reaches(keys, i, j);
    }
}

proof fn lemma_reaches(keys: Seq<Seq<char>>, i: int, j: int)
    requires
        neighbours_in_order(keys),
        transitive_among(keys),
        0 <= i < j < keys.len(),
    ensures
        in_order(keys[i], keys[j]),
    decreases j - i,
{
    if i + 1 < j {
        lemma_reaches(keys, i, j - 1);
    }
}

/// Each item of a rearrangement is an item of the sequence it rearranges.
proof fn lemma_item_comes_from<A>(input: Seq<A>, output: Seq<A>, at: int) -> (from: int)
    requires
        output.to_multiset() == input.to_multiset(),
        0 <= at < output.len(),
    ensures
        0 <= from < input.len(),
        input[from] == output[at],
{
    vstd::seq_lib::to_multiset_contains(output, output[at]);
    vstd::seq_lib::to_multiset_contains(input, output[at]);
    choose|from: int| 0 <= from < input.len() && input[from] == output[at]
}

/// Transitivity among the keys of some items carries over to any
/// rearrangement of these items.
pub proof fn lemma_transitive_carries<R>(input: Seq<(String, R)>, output: Seq<(String, R)>)
    requires
        output.to_multiset() == input.to_multiset(),
        transitive_among(pair_keys(input)),
    ensures
        transitive_among(pair_keys(output)),
{
    let before = pair_keys(input);
    let after = pair_keys(output);
    assert forall|i: int, j: int, k: int|
        0 <= i < after.len() && 0 <= j < after.len() && 0 <= k < after.len() && in_order(
            #[trigger] after[i],
            #[trigger] after[j],
        ) && in_order(after[j], #[trigger] after[k]) implies in_order(after[i], after[k]) by {
        let a = lemma_item_comes_from(input, output, i);
        let b = lemma_item_comes_from(input, output, j);
        let c = lemma_item_comes_from(input, output, k);
        assert(before[a] == after[i] && before[b] == after[j] && before[c] == after[k]);
    }
}

/// The merge sort proper.
fn merge_sort<R>(items: Vec<(String, R)>) -> (sorted: Vec<(String, R)>)
    ensures
        sorted@.to_multiset() == items@.to_multiset(),
        neighbours_in_order(pair_keys(sorted@)),
        all_in_order(pair_keys(items@)) ==> sorted@ == items@,
    decreases items@.len(),
{
    let count = items.len();
    if count < 2 {
        return items;
    }
    let ghost whole = items@;
    let mut left = items;
    let right = left.split_off(count / 2);
    let ghost front = left@;
    let ghost back = right@;
    proof {
        assert(whole =~= front + back);
        lemma_multiset_commutative(front, back);
        if all_in_order(pair_keys(whole)) {
            let keys = pair_keys(whole);
            let mid = front.len() as int;
            assert forall|i: int, j: int| 0 <= i < j < front.len() implies in_order(
                #[trigger] pair_keys(front)[i],
                #[trigger] pair_keys(front)[j],
            ) by {
                assert(in_order(keys[i], keys[j]));
            }
            assert forall|i: int, j: int| 0 <= i < j < back.len() implies in_order(
                #[trigger] pair_keys(back)[i],
                #[trigger] pair_keys(back)[j],
            ) by {
                assert(in_order(keys[mid + i], keys[mid + j]));
            }
            assert forall|i: int, j: int| 0 <= i < front.len() && 0 <= j < back.len() implies in_order(
                #[trigger] pair_keys(front)[i],
                #[trigger] pair_keys(back)[j],
            ) by {
                assert(in_order(keys[i], keys[mid + j]));
            }
        }
    }
    let left = merge_sort(left);
    let right = merge_sort(right);
    merge(left, right)
}

/// `output` is `input` sorted by key.
///
/// It holds the same items, and so the same keys. Each key in it may stand
/// before its right-hand neighbour, whatever the collation engine answered;
/// every key may stand before all keys to its right wherever the engine's
/// answers on the keys at hand are transitive. Items that were in order
/// already have stayed as they were.
pub open spec fn sorted_from<R>(input: Seq<(String, R)>, output: Seq<(String, R)>) -> bool {
    &&& output.to_multiset() == input.to_multiset()
    &&& pair_keys(output).to_multiset() == pair_keys(input).to_multiset()
    &&& output.len() == input.len()
    &&& neighbours_in_order(pair_keys(output))
    &&& transitive_among(pair_keys(input)) ==> all_in_order(pair_keys(output))
    &&& all_in_order(pair_keys(input)) ==> output == input
}

/// Sorts keyed items by their keys, in collation order.
pub fn sort_pairs<R>(pairs: Vec<(String, R)>) -> (sorted: Vec<(String, R)>)
    ensures
        sorted_from(pairs@, sorted@),
{
    let ghost input = pairs@;
    let sorted = merge_sort(pairs);
    proof {
        vstd::seq_lib::to_multiset_len(input);
        vstd::seq_lib::to_multiset_len(sorted@);
        if transitive_among(pair_keys(input)) {
            lemma_transitive_carries(input, sorted@);
            lemma_neighbours_suffice(pair_keys(sorted@));
        }
        let key = |pair: (String, R)| pair.0@;
        lemma_mapped_rearrangement(sorted@, input, key);
        assert(sorted@.map_values(key) =~= pair_keys(sorted@));
        assert(input.map_values(key) =~= pair_keys(input));
    }
    sorted
}

/// Sorting what has been sorted changes nothing, wherever the engine's
/// answers on the keys at hand are transitive.
pub proof fn law_sorting_again_changes_nothing<R>(
    input: Seq<(String, R)>,
    once: Seq<(String, R)>,
    twice: Seq<(String, R)>,
)
    requires
        sorted_from(input, once),
        sorted_from(once, twice),
        transitive_among(pair_keys(input)),
    ensures
        twice == once,
{
}

/// Two sequences that hold the same items still hold the same items after
/// each item has been replaced by what `f` makes of it.
pub proof fn lemma_mapped_rearrangement<A, B>(a: Seq<A>, b: Seq<A>, f: spec_fn(A) -> B)
    requires
        a.to_multiset() == b.to_multiset(),
    ensures
        a.map_values(f).to_multiset() == b.map_values(f).to_multiset(),
    decreases a.len(),
{
    vstd::seq_lib::to_multiset_len(a);
    vstd::seq_lib::to_multiset_len(b);
    if a.len() == 0 {
        assert(a.map_values(f) =~= b.map_values(f));
    } else {
        let x = a.last();
        let rest_a = a.drop_last();
        let at = lemma_item_comes_from(b, a, a.len() - 1);
        let rest_b = b.remove(at);
        assert(a =~= rest_a.push(x));
        vstd::seq_lib::to_multiset_build(rest_a, x);
        vstd::seq_lib::to_multiset_remove(b, at);
        assert(rest_a.to_multiset() =~= a.to_multiset().remove(x));
        lemma_mapped_rearrangement(rest_a, rest_b, f);
        assert(a.map_values(f) =~= rest_a.map_values(f).push(f(x)));
        assert(b.map_values(f) =~= rest_b.map_values(f).insert(at, f(x)));
        vstd::seq_lib::to_multiset_build(rest_a.map_values(f), f(x));
        vstd::seq_lib::to_multiset_insert(rest_b.map_values(f), at, f(x));
    }
}

/// The same keys can be put in order in one way only: two arrangements of
/// them, each with every key before all keys to its right, are the same
/// sequence.
pub proof fn law_order_is_unique(a: Seq<Seq<char>>, b: Seq<Seq<char>>)
    requires
        a.to_multiset() == b.to_multiset(),
        all_in_order(a),
        all_in_order(b),
    ensures
        a == b,
    decreases a.len(),
{
    vstd::seq_lib::to_multiset_len(a);
    vstd::seq_lib::to_multiset_len(b);
    if a.len() > 0 {
        let last = a.len() - 1;
        let in_b = lemma_item_comes_from(b, a, last);
        let in_a = lemma_item_comes_from(a, b, last);
        assert(a[last] == b[last]) by {
            lemma_in_order_total(a[last], b[last]);
        }
        let rest_a = a.drop_last();
        let rest_b = b.drop_last();
        assert(a =~= rest_a.push(a[last]));
        assert(b =~= rest_b.push(b[last]));
        vstd::seq_lib::to_multiset_build(rest_a, a[last]);
        vstd::seq_lib::to_multiset_build(rest_b, b[last]);
        assert(rest_a.to_multiset() =~= a.to_multiset().remove(a[last]));
        assert(rest_b.to_multiset() =~= b.to_multiset().remove(b[last]));
        law_order_is_unique(rest_a, rest_b);
    }
}

/// The strings of a sequence, each as the characters it holds.
pub open spec fn string_keys(texts: Seq<String>) -> Seq<Seq<char>> {
    Seq::new(texts.len(), |i: int| texts[i]@)
}

/// Sorts strings into collation order.
///
/// The result holds the same strings, each as often as the input. Each may
/// stand before its right-hand neighbour, whatever the collation engine
/// answered; each may stand before all strings to its right wherever the
/// engine's answers on the strings at hand are transitive. Strings that are in
/// order already stay as they are.
pub fn uca_simple_sort(inputs: Vec<String>) -> (sorted: Vec<String>)
    ensures
        sorted@.to_multiset() == inputs@.to_multiset(),
        string_keys(sorted@).to_multiset() == string_keys(inputs@).to_multiset(),
        sorted@.len() == inputs@.len(),
        neighbours_in_order(string_keys(sorted@)),
        transitive_among(string_keys(inputs@)) ==> all_in_order(string_keys(sorted@)),
        all_in_order(string_keys(inputs@)) ==> sorted@ == inputs@,
{
    let ghost input = inputs@;
    let mut pairs: Vec<(String, ())> = Vec::new();
    for text in it: inputs.into_iter()
        invariant
            it.seq() == input,
            pairs@ == Seq::new(it.index() as nat, |i: int| (input[i], ())),
    {
        pairs.push((text, ()));
    }
    let ghost paired = pairs@;
    let arranged = sort_pairs(pairs);
    let ghost output = arranged@;
    let mut sorted: Vec<String> = Vec::new();
    for pair in it: arranged.into_iter()
        invariant
            it.seq() == output,
            sorted@ == Seq::new(it.index() as nat, |i: int| output[i].0),
    {
        sorted.push(pair.0);
    }
    proof {
        let first = |pair: (String, ())| pair.0;
        lemma_mapped_rearrangement(output, paired, first);
        assert(output.map_values(first) =~= sorted@);
        assert(paired.map_values(first) =~= input);
        assert(pair_keys(paired) =~= string_keys(input));
        assert(pair_keys(output) =~= string_keys(sorted@));
        if all_in_order(string_keys(input)) {
        }
    }
    sorted
}

} // verus!
