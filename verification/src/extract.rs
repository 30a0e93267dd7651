//! The key extraction adapter: sorting records by a string that each record
//! gives out when asked.

use crate::sort::lemma_mapped_rearrangement;
use crate::sort::sort_pairs;
use crate::sort::sorted_from;
use vstd::prelude::*;

verus! {

/// A record did not give out its key.
#[derive(Debug, PartialEq, Eq)]
pub struct ExtractionError<E> {
    /// The position of the record in the input.
    pub index: usize,
    /// What the accessor reported.
    pub cause: E,
}

/// The records of a sequence of keyed records, without their keys.
pub open spec fn records_of<R>(pairs: Seq<(String, R)>) -> Seq<R> {
    Seq::new(pairs.len(), |i: int| pairs[i].1)
}

/// Asked for the key of `record`, the accessor may answer `outcome`.
pub open spec fn may_answer<R, A, E, F: Fn(&R, &str, &Option<Vec<A>>) -> Result<String, E>>(
    invoke: &F,
    record: &R,
    method_name: &str,
    args: &Option<Vec<A>>,
    outcome: Result<String, E>,
) -> bool {
    call_ensures(*invoke, (record, method_name, args), outcome)
}

/// Asked for the key of `record`, the accessor may answer with a key.
pub open spec fn may_give_key<R, A, E, F: Fn(&R, &str, &Option<Vec<A>>) -> Result<String, E>>(
    invoke: &F,
    record: &R,
    method_name: &str,
    args: &Option<Vec<A>>,
) -> bool {
    exists|key: String| #[trigger]
        may_answer(invoke, record, method_name, args, Ok::<String, E>(key))
}

/// The accessor accepts to be asked for the key of each of `objects`.
pub open spec fn may_ask<R, A, E, F: Fn(&R, &str, &Option<Vec<A>>) -> Result<String, E>>(
    invoke: &F,
    objects: Seq<R>,
    method_name: &str,
    args: &Option<Vec<A>>,
) -> bool {
    forall|i: int|
        0 <= i < objects.len() ==> call_requires(
            *invoke,
            (&#[trigger] objects[i], method_name, args),
        )
}

/// Whatever the accessor answers for any of `objects`, it is a key.
pub open spec fn never_fails<R, A, E, F: Fn(&R, &str, &Option<Vec<A>>) -> Result<String, E>>(
    invoke: &F,
    objects: Seq<R>,
    method_name: &str,
    args: &Option<Vec<A>>,
) -> bool {
    forall|i: int, outcome: Result<String, E>|
        0 <= i < objects.len() && #[trigger] may_answer(
            invoke,
            &objects[i],
            method_name,
            args,
            outcome,
        ) ==> outcome is Ok
}

/// For one of `objects` at least, whatever the accessor answers is a failure.
pub open spec fn surely_fails<R, A, E, F: Fn(&R, &str, &Option<Vec<A>>) -> Result<String, E>>(
    invoke: &F,
    objects: Seq<R>,
    method_name: &str,
    args: &Option<Vec<A>>,
) -> bool {
    exists|i: int|
        0 <= i < objects.len() && !may_give_key(invoke, &#[trigger] objects[i], method_name, args)
}

/// `pairs` holds the records of `objects`, in their order, each with a key that
/// the accessor answered for it.
pub open spec fn keyed_by<R, A, E, F: Fn(&R, &str, &Option<Vec<A>>) -> Result<String, E>>(
    invoke: &F,
    objects: Seq<R>,
    method_name: &str,
    args: &Option<Vec<A>>,
    pairs: Seq<(String, R)>,
) -> bool {
    &&& pairs.len() == objects.len()
    &&& forall|i: int|
        0 <= i < objects.len() ==> (#[trigger] pairs[i]).1 == objects[i] && may_answer(
            invoke,
            &objects[i],
            method_name,
            args,
            Ok::<String, E>(pairs[i].0),
        )
}

/// The accessor answered with a key for each record before the one at
/// `error.index`, and with `error.cause` for that one.
pub open spec fn failed_at<R, A, E, F: Fn(&R, &str, &Option<Vec<A>>) -> Result<String, E>>(
    invoke: &F,
    objects: Seq<R>,
    method_name: &str,
    args: &Option<Vec<A>>,
    error: ExtractionError<E>,
) -> bool {
    &&& error.index < objects.len()
    &&& may_answer(
        invoke,
        &objects[error.index as int],
        method_name,
        args,
        Err::<String, E>(error.cause),
    )
    &&& forall|i: int|
        0 <= i < error.index ==> may_give_key(invoke, &#[trigger] objects[i], method_name, args)
}

/// Asks each record for its key, in the order of the input, and pairs the key
/// with the record. The first record that fails ends the extraction; no record
/// behind it is asked.
pub fn extract_keys<R, A, E, F: Fn(&R, &str, &Option<Vec<A>>) -> Result<String, E>>(
    objects: Vec<R>,
    method_name: &str,
    args: &Option<Vec<A>>,
    invoke: &F,
) -> (result: Result<Vec<(String, R)>, ExtractionError<E>>)
    requires
        may_ask(invoke, objects@, method_name, args),
    ensures
        match result {
            Ok(pairs) => keyed_by(invoke, objects@, method_name, args, pairs@),
            Err(error) => failed_at(invoke, objects@, method_name, args, error),
        },
        never_fails(invoke, objects@, method_name, args) ==> result is Ok,
        surely_fails(invoke, objects@, method_name, args) ==> result is Err,
{
    let ghost input = objects@;
    let mut pairs: Vec<(String, R)> = Vec::new();
    for record in it: objects.into_iter()
        invariant
            it.seq() == input,
            pairs@.len() == it.index(),
            may_ask(invoke, input, method_name, args),
            keyed_by(invoke, input.take(it.index()), method_name, args, pairs@),
    {
        let ghost done = pairs@;
        match invoke(&record, method_name, args) {
            Ok(key) => {
                pairs.push((key, record));
            },
            Err(cause) => {
                let error = ExtractionError { index: pairs.len(), cause };
                assert(failed_at(invoke, input, method_name, args, error)) by {
                    assert forall|i: int| 0 <= i < error.index implies may_give_key(
                        invoke,
                        &#[trigger] input[i],
                        method_name,
                        args,
                    ) by {
                        assert(may_answer(
                            invoke,
                            &input[i],
                            method_name,
                            args,
                            Ok::<String, E>(done[i].0),
                        ));
                    }
                }
                return Err(error);
            },
        }
    }
    proof {
        assert forall|i: int| 0 <= i < input.len() implies may_give_key(
            invoke,
            &#[trigger] input[i],
            method_name,
            args,
        ) by {
            assert(may_answer(invoke, &input[i], method_name, args, Ok::<String, E>(pairs@[i].0)));
        }
    }
    Ok(pairs)
}

/// Sorts keyed records by their keys and hands back the records alone.
pub fn sort_by_extracted_keys<R>(pairs: Vec<(String, R)>) -> (sorted: Vec<R>)
    ensures
        exists|arranged: Seq<(String, R)>| #[trigger]
            sorted_from(pairs@, arranged) && sorted@ == records_of(arranged),
        sorted@.to_multiset() == records_of(pairs@).to_multiset(),
        sorted@.len() == pairs@.len(),
{
    let ghost input = pairs@;
    let arranged = sort_pairs(pairs);
    let ghost output = arranged@;
    let mut sorted: Vec<R> = Vec::new();
    for pair in it: arranged.into_iter()
        invariant
            it.seq() == output,
            sorted@ == Seq::new(it.index() as nat, |i: int| output[i].1),
    {
        sorted.push(pair.1);
    }
    proof {
        let second = |pair: (String, R)| pair.1;
        lemma_mapped_rearrangement(output, input, second);
        assert(output.map_values(second) =~= records_of(output));
        assert(input.map_values(second) =~= records_of(input));
    }
    sorted
}

/// Sorts records by the key that each gives out when the accessor asks it for
/// `method_name`, with `args` where there are any.
///
/// Every record is asked before the first comparison is made. If one of them
/// fails, the whole sort fails with what that record reported, and hands back
/// no records at all.
pub fn uca_complex_sort<R, A, E, F: Fn(&R, &str, &Option<Vec<A>>) -> Result<String, E>>(
    objects: Vec<R>,
    method_name: &str,
    args: Option<Vec<A>>,
    invoke: F,
) -> (result: Result<Vec<R>, ExtractionError<E>>)
    requires
        may_ask(&invoke, objects@, method_name, &args),
    ensures
        match result {
            Ok(sorted) => {
                &&& exists|pairs: Seq<(String, R)>, arranged: Seq<(String, R)>|
                    {
                        &&& keyed_by(&invoke, objects@, method_name, &args, pairs)
                        &&& #[trigger] sorted_from(pairs, arranged)
                        &&& sorted@ == records_of(arranged)
                    }
                &&& sorted@.to_multiset() == objects@.to_multiset()
                &&& sorted@.len() == objects@.len()
            },
            Err(error) => failed_at(&invoke, objects@, method_name, &args, error),
        },
        never_fails(&invoke, objects@, method_name, &args) ==> result is Ok,
        surely_fails(&invoke, objects@, method_name, &args) ==> result is Err,
{
    let ghost input = objects@;
    match extract_keys(objects, method_name, &args, &invoke) {
        Ok(pairs) => {
            let ghost keyed = pairs@;
            let sorted = sort_by_extracted_keys(pairs);
            proof {
                assert(records_of(keyed) =~= input);
                let arranged = choose|arranged: Seq<(String, R)>| #[trigger]
                    sorted_from(keyed, arranged) && sorted@ == records_of(arranged);
                assert(keyed_by(&invoke, input, method_name, &args, keyed) && sorted_from(
                    keyed,
                    arranged,
                ) && sorted@ == records_of(arranged));
            }
            Ok(sorted)
        },
        Err(error) => Err(error),
    }
}

} // verus!
