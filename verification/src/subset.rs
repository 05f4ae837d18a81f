//! Splitting records by the parameters that their molecules use.

use vstd::prelude::*;
use crate::record::Record;
use crate::string_set::{intersect, StringSet};

verus! {

/// The two parts of a split, each in the order of the input.
pub struct Output<V> {
    /// The records whose molecule uses a parameter of the subset.
    pub in_set: Vec<(Record<V>, StringSet)>,
    /// The records whose molecule uses none.
    pub out_set: Vec<(Record<V>, StringSet)>,
}

/// The records of `processed` whose parameters include one of `subset`.
pub open spec fn inside<V>(processed: Seq<(Record<V>, StringSet)>, subset: Seq<Seq<char>>) -> Seq<
    (Record<V>, StringSet),
> {
    processed.filter(|p: (Record<V>, StringSet)| intersect(p.1@, subset))
}

/// The records of `processed` whose parameters include none of `subset`.
pub open spec fn outside<V>(processed: Seq<(Record<V>, StringSet)>, subset: Seq<Seq<char>>) -> Seq<
    (Record<V>, StringSet),
> {
    processed.filter(|p: (Record<V>, StringSet)| !intersect(p.1@, subset))
}

/// Split labelled records by a subset of parameter identifiers: a record
/// whose molecule uses at least one parameter of the subset goes to `in_set`,
/// every other record to `out_set`.
pub fn partition<V>(processed: Vec<(Record<V>, StringSet)>, subset: &StringSet) -> (out: Output<V>)
    ensures
        out.in_set@ == inside(processed@, subset@),
        out.out_set@ == outside(processed@, subset@),
        out.in_set.len() + out.out_set.len() == processed.len(),
{
    let mut in_set: Vec<(Record<V>, StringSet)> = Vec::new();
    let mut out_set: Vec<(Record<V>, StringSet)> = Vec::new();
    let ghost whole = processed@;
    for pair in it: processed
        invariant
            it.seq() == whole,
            in_set@ == inside(whole.take(it.index() as int), subset@),
            out_set@ == outside(whole.take(it.index() as int), subset@),
    {
        proof {
            let i = it.index() as int;
            assert(whole.take(i + 1) =~= whole.take(i).push(pair));
            whole.take(i).lemma_filter_push(
                pair,
                |p: (Record<V>, StringSet)| intersect(p.1@, subset@),
            );
            whole.take(i).lemma_filter_push(
                pair,
                |p: (Record<V>, StringSet)| !intersect(p.1@, subset@),
            );
        }
        if pair.1.intersects(subset) {
            in_set.push(pair);
        } else {
            out_set.push(pair);
        }
    }
    proof {
        assert(whole.take(whole.len() as int) =~= whole);
        partition_is_total(whole, subset@);
    }
    Output { in_set, out_set }
}

/// The split is total: the two parts together have as many records as the
/// input, and each record of the input is in one of them.
pub proof fn partition_is_total<V>(processed: Seq<(Record<V>, StringSet)>, subset: Seq<Seq<char>>)
    ensures
        inside(processed, subset).len() + outside(processed, subset).len() == processed.len(),
        forall|i: int|
            0 <= i < processed.len() ==> inside(processed, subset).contains(#[trigger] processed[i])
                || outside(processed, subset).contains(processed[i]),
    decreases processed.len(),
{
    let within = |p: (Record<V>, StringSet)| intersect(p.1@, subset);
    let without = |p: (Record<V>, StringSet)| !intersect(p.1@, subset);
    if processed.len() != 0 {
        let rest = processed.drop_last();
        let last = processed.last();
        partition_is_total(rest, subset);
        assert(rest.push(last) =~= processed);
        rest.lemma_filter_push(last, within);
        rest.lemma_filter_push(last, without);
    }
}

/// The split is disjoint: no record is in both parts. What is in `in_set`
/// uses a parameter of the subset, and what is in `out_set` uses none.
pub proof fn partition_is_disjoint<V>(
    processed: Seq<(Record<V>, StringSet)>,
    subset: Seq<Seq<char>>,
)
    ensures
        forall|p: (Record<V>, StringSet)| #[trigger]
            inside(processed, subset).contains(p) ==> intersect(p.1@, subset)
                && processed.contains(p),
        forall|p: (Record<V>, StringSet)| #[trigger]
            outside(processed, subset).contains(p) ==> !intersect(p.1@, subset)
                && processed.contains(p),
        forall|p: (Record<V>, StringSet)|
            !(inside(processed, subset).contains(p) && outside(processed, subset).contains(p)),
{
    let within = |p: (Record<V>, StringSet)| intersect(p.1@, subset);
    let without = |p: (Record<V>, StringSet)| !intersect(p.1@, subset);
    assert forall|p: (Record<V>, StringSet)| #[trigger]
        inside(processed, subset).contains(p) implies intersect(p.1@, subset)
        && processed.contains(p) by {
        processed.lemma_filter_contains_rev(within, p);
    }
    assert forall|p: (Record<V>, StringSet)| #[trigger]
        outside(processed, subset).contains(p) implies !intersect(p.1@, subset)
        && processed.contains(p) by {
        processed.lemma_filter_contains_rev(without, p);
    }
}

} // verus!
