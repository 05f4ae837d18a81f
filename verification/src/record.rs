//! Benchmark records and their labelling.

use vstd::prelude::*;
use crate::assoc::{unique, values};
use crate::parameter_map::{found_view, ParameterMap};
use crate::string_set::StringSet;

verus! {

/// One benchmark record: the identifier of a dataset entry and the value
/// measured for it. The library carries the value along and never reads it.
#[derive(Clone, Copy, Debug, PartialEq)]
pub struct Record<V> {
    /// The identifier of the record in the dataset.
    pub id: usize,
    /// The value measured for the record.
    pub value: V,
}

/// The parameters that a molecule uses, given what the search found in it:
/// the identifiers of its assignment, each once.
pub open spec fn parameters_used(params: ParameterMap, found: Seq<Vec<Vec<usize>>>) -> Seq<
    Seq<char>,
> {
    unique(values(params.labels(found_view(found))))
}

/// Label the molecule of each record, and keep beside the record the
/// parameters that its molecule uses. Each record comes with what the search
/// found in its molecule for each pattern of `params`. A parameter that wins
/// several environments of one molecule is kept once.
pub fn process_records<V>(
    records: Vec<(Record<V>, Vec<Vec<Vec<usize>>>)>,
    params: &ParameterMap,
) -> (out: Vec<(Record<V>, StringSet)>)
    ensures
        out.len() == records.len(),
        forall|i: int|
            0 <= i < out.len() ==> (#[trigger] out[i]).0 == records[i].0 && out[i].1@
                == parameters_used(*params, records[i].1@),
{
    let mut out: Vec<(Record<V>, StringSet)> = Vec::with_capacity(records.len());
    let ghost whole = records@;
    for pair in it: records
        invariant
            it.seq() == whole,
            out.len() == it.index(),
            forall|i: int|
                0 <= i < out.len() ==> (#[trigger] out[i]).0 == whole[i].0 && out[i].1@
                    == parameters_used(*params, whole[i].1@),
    {
        let (record, found) = pair;
        let pids = params.label_molecule(&found).parameter_ids();
        out.push((record, pids));
    }
    out
}

} // verus!
