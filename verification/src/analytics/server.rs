//! The work behind the analytics server's remote calls.
use vstd::prelude::*;
use crate::analytics::dataset::Dataset;
use crate::analytics::query::Query;
use crate::analytics::solution::{can_run, compute_query_on_dataset, is_query_result};

verus! {

/// Answers a query on the server's table (see `compute_query_on_dataset`).
pub fn fast_rpc(input_dataset: &Dataset, query: Query) -> (result: Dataset)
    requires
        can_run(input_dataset@, query),
    ensures
        is_query_result(input_dataset@, query, result@),
{
    let queried_dataset = compute_query_on_dataset(input_dataset, &query);
    queried_dataset
}

} // verus!
