//! Ranked results in the shape served over the web: ranking, name, weight.

use vstd::prelude::*;
use crate::data_models::NamedResult;

verus! {

/// One ranked result row.
pub struct WebResult {
    pub ranking: usize,
    pub name: String,
    pub weight: usize,
}

/// Numbers the sorted results from one.
pub fn get_web_results(sorted_results: &Vec<NamedResult>) -> (r: Vec<WebResult>)
    requires
        sorted_results@.len() < usize::MAX,
    ensures
        r@.len() == sorted_results@.len(),
        forall|i: int|
            0 <= i < r@.len() ==> {
                &&& (#[trigger] r@[i]).ranking == i + 1
                &&& r@[i].name@ == sorted_results@[i].name@
                &&& r@[i].weight == sorted_results@[i].weight
            },
{
    let mut out: Vec<WebResult> = Vec::new();
    let n = sorted_results.len();
    let mut i: usize = 0;
    while i < n
        invariant
            i <= n,
            n == sorted_results@.len(),
            n < usize::MAX,
            out@.len() == i,
            forall|j: int|
                0 <= j < i ==> {
                    &&& (#[trigger] out@[j]).ranking == j + 1
                    &&& out@[j].name@ == sorted_results@[j].name@
                    &&& out@[j].weight == sorted_results@[j].weight
                },
        decreases n - i,
    {
        let nm = clone_string(&sorted_results[i].name);
        out.push(WebResult { ranking: i + 1, name: nm, weight: sorted_results[i].weight });
        i = i + 1;
    }
    out
}

/// Copies a string.
fn clone_string(s: &String) -> (r: String)
    ensures
        r@ == s@,
{
    s.clone()
}

} // verus!
