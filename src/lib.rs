use vstd::prelude::*;

pub mod data_types;
pub mod item_search;
pub mod recipes;
pub mod pareto_sort;
pub mod price_handle;

verus! {

} // verus!
