//! A hierarchical catalogue of product requirements: topics containing
//! requirements and nested subtopics, rendered into prose documentation or
//! cross-checked against test-result text to produce a compliance report.

pub mod text;
pub mod version;
pub mod model;
pub mod render;
pub mod check;

use vstd::prelude::*;

verus! {

} // verus!
