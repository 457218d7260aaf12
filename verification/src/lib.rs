use vstd::prelude::*;

pub mod text;
pub mod matcher;
pub mod encoding;
pub mod sync_rules;
pub mod app;
pub mod canvas;
pub mod searcher;

verus! {

} // verus!
