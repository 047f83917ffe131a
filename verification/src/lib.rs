use vstd::prelude::*;

pub mod helpers;
pub mod network;
pub mod osm;
pub mod parser;
pub mod parsing;
pub mod routing;
pub mod units;

verus! {

} // verus!
