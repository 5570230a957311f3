use vstd::prelude::*;

pub mod api;
pub mod audit;
pub mod baselines;
pub mod byzantine;
pub mod chaos;
pub mod chat;
mod clock;
pub mod hashing;
pub mod ordering;
pub mod routing;
pub mod coordinates;

verus! {

} // verus!

