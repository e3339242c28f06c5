//! An in-memory registry of services, the domains each service owns, and the
//! links between services, with a one-hop query for connected domains.
use vstd::prelude::*;

pub mod controller;
pub mod laws;
pub mod repository;

verus! {

} // verus!
