use vstd::prelude::*;

pub mod board;
pub mod boardserver;
pub mod client;
pub mod grid;
pub mod prereq;
pub mod server;
pub mod session;
pub mod text;

verus! {

} // verus!
