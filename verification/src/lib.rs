use vstd::prelude::*;

pub mod commands;
pub mod config;
pub mod date;
pub mod error;
pub mod filter;
pub mod interaction;
pub mod projects;
pub mod style;
pub mod text;
pub mod todotxt;

verus! {

} // verus!
