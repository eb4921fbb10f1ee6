use vstd::prelude::*;

pub mod views;
pub mod text;
pub mod parsed;
pub mod net;
pub mod convergence;
pub mod netgraph;
pub mod link_error;
pub mod link;
pub mod elaboration;
pub mod drivers;
pub mod assignment;
pub mod reduction;
pub mod lexical;
pub mod grammar;
pub mod expression;
pub mod design;
pub mod parsing;
pub mod assemble;
pub mod guarantees;
pub mod interact;

verus! {

} // verus!
