//! Mishaps: errors that occur during casting.

use vstd::prelude::*;
use crate::iota::Iota;
use crate::math::HexPattern;

verus! {

/// Where in a cast a mishap happened.
#[derive(Debug, Clone)]
pub struct MishapContext {
    pub pattern: HexPattern,
    pub position: Option<usize>,
}

/// A mishap that occurred during spell execution.
#[derive(Debug, Clone)]
pub struct Mishap {
    pub name: &'static str,
    pub context: MishapContext,
    pub stack: Vec<Iota>,
}

impl Mishap {
    /// A mishap with the given name and context, and an empty stack.
    pub fn new(name: &'static str, context: MishapContext) -> (m: Self)
        ensures
            m.name == name,
            m.context == context,
            m.stack@ == Seq::<Iota>::empty(),
    {
        Mishap { name, context, stack: Vec::new() }
    }
}

} // verus!
