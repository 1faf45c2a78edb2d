//! Small enumerations shared by the simulation.

use vstd::prelude::*;

verus! {

/// The kinds of work an individual can do.
#[derive(Debug, Clone, Copy, PartialEq, Eq, Hash)]
pub enum Action {
    Farm,
    Hunt,
    Trade,
}

/// Personality traits that bias an individual's choices.
#[derive(Debug, Clone, Copy, PartialEq, Eq, Hash)]
pub enum Trait {
    Industrious,
}

} // verus!
