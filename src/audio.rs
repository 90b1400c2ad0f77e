//! The shape of an audio graph: nodes, and how connections split, merge,
//! chain and loop back.
use vstd::prelude::*;

verus! {

pub struct Oscillator {
    pub frequency_millihertz: u64,
}

pub struct Destination;

pub enum Node {
    Oscillator(Oscillator),
    Destination(Destination),
}

/// How a signal leaves a branch point.
pub enum Spliter {
    Unsplit,
    Only(u64),
    Equally,
}

/// How signals meet at a branch end.
pub enum Merger {
    Unmerged,
    Only(u64),
    Equally,
}

pub enum Connection {
    Pipeline(Vec<Connection>),
    Branch(Spliter, Vec<Connection>, Merger),
    LoopBack(Merger, Vec<Connection>, Spliter),
    Node(Node),
}

} // verus!
