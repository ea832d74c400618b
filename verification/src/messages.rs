use vstd::prelude::*;

verus! {

/// Messages a cell of the plate can receive.
#[derive(Clone, Copy, Debug, PartialEq, Eq, Structural)]
pub enum Message {
    /// A burning neighbour lights this cell.
    Light,
    /// The cell is set on fire at its next fire tick.
    Ignite,
}

} // verus!
