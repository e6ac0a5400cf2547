//! What the last edit did, in the terms an undo needs.
//!
//! A paste is the edit whose boundary is not obvious: it is one gesture,
//! whatever it weighed and however many reads it arrived in. So the boundary is
//! marked where the paste lands, and the next change to the text overwrites it.

use vstd::prelude::*;

verus! {

/// A run of the draft, in bytes.
#[derive(Debug, Clone, Copy, PartialEq, Eq, Structural)]
pub struct Span {
    pub start: usize,
    pub end: usize,
}

/// One edit.
#[derive(Debug, PartialEq, Eq)]
pub enum EditTransaction {
    /// A framed paste that collapsed into a block: the draft on either side of
    /// it, and the block it put there.
    InsertPaste { before: String, after: String, entity: Span },
    /// Any other change to the text.
    Other,
}

/// The one transaction that is remembered. `None` means that nothing has been
/// edited yet.
#[derive(Debug, PartialEq, Eq)]
pub struct LastTransaction(Option<EditTransaction>);

impl View for LastTransaction {
    type V = Option<EditTransaction>;

    closed spec fn view(&self) -> Option<EditTransaction> {
        self.0
    }
}

impl LastTransaction {
    /// A draft nobody has edited.
    pub fn new() -> (last: Self)
        ensures
            last@ is None,
    {
        LastTransaction(None)
    }

    /// Overwrites whatever was remembered.
    pub fn record(&mut self, transaction: EditTransaction)
        ensures
            final(self)@ == Some(transaction),
    {
        self.0 = Some(transaction);
    }

    /// What the last edit was.
    pub fn last(&self) -> (last: Option<&EditTransaction>)
        ensures
            match last {
                Some(transaction) => self@ == Some(*transaction),
                None => self@ is None,
            },
    {
        match &self.0 {
            Some(transaction) => Some(transaction),
            None => None,
        }
    }
}

} // verus!
