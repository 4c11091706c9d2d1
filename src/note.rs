//! Notes: the objects a player hits, attached to a judge line.
use vstd::prelude::*;

use crate::beat::Beat;
use crate::frac::Frac;

verus! {

#[derive(Clone, Copy, Debug, PartialEq, Eq, Structural)]
pub enum NoteKind {
    Tap,
    Drag,
    Flick,
    /// A held note; `hold_beat` is its length, counted from the onset.
    Hold { hold_beat: Beat },
}

#[derive(Clone, Copy, Debug, PartialEq, Eq, Structural)]
pub struct Note {
    pub kind: NoteKind,
    /// Whether the note sits above the line (else below it).
    pub above: bool,
    /// Onset position.
    pub beat: Beat,
    /// Lateral position in canvas units.
    pub x: Frac,
}

impl Note {
    pub fn new(kind: NoteKind, above: bool, beat: Beat, x: Frac) -> (r: Note)
        ensures
            r == (Note { kind, above, beat, x }),
    {
        Note { kind, above, beat, x }
    }
}

} // verus!
