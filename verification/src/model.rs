use vstd::prelude::*;

verus! {

/// Marker for a note that was just created.
pub struct NoteCreated;

} // verus!
