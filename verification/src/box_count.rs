//! The arena's running count of boxes.

use vstd::prelude::*;
use crate::Overflow;

verus! {

/// The count after a frame in which `added` boxes appeared and `removed`
/// boxes went away: `None` when nothing changed (the label is left as it
/// is), else the new count, which never drops below zero. `Err` when the
/// count plus the new boxes leaves `usize`.
pub fn update_box_count(count: usize, added: usize, removed: usize) -> (next: Result<
    Option<usize>,
    Overflow,
>)
    ensures
        next is Err <==> (!(added == 0 && removed == 0) && count + added > usize::MAX),
        next matches Ok(n) ==> (n is None <==> (added == 0 && removed == 0)),
        next matches Ok(Some(n)) ==> n == if count + added >= removed {
            count + added - removed
        } else {
            0
        },
{
    if added == 0 && removed == 0 {
        return Ok(None);
    }
    match count.checked_add(added) {
        Some(grown) => Ok(Some(grown.saturating_sub(removed))),
        None => Err(Overflow),
    }
}

} // verus!
