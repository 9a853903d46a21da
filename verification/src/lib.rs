//! Game rules of a physics arena where boxes and a player collide, wear
//! each other down and grow by absorbing what they destroy.
//!
//! The engine side (rendering, physics, input, the entity store) feeds the
//! rules with plain values: entities are named by their 64-bit ids, health
//! and damage are integers.

use vstd::prelude::*;

pub mod box_count;
pub mod collision;
pub mod growth;
pub mod wounds;

verus! {

/// Health (and maximum health) the player starts with.
pub const BASE_PLAYER_HEALTH: i32 = 32;

/// Health (and maximum health) every box starts with.
pub const BASE_BOX_HEALTH: i32 = 16;

/// Number of boxes spawned into the arena.
pub const BOX_COUNT: usize = 30000;

/// Number of steps of the health palette; the palette holds one more entry.
pub const COLOR_PALETTE_STEPS: usize = 20;

/// A sum or difference left the range of its integer type, where the
/// unchecked arithmetic of a debug build would have panicked.
#[derive(Clone, Copy, Debug, PartialEq, Eq)]
pub struct Overflow;

/// The value lies in the range of `i32`.
pub open spec fn in_i32(x: int) -> bool {
    i32::MIN <= x <= i32::MAX
}

/// The value a lookup that may have found nothing stands for, nothing being zero.
pub open spec fn or_zero(v: Option<i32>) -> int {
    match v {
        Some(x) => x as int,
        None => 0,
    }
}

/// Whether `ids` holds `id`.
pub fn contains_id(ids: &Vec<u64>, id: u64) -> (found: bool)
    ensures
        found == ids@.contains(id),
{
    let mut k: usize = 0;
    while k < ids.len()
        invariant
            k <= ids.len(),
            forall|j: int| 0 <= j < k ==> ids@[j] != id,
        decreases ids.len() - k,
    {
        if ids[k] == id {
            return true;
        }
        k += 1;
    }
    false
}

} // verus!
