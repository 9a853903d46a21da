//! Resolving the damage taken in a frame: health drops, the dead are
//! removed, and their killers are queued for growth.

use vstd::prelude::*;
use crate::{contains_id, in_i32, Overflow};

verus! {

/// An entity that took damage this frame.
#[derive(Clone, Copy, Debug, PartialEq, Eq)]
pub struct Wound {
    pub entity: u64,
    /// Damage taken this frame.
    pub took: i32,
    /// Health before the damage.
    pub health: i32,
    /// Maximum health, if the entity has one.
    pub max_health: Option<i32>,
    /// The entity credited with the damage, if any.
    pub last_damaged_by: Option<u64>,
}

/// Health once the damage is applied.
pub open spec fn health_after(w: Wound) -> int {
    w.health - w.took
}

/// The damage brings the entity to zero health or below.
pub open spec fn is_fatal(w: Wound) -> bool {
    health_after(w) <= 0
}

/// The kill credit a wound yields: the killer and the victim's maximum
/// health, when the wound is fatal and both are known.
pub open spec fn credit_of(w: Wound) -> Option<(u64, i32)> {
    if is_fatal(w) && w.max_health is Some && w.last_damaged_by is Some {
        Some((w.last_damaged_by->0, w.max_health->0))
    } else {
        None
    }
}

/// The entities that die, in order.
pub open spec fn dying_of(ws: Seq<Wound>) -> Seq<u64>
    decreases ws.len(),
{
    if ws.len() == 0 {
        Seq::empty()
    } else if is_fatal(ws.last()) {
        dying_of(ws.drop_last()).push(ws.last().entity)
    } else {
        dying_of(ws.drop_last())
    }
}

/// The kill credits, in order, before dead killers are struck out.
pub open spec fn credits_of(ws: Seq<Wound>) -> Seq<(u64, i32)>
    decreases ws.len(),
{
    if ws.len() == 0 {
        Seq::empty()
    } else {
        match credit_of(ws.last()) {
            Some(c) => credits_of(ws.drop_last()).push(c),
            None => credits_of(ws.drop_last()),
        }
    }
}

/// The credits whose killer is not among `dead`, in order.
pub open spec fn surviving_credits(cs: Seq<(u64, i32)>, dead: Seq<u64>) -> Seq<(u64, i32)>
    decreases cs.len(),
{
    if cs.len() == 0 {
        Seq::empty()
    } else if dead.contains(cs.last().0) {
        surviving_credits(cs.drop_last(), dead)
    } else {
        surviving_credits(cs.drop_last(), dead).push(cs.last())
    }
}

/// What a frame's damage comes to.
pub struct WoundOutcome {
    /// New health of each wounded entity, in the order of the wounds.
    pub healths: Vec<i32>,
    /// The entities that die this frame.
    pub dying: Vec<u64>,
    /// Growth credits `(killer, pool)` for killers that survive the frame.
    pub kill_queue: Vec<(u64, i32)>,
}

/// Applies each entity's damage to its health; an entity at zero health or
/// below dies, and its killer is credited with the victim's maximum health,
/// unless the killer dies this frame too. `Err` when some new health leaves `i32`.
pub fn resolve_wounds(wounds: &Vec<Wound>) -> (result: Result<WoundOutcome, Overflow>)
    ensures
        result is Err <==> exists|i: int|
            0 <= i < wounds.len() && !in_i32(#[trigger] health_after(wounds[i])),
        result is Err <==> exists|i: int|
            0 <= i < wounds.len() && !in_i32((#[trigger] wounds[i]).health - wounds[i].took),
        result matches Ok(out) ==> {
            &&& out.healths@.len() == wounds.len()
            &&& forall|i: int|
                0 <= i < wounds.len() ==> out.healths@[i] == health_after(#[trigger] wounds[i])
            &&& forall|i: int|
                0 <= i < wounds.len() ==> out.healths@[i] == (#[trigger] wounds[i]).health
                    - wounds[i].took
            &&& out.dying@ == dying_of(wounds@)
            &&& forall|e: u64| #[trigger] out.dying@.contains(e) <==> dies_this_frame(wounds@, e)
            &&& out.kill_queue@ == surviving_credits(credits_of(wounds@), dying_of(wounds@))
            &&& forall|c: (u64, i32)|
                #[trigger] occurrences(out.kill_queue@, c) == if dies_this_frame(wounds@, c.0) {
                    0
                } else {
                    kills_by(wounds@, c.0, c.1)
                }
        },
{
    proof {
        assert forall|e: u64| #[trigger] dying_of(wounds@).contains(e) <==> dies_this_frame(wounds@, e) by {
            lemma_dying_exactly_at_zero(wounds@, e);
        }
        assert forall|c: (u64, i32)|
            #[trigger] occurrences(surviving_credits(credits_of(wounds@), dying_of(wounds@)), c)
                == if dies_this_frame(wounds@, c.0) {
                0
            } else {
                kills_by(wounds@, c.0, c.1)
            } by {
            lemma_kill_queue_counts(wounds@, c);
        }
    }
    let mut healths: Vec<i32> = Vec::new();
    let mut dying: Vec<u64> = Vec::new();
    let mut credits: Vec<(u64, i32)> = Vec::new();
    let mut i: usize = 0;
    while i < wounds.len()
        invariant
            i <= wounds.len(),
            forall|j: int| 0 <= j < i ==> in_i32(#[trigger] health_after(wounds[j])),
            healths@.len() == i,
            forall|j: int| 0 <= j < i ==> healths@[j] == health_after(#[trigger] wounds[j]),
            dying@ == dying_of(wounds@.take(i as int)),
            credits@ == credits_of(wounds@.take(i as int)),
        decreases wounds.len() - i,
    {
        let w = wounds[i];
        let after = match w.health.checked_sub(w.took) {
            Some(a) => a,
            None => {
                assert(!in_i32(health_after(wounds[i as int])));
                return Err(Overflow);
            },
        };
        healths.push(after);
        if after <= 0 {
            match (w.max_health, w.last_damaged_by) {
                (Some(pool), Some(killer)) => {
                    credits.push((killer, pool));
                },
                _ => {},
            }
            dying.push(w.entity);
        }
        assert(wounds@.take(i + 1).drop_last() =~= wounds@.take(i as int));
        assert(wounds@.take(i + 1).last() == w);
        i += 1;
    }
    assert(wounds@.take(wounds.len() as int) =~= wounds@);
    let mut kill_queue: Vec<(u64, i32)> = Vec::new();
    let mut k: usize = 0;
    while k < credits.len()
        invariant
            k <= credits.len(),
            dying@ == dying_of(wounds@),
            kill_queue@ == surviving_credits(credits@.take(k as int), dying@),
        decreases credits.len() - k,
    {
        let c = credits[k];
        if !contains_id(&dying, c.0) {
            kill_queue.push(c);
        }
        assert(credits@.take(k + 1).drop_last() =~= credits@.take(k as int));
        k += 1;
    }
    assert(credits@.take(credits.len() as int) =~= credits@);
    Ok(WoundOutcome { healths, dying, kill_queue })
}

/// An entity is among the dying exactly when one of its wounds is fatal.
pub proof fn lemma_dying_iff_fatal(ws: Seq<Wound>, e: u64)
    ensures
        dying_of(ws).contains(e) <==> exists|i: int|
            0 <= i < ws.len() && (#[trigger] ws[i]).entity == e && is_fatal(ws[i]),
    decreases ws.len(),
{
    if ws.len() > 0 {
        let rest = ws.drop_last();
        lemma_dying_iff_fatal(rest, e);
        if dying_of(ws).contains(e) {
            if dying_of(rest).contains(e) {
                let i = choose|i: int|
                    0 <= i < rest.len() && (#[trigger] rest[i]).entity == e && is_fatal(rest[i]);
                assert(ws[i] == rest[i]);
            } else {
                let d = dying_of(ws);
                let j = choose|j: int| 0 <= j < d.len() && d[j] == e;
                assert(is_fatal(ws.last()));
                assert(j == d.len() - 1);
                assert(ws[ws.len() - 1] == ws.last());
            }
        }
        if exists|i: int| 0 <= i < ws.len() && (#[trigger] ws[i]).entity == e && is_fatal(ws[i]) {
            let i = choose|i: int| 0 <= i < ws.len() && (#[trigger] ws[i]).entity == e && is_fatal(ws[i]);
            if i == ws.len() - 1 {
                assert(dying_of(ws).last() == e);
                assert(dying_of(ws)[dying_of(ws).len() - 1] == e);
            } else {
                assert(rest[i] == ws[i]);
                let r = dying_of(rest);
                let j = choose|j: int| 0 <= j < r.len() && r[j] == e;
                if is_fatal(ws.last()) {
                    assert(dying_of(ws)[j] == e);
                }
            }
        }
    }
}

/// The credits are exactly those of the wounds that yield one.
pub proof fn lemma_credits_of(ws: Seq<Wound>, c: (u64, i32))
    ensures
        credits_of(ws).contains(c) <==> exists|i: int|
            0 <= i < ws.len() && credit_of(#[trigger] ws[i]) == Some(c),
    decreases ws.len(),
{
    if ws.len() > 0 {
        let rest = ws.drop_last();
        lemma_credits_of(rest, c);
        if credits_of(ws).contains(c) {
            if credits_of(rest).contains(c) {
                let i = choose|i: int| 0 <= i < rest.len() && credit_of(#[trigger] rest[i]) == Some(c);
                assert(ws[i] == rest[i]);
            } else {
                let d = credits_of(ws);
                let j = choose|j: int| 0 <= j < d.len() && d[j] == c;
                assert(credit_of(ws.last()) == Some(c));
                assert(ws[ws.len() - 1] == ws.last());
            }
        }
        if exists|i: int| 0 <= i < ws.len() && credit_of(#[trigger] ws[i]) == Some(c) {
            let i = choose|i: int| 0 <= i < ws.len() && credit_of(#[trigger] ws[i]) == Some(c);
            if i == ws.len() - 1 {
                assert(credits_of(ws)[credits_of(ws).len() - 1] == c);
            } else {
                assert(rest[i] == ws[i]);
                let r = credits_of(rest);
                let j = choose|j: int| 0 <= j < r.len() && r[j] == c;
                if credit_of(ws.last()) is Some {
                    assert(credits_of(ws)[j] == c);
                }
            }
        }
    }
}

/// Filtering keeps exactly the credits whose killer is not dead.
pub proof fn lemma_surviving_credits(cs: Seq<(u64, i32)>, dead: Seq<u64>, c: (u64, i32))
    ensures
        surviving_credits(cs, dead).contains(c) <==> (cs.contains(c) && !dead.contains(c.0)),
    decreases cs.len(),
{
    if cs.len() > 0 {
        let rest = cs.drop_last();
        lemma_surviving_credits(rest, dead, c);
        let s = surviving_credits(cs, dead);
        let r = surviving_credits(rest, dead);
        if s.contains(c) {
            let j = choose|j: int| 0 <= j < s.len() && s[j] == c;
            if dead.contains(cs.last().0) {
                assert(r[j] == c);
                let k = choose|k: int| 0 <= k < rest.len() && rest[k] == c;
                assert(cs[k] == c);
            } else if j == s.len() - 1 {
                assert(cs[cs.len() - 1] == c);
            } else {
                assert(r[j] == c);
                let k = choose|k: int| 0 <= k < rest.len() && rest[k] == c;
                assert(cs[k] == c);
            }
        }
        if cs.contains(c) && !dead.contains(c.0) {
            let k = choose|k: int| 0 <= k < cs.len() && cs[k] == c;
            if k == cs.len() - 1 {
                assert(s[s.len() - 1] == c);
            } else {
                assert(rest[k] == c);
                let j = choose|j: int| 0 <= j < r.len() && r[j] == c;
                if !dead.contains(cs.last().0) {
                    assert(s[j] == c);
                }
            }
        }
    }
}

/// Law: a killer that dies in the same frame gets no growth credit, and
/// every credit in the queue names the killer and the maximum health of a
/// victim of this frame.
pub proof fn lemma_kill_queue_sound(ws: Seq<Wound>, c: (u64, i32))
    requires
        surviving_credits(credits_of(ws), dying_of(ws)).contains(c),
    ensures
        !dying_of(ws).contains(c.0),
        exists|i: int|
            0 <= i < ws.len() && (#[trigger] ws[i]).health - ws[i].took <= 0 && ws[i].last_damaged_by == Some(c.0)
                && ws[i].max_health == Some(c.1),
{
    lemma_surviving_credits(credits_of(ws), dying_of(ws), c);
    lemma_credits_of(ws, c);
    let i = choose|i: int| 0 <= i < ws.len() && credit_of(#[trigger] ws[i]) == Some(c);
    assert(is_fatal(ws[i]) && ws[i].last_damaged_by == Some(c.0) && ws[i].max_health == Some(c.1));
}

/// Law: a fatal wound with a known killer and maximum health credits that
/// killer with the victim's maximum health, provided the killer itself
/// survives the frame.
pub proof fn lemma_kill_queue_complete(ws: Seq<Wound>, i: int)
    requires
        0 <= i < ws.len(),
        ws[i].health - ws[i].took <= 0,
        ws[i].max_health is Some,
        ws[i].last_damaged_by is Some,
        !dying_of(ws).contains(ws[i].last_damaged_by->0),
    ensures
        surviving_credits(credits_of(ws), dying_of(ws)).contains(
            (ws[i].last_damaged_by->0, ws[i].max_health->0),
        ),
{
    let c = (ws[i].last_damaged_by->0, ws[i].max_health->0);
    assert(credit_of(ws[i]) == Some(c));
    lemma_credits_of(ws, c);
    lemma_surviving_credits(credits_of(ws), dying_of(ws), c);
}

/// Number of times `x` occurs in `s`.
pub open spec fn occurrences<T>(s: Seq<T>, x: T) -> nat
    decreases s.len(),
{
    if s.len() == 0 {
        0
    } else {
        occurrences(s.drop_last(), x) + if s.last() == x {
            1nat
        } else {
            0nat
        }
    }
}

/// Some wound of the frame brings `e` to zero health or below.
pub open spec fn dies_this_frame(ws: Seq<Wound>, e: u64) -> bool {
    exists|i: int| 0 <= i < ws.len() && (#[trigger] ws[i]).entity == e && ws[i].health - ws[i].took <= 0
}

/// Number of wounds of the frame that bring a victim with maximum health
/// `pool`, last damaged by `killer`, to zero health or below.
pub open spec fn kills_by(ws: Seq<Wound>, killer: u64, pool: i32) -> nat
    decreases ws.len(),
{
    if ws.len() == 0 {
        0
    } else {
        let w = ws.last();
        kills_by(ws.drop_last(), killer, pool) + if w.health - w.took <= 0 && w.max_health == Some(
            pool,
        ) && w.last_damaged_by == Some(killer) {
            1nat
        } else {
            0nat
        }
    }
}

/// Law: an entity's new health is its old health minus the damage it took.
pub proof fn lemma_health_after(w: Wound)
    ensures
        health_after(w) == w.health - w.took,
        is_fatal(w) <==> w.health - w.took <= 0,
{
}

/// Law: an entity dies this frame exactly when its health minus the damage
/// it took is zero or below.
pub proof fn lemma_dying_exactly_at_zero(ws: Seq<Wound>, e: u64)
    ensures
        dying_of(ws).contains(e) <==> dies_this_frame(ws, e),
{
    lemma_dying_iff_fatal(ws, e);
}

proof fn lemma_credit_count(ws: Seq<Wound>, c: (u64, i32))
    ensures
        occurrences(credits_of(ws), c) == kills_by(ws, c.0, c.1),
    decreases ws.len(),
{
    if ws.len() > 0 {
        let rest = ws.drop_last();
        lemma_credit_count(rest, c);
        match credit_of(ws.last()) {
            Some(x) => {
                assert(credits_of(ws).drop_last() =~= credits_of(rest));
            },
            None => {},
        }
    }
}

proof fn lemma_surviving_count(cs: Seq<(u64, i32)>, dead: Seq<u64>, c: (u64, i32))
    ensures
        occurrences(surviving_credits(cs, dead), c) == if dead.contains(c.0) {
            0
        } else {
            occurrences(cs, c)
        },
    decreases cs.len(),
{
    if cs.len() > 0 {
        let rest = cs.drop_last();
        lemma_surviving_count(rest, dead, c);
        if !dead.contains(cs.last().0) {
            assert(surviving_credits(cs, dead).drop_last() =~= surviving_credits(rest, dead));
        }
    }
}

/// Law: every kill counts. Each `(killer, pool)` credit occurs in the kill
/// queue as many times as the frame has wounds that bring a victim with
/// maximum health `pool`, last damaged by `killer`, to zero health or
/// below, and not at all when the killer itself dies this frame.
pub proof fn lemma_kill_queue_counts(ws: Seq<Wound>, c: (u64, i32))
    ensures
        occurrences(surviving_credits(credits_of(ws), dying_of(ws)), c) == if dies_this_frame(
            ws,
            c.0,
        ) {
            0
        } else {
            kills_by(ws, c.0, c.1)
        },
{
    lemma_credit_count(ws, c);
    lemma_surviving_count(credits_of(ws), dying_of(ws), c);
    lemma_dying_exactly_at_zero(ws, c.0);
}

} // verus!
