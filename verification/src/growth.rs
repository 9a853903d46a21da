//! Growth: killers absorb the health pool of what they destroyed.

use vstd::prelude::*;
use crate::{in_i32, or_zero, Overflow};

verus! {

/// A queued kill credit, with what the entity store says of the killer.
#[derive(Clone, Copy, Debug, PartialEq, Eq)]
pub struct KillCredit {
    pub killer: u64,
    /// Maximum health of the destroyed entity.
    pub pool: i32,
    /// Whether the killer still exists.
    pub killer_exists: bool,
    /// Growth already pending on the killer, if any.
    pub current_growth: Option<i32>,
}

/// Whether the credit counts: its killer still exists.
pub open spec fn counts(c: KillCredit, killer: u64) -> bool {
    c.killer_exists && c.killer == killer
}

/// Index of the last grant for `killer`, or -1.
pub open spec fn grant_index(gs: Seq<(u64, int)>, killer: u64) -> int
    decreases gs.len(),
{
    if gs.len() == 0 {
        -1
    } else if gs.last().0 == killer {
        gs.len() - 1
    } else {
        grant_index(gs.drop_last(), killer)
    }
}

/// The growth granted to `killer`, zero when it has no grant.
pub open spec fn granted(gs: Seq<(u64, int)>, killer: u64) -> int {
    let i = grant_index(gs, killer);
    if i >= 0 {
        gs[i].1
    } else {
        0
    }
}

/// Adds a credit to the grants: its pool goes onto the killer's grant, and
/// a killer without one yet starts from the growth already pending on it.
/// Credits of killers that no longer exist are dropped.
pub open spec fn record_credit(gs: Seq<(u64, int)>, c: KillCredit) -> Seq<(u64, int)> {
    if !c.killer_exists {
        gs
    } else {
        let i = grant_index(gs, c.killer);
        if i >= 0 {
            gs.update(i, (c.killer, gs[i].1 + c.pool))
        } else {
            gs.push((c.killer, or_zero(c.current_growth) + c.pool))
        }
    }
}

/// The grants of a queue of credits: one per existing killer, in order of
/// the killer's first credit.
pub open spec fn grants_of(cs: Seq<KillCredit>) -> Seq<(u64, int)>
    decreases cs.len(),
{
    if cs.len() == 0 {
        Seq::empty()
    } else {
        record_credit(grants_of(cs.drop_last()), cs.last())
    }
}

/// Whether some credit of the queue counts for `killer`.
pub open spec fn named(cs: Seq<KillCredit>, killer: u64) -> bool
    decreases cs.len(),
{
    if cs.len() == 0 {
        false
    } else if counts(cs.last(), killer) {
        true
    } else {
        named(cs.drop_last(), killer)
    }
}

/// Sum of the pools of the credits that count for `killer`.
pub open spec fn pool_total(cs: Seq<KillCredit>, killer: u64) -> int
    decreases cs.len(),
{
    if cs.len() == 0 {
        0
    } else {
        pool_total(cs.drop_last(), killer) + if counts(cs.last(), killer) {
            cs.last().pool as int
        } else {
            0
        }
    }
}

/// The growth pending on `killer` before the frame, as its first counting
/// credit reports it (zero when none does).
pub open spec fn pending_of(cs: Seq<KillCredit>, killer: u64) -> int
    decreases cs.len(),
{
    if cs.len() == 0 {
        0
    } else if named(cs.drop_last(), killer) {
        pending_of(cs.drop_last(), killer)
    } else if counts(cs.last(), killer) {
        or_zero(cs.last().current_growth)
    } else {
        0
    }
}

/// After the `k`-th credit is added, its killer's grant still fits in an `i32`.
pub open spec fn credit_step_fits(cs: Seq<KillCredit>, k: int) -> bool {
    cs[k].killer_exists ==> in_i32(granted(grants_of(cs.take(k + 1)), cs[k].killer))
}

/// Adding up the grants never leaves the range of `i32`.
pub open spec fn growth_fits(cs: Seq<KillCredit>) -> bool {
    forall|k: int| 0 <= k < cs.len() ==> #[trigger] credit_step_fits(cs, k)
}

/// The mathematical grants that a list of grants stands for.
pub open spec fn grants_view(gs: Seq<(u64, i32)>) -> Seq<(u64, int)> {
    gs.map_values(|g: (u64, i32)| (g.0, g.1 as int))
}

/// Where the grant for `killer` stands, if any.
fn find_grant(grants: &Vec<(u64, i32)>, killer: u64) -> (found: Option<usize>)
    ensures
        match found {
            Some(j) => j == grant_index(grants_view(grants@), killer),
            None => grant_index(grants_view(grants@), killer) == -1,
        },
{
    let ghost v = grants_view(grants@);
    let mut j: usize = grants.len();
    assert(v.take(j as int) =~= v);
    while j > 0
        invariant
            j <= grants.len(),
            v == grants_view(grants@),
            grant_index(v, killer) == grant_index(v.take(j as int), killer),
        decreases j,
    {
        assert(v.take(j as int).drop_last() =~= v.take(j - 1));
        assert(v.take(j as int).last() == v[j - 1]);
        if grants[j - 1].0 == killer {
            return Some(j - 1);
        }
        j -= 1;
    }
    None
}

proof fn lemma_grant_index_bounds(gs: Seq<(u64, int)>, k: u64)
    ensures
        -1 <= grant_index(gs, k) < gs.len(),
        grant_index(gs, k) >= 0 ==> gs[grant_index(gs, k)].0 == k,
    decreases gs.len(),
{
    if gs.len() > 0 {
        lemma_grant_index_bounds(gs.drop_last(), k);
    }
}

proof fn lemma_grant_index_update(gs: Seq<(u64, int)>, i: int, x: (u64, int), k: u64)
    requires
        0 <= i < gs.len(),
        x.0 == gs[i].0,
    ensures
        grant_index(gs.update(i, x), k) == grant_index(gs, k),
    decreases gs.len(),
{
    let u = gs.update(i, x);
    if i == gs.len() - 1 {
        assert(u.drop_last() =~= gs.drop_last());
    } else {
        assert(u.drop_last() =~= gs.drop_last().update(i, x));
        lemma_grant_index_update(gs.drop_last(), i, x, k);
    }
}

/// How adding a credit changes each killer's grant.
proof fn lemma_record_credit(gs: Seq<(u64, int)>, c: KillCredit, k: u64)
    ensures
        (grant_index(record_credit(gs, c), k) >= 0) == (grant_index(gs, k) >= 0 || counts(c, k)),
        granted(record_credit(gs, c), k) == if counts(c, k) {
            if grant_index(gs, k) >= 0 {
                granted(gs, k) + c.pool
            } else {
                or_zero(c.current_growth) + c.pool
            }
        } else {
            granted(gs, k)
        },
{
    if c.killer_exists {
        let i = grant_index(gs, c.killer);
        lemma_grant_index_bounds(gs, c.killer);
        lemma_grant_index_bounds(gs, k);
        let j = grant_index(gs, k);
        if i >= 0 {
            let x = (c.killer, gs[i].1 + c.pool);
            lemma_grant_index_update(gs, i, x, k);
            if c.killer == k {
                assert(j == i);
            } else if j >= 0 {
                assert(j != i);
            }
        } else {
            assert(gs.push((c.killer, or_zero(c.current_growth) + c.pool)).drop_last() =~= gs);
        }
    }
}

/// Law: each killer that still exists ends the frame with one grant: the
/// growth pending on it before the frame plus the pools of all its kills
/// in the queue; a killer with no counting credit gets no grant.
pub proof fn lemma_growth_absorbs_all_pools(cs: Seq<KillCredit>, killer: u64)
    ensures
        (grant_index(grants_of(cs), killer) >= 0) == named(cs, killer),
        named(cs, killer) ==> granted(grants_of(cs), killer) == pending_of(cs, killer)
            + pool_total(cs, killer),
        !named(cs, killer) ==> pool_total(cs, killer) == 0,
    decreases cs.len(),
{
    if cs.len() > 0 {
        let rest = cs.drop_last();
        lemma_growth_absorbs_all_pools(rest, killer);
        lemma_record_credit(grants_of(rest), cs.last(), killer);
    }
}

/// Law: no killer has two grants.
pub proof fn lemma_one_grant_per_killer(cs: Seq<KillCredit>)
    ensures
        forall|i: int, j: int|
            0 <= i < j < grants_of(cs).len() ==> (#[trigger] grants_of(cs)[i]).0 != (
            #[trigger] grants_of(cs)[j]).0,
    decreases cs.len(),
{
    if cs.len() > 0 {
        let rest = cs.drop_last();
        lemma_one_grant_per_killer(rest);
        let g = grants_of(rest);
        let c = cs.last();
        let r = grants_of(cs);
        if c.killer_exists {
            let i0 = grant_index(g, c.killer);
            lemma_grant_index_bounds(g, c.killer);
            if i0 >= 0 {
                assert forall|i: int, j: int| 0 <= i < j < r.len() implies (#[trigger] r[i]).0
                    != (#[trigger] r[j]).0 by {
                    assert(r[i].0 == g[i].0 && r[j].0 == g[j].0);
                }
            } else {
                assert forall|i: int, j: int| 0 <= i < j < r.len() implies (#[trigger] r[i]).0
                    != (#[trigger] r[j]).0 by {
                    assert(r[i] == g[i]);
                    if j < g.len() {
                        assert(r[j] == g[j]);
                    } else {
                        lemma_grant_index_absent(g, c.killer, i);
                    }
                }
            }
        }
    }
}

proof fn lemma_grant_index_absent(gs: Seq<(u64, int)>, k: u64, i: int)
    requires
        grant_index(gs, k) == -1,
        0 <= i < gs.len(),
    ensures
        gs[i].0 != k,
    decreases gs.len(),
{
    if i < gs.len() - 1 {
        assert(gs.drop_last()[i] == gs[i]);
        lemma_grant_index_absent(gs.drop_last(), k, i);
    }
}

/// Sums up the growth each killer absorbs this frame: one grant per killer
/// that still exists, in order of its first credit, equal to the growth
/// pending on it plus the pools of all its kills. `Err` when a running sum
/// leaves `i32`.
pub fn kill_growth_grants(credits: &Vec<KillCredit>) -> (grants: Result<Vec<(u64, i32)>, Overflow>)
    ensures
        grants is Err <==> !growth_fits(credits@),
        grants matches Ok(gs) ==> grants_view(gs@) == grants_of(credits@),
{
    let mut grants: Vec<(u64, i32)> = Vec::new();
    let mut i: usize = 0;
    while i < credits.len()
        invariant
            i <= credits.len(),
            forall|k: int| 0 <= k < i ==> #[trigger] credit_step_fits(credits@, k),
            grants_view(grants@) == grants_of(credits@.take(i as int)),
        decreases credits.len() - i,
    {
        let c = credits[i];
        let ghost g = grants_of(credits@.take(i as int));
        proof {
            assert(credits@.take(i + 1).drop_last() =~= credits@.take(i as int));
            assert(credits@.take(i + 1).last() == c);
            lemma_record_credit(g, c, c.killer);
            lemma_grant_index_bounds(g, c.killer);
        }
        if c.killer_exists {
            match find_grant(&grants, c.killer) {
                Some(j) => {
                    let (k, v) = grants[j];
                    assert(g[j as int] == (k, v as int));
                    match v.checked_add(c.pool) {
                        Some(sum) => {
                            grants.set(j, (k, sum));
                            assert(grants_view(grants@) =~= record_credit(g, c));
                        },
                        None => {
                            assert(!credit_step_fits(credits@, i as int));
                            return Err(Overflow);
                        },
                    }
                },
                None => {
                    let pending: i32 = match c.current_growth {
                        Some(x) => x,
                        None => 0,
                    };
                    match pending.checked_add(c.pool) {
                        Some(sum) => {
                            grants.push((c.killer, sum));
                            assert(grants_view(grants@) =~= record_credit(g, c));
                        },
                        None => {
                            assert(!credit_step_fits(credits@, i as int));
                            return Err(Overflow);
                        },
                    }
                },
            }
        }
        assert(credit_step_fits(credits@, i as int));
        i += 1;
    }
    assert(credits@.take(credits.len() as int) =~= credits@);
    Ok(grants)
}

/// Maximum health after absorbing `grow`.
pub open spec fn grown_max(max_health: int, grow: int) -> int {
    max_health + grow
}

/// Health after absorbing `grow`: raised by `grow`, but never above the new maximum.
pub open spec fn grown_health(health: int, max_health: int, grow: int) -> int {
    if health + grow <= max_health + grow {
        health + grow
    } else {
        max_health + grow
    }
}

/// Applies pending growth to an entity's health and maximum health;
/// returns `(health, max_health)`, or `Err` when either sum leaves `i32`.
pub fn grow_vitals(health: i32, max_health: i32, grow: i32) -> (vitals: Result<(i32, i32), Overflow>)
    ensures
        vitals is Err <==> !(in_i32(max_health + grow) && in_i32(health + grow)),
        vitals matches Ok(v) ==> v.0 == grown_health(health as int, max_health as int, grow as int)
            && v.1 == grown_max(max_health as int, grow as int),
{
    let new_max = match max_health.checked_add(grow) {
        Some(m) => m,
        None => return Err(Overflow),
    };
    let raised = match health.checked_add(grow) {
        Some(h) => h,
        None => return Err(Overflow),
    };
    let new_health = if raised <= new_max {
        raised
    } else {
        new_max
    };
    Ok((new_health, new_max))
}

/// Law: after growth, health never exceeds the maximum.
pub proof fn lemma_growth_caps_health(health: int, max_health: int, grow: int)
    ensures
        grown_health(health, max_health, grow) <= grown_max(max_health, grow),
{
}

/// Law: an entity whose health is within its maximum is healed by exactly the
/// absorbed amount, and its maximum rises by the same amount.
pub proof fn lemma_growth_heals_by_pool(health: int, max_health: int, grow: int)
    requires
        health <= max_health,
    ensures
        grown_health(health, max_health, grow) == health + grow,
        grown_max(max_health, grow) - max_health == grow,
{
}

} // verus!
