//! Collision damage: every contact lets each side hurt the other, the hits
//! of a frame are summed per target and per damager, and the damager that
//! dealt a target the most takes the credit for it.

use vstd::prelude::*;
use crate::{contains_id, in_i32, or_zero, Overflow};

verus! {

/// A contact reported by the physics engine between two colliders, with
/// what the damage rules need to know of each side.
#[derive(Clone, Copy, Debug, PartialEq, Eq)]
pub struct Contact {
    pub first: u64,
    pub second: u64,
    /// Damage the first collider deals per contact, if it deals any.
    pub first_damage: Option<i32>,
    /// Damage the second collider deals per contact, if it deals any.
    pub second_damage: Option<i32>,
    /// Whether the first collider has health to lose.
    pub first_has_health: bool,
    /// Whether the second collider has health to lose.
    pub second_has_health: bool,
}

/// Damage dealt by one entity to another.
#[derive(Clone, Copy, Debug, PartialEq, Eq)]
pub struct Hit {
    pub damager: u64,
    pub target: u64,
    pub amount: i32,
}

/// The hits of one contact: the first side hurts the second if it deals
/// damage and the second has health, then the same the other way round.
pub open spec fn contact_hits(c: Contact) -> Seq<Hit> {
    let forward: Seq<Hit> = if c.first_damage is Some && c.second_has_health {
        seq![Hit { damager: c.first, target: c.second, amount: c.first_damage->0 }]
    } else {
        Seq::empty()
    };
    let backward: Seq<Hit> = if c.second_damage is Some && c.first_has_health {
        seq![Hit { damager: c.second, target: c.first, amount: c.second_damage->0 }]
    } else {
        Seq::empty()
    };
    forward + backward
}

/// The hits of a frame's contacts, in order.
pub open spec fn hits_of(contacts: Seq<Contact>) -> Seq<Hit>
    decreases contacts.len(),
{
    if contacts.len() == 0 {
        Seq::empty()
    } else {
        hits_of(contacts.drop_last()) + contact_hits(contacts.last())
    }
}

/// Turns a frame's contacts into hits.
pub fn hits_from_contacts(contacts: &Vec<Contact>) -> (hits: Vec<Hit>)
    ensures
        hits@ == hits_of(contacts@),
        forall|i: int| #![trigger hits@[i]] 0 <= i < hits.len() ==> exists|k: int| 0 <= k < contacts.len()
            && contact_yields(#[trigger] contacts[k], hits[i]),
        forall|k: int| 0 <= k < contacts.len() ==> ((#[trigger] contacts[k]).first_damage is Some
            && contacts[k].second_has_health ==> hits@.contains(
            Hit { damager: contacts[k].first, target: contacts[k].second, amount: contacts[k].first_damage->0 },
        )),
        forall|k: int| 0 <= k < contacts.len() ==> ((#[trigger] contacts[k]).second_damage is Some
            && contacts[k].first_has_health ==> hits@.contains(
            Hit { damager: contacts[k].second, target: contacts[k].first, amount: contacts[k].second_damage->0 },
        )),
        hits.len() == hit_count(contacts@),
{
    proof {
        lemma_hits_of(contacts@);
    }
    let mut hits: Vec<Hit> = Vec::new();
    let mut i: usize = 0;
    while i < contacts.len()
        invariant
            i <= contacts.len(),
            hits@ == hits_of(contacts@.take(i as int)),
        decreases contacts.len() - i,
    {
        let c = contacts[i];
        let ghost before = hits@;
        let ghost mid: Seq<Hit> = if c.first_damage is Some && c.second_has_health {
            before.push(Hit { damager: c.first, target: c.second, amount: c.first_damage->0 })
        } else {
            before
        };
        if let Some(amount) = c.first_damage {
            if c.second_has_health {
                hits.push(Hit { damager: c.first, target: c.second, amount });
            }
        }
        assert(hits@ == mid);
        if let Some(amount) = c.second_damage {
            if c.first_has_health {
                hits.push(Hit { damager: c.second, target: c.first, amount });
            }
        }
        assert(hits@ =~= before + contact_hits(c));
        assert(contacts@.take(i + 1).drop_last() =~= contacts@.take(i as int));
        assert(contacts@.take(i + 1).last() == c);
        i += 1;
    }
    assert(contacts@.take(contacts.len() as int) =~= contacts@);
    hits
}

/// `h` is a hit that contact `c` can produce: one side, carrying a damage
/// rating equal to the hit's amount, hurts the other side, which has health.
pub open spec fn contact_yields(c: Contact, h: Hit) -> bool {
    ||| (h.damager == c.first && h.target == c.second && c.first_damage == Some(h.amount)
        && c.second_has_health)
    ||| (h.damager == c.second && h.target == c.first && c.second_damage == Some(h.amount)
        && c.first_has_health)
}

/// How many hits the contacts allow: one per side that deals damage to a
/// side with health.
pub open spec fn hit_count(contacts: Seq<Contact>) -> nat
    decreases contacts.len(),
{
    if contacts.len() == 0 {
        0
    } else {
        let c = contacts.last();
        hit_count(contacts.drop_last()) + (if c.first_damage is Some && c.second_has_health {
            1nat
        } else {
            0nat
        }) + (if c.second_damage is Some && c.first_has_health {
            1nat
        } else {
            0nat
        })
    }
}

/// Law: every hit comes from a contact in which the damager deals that much
/// damage and the target has health; every side that deals damage to a side
/// with health produces its hit; and there are no other hits.
pub proof fn lemma_hits_of(cs: Seq<Contact>)
    ensures
        forall|i: int| #![trigger hits_of(cs)[i]] 0 <= i < hits_of(cs).len() ==> exists|k: int| 0 <= k < cs.len()
            && contact_yields(#[trigger] cs[k], hits_of(cs)[i]),
        forall|k: int| 0 <= k < cs.len() ==> ((#[trigger] cs[k]).first_damage is Some
            && cs[k].second_has_health ==> hits_of(cs).contains(
            Hit { damager: cs[k].first, target: cs[k].second, amount: cs[k].first_damage->0 },
        )),
        forall|k: int| 0 <= k < cs.len() ==> ((#[trigger] cs[k]).second_damage is Some
            && cs[k].first_has_health ==> hits_of(cs).contains(
            Hit { damager: cs[k].second, target: cs[k].first, amount: cs[k].second_damage->0 },
        )),
        hits_of(cs).len() == hit_count(cs),
    decreases cs.len(),
{
    if cs.len() > 0 {
        let rest = cs.drop_last();
        lemma_hits_of(rest);
        let c = cs.last();
        let before = hits_of(rest);
        let mine = contact_hits(c);
        let all = hits_of(cs);
        assert(all == before + mine);
        assert(cs[cs.len() - 1] == c);
        assert forall|k: int| 0 <= k < rest.len() implies #[trigger] cs[k] == rest[k] by {}
        let fwd = Hit { damager: c.first, target: c.second, amount: c.first_damage->0 };
        let bwd = Hit { damager: c.second, target: c.first, amount: c.second_damage->0 };
        assert forall|i: int| #![trigger all[i]] 0 <= i < all.len() implies exists|k: int| 0 <= k < cs.len()
            && contact_yields(#[trigger] cs[k], all[i]) by {
            if i < before.len() {
                assert(all[i] == before[i]);
                let k = choose|k: int| 0 <= k < rest.len() && contact_yields(#[trigger] rest[k], before[i]);
                assert(cs[k] == rest[k]);
            } else {
                assert(all[i] == mine[i - before.len()]);
                assert(contact_yields(cs[cs.len() - 1], all[i]));
            }
        }
        assert forall|k: int| 0 <= k < cs.len() && (#[trigger] cs[k]).first_damage is Some
            && cs[k].second_has_health implies all.contains(
            Hit { damager: cs[k].first, target: cs[k].second, amount: cs[k].first_damage->0 },
        ) by {
            let h = Hit { damager: cs[k].first, target: cs[k].second, amount: cs[k].first_damage->0 };
            if cs[k].first_damage is Some && cs[k].second_has_health {
                if k < rest.len() {
                    assert(rest[k] == cs[k]);
                    assert(before.contains(h));
                    let j = choose|j: int| 0 <= j < before.len() && before[j] == h;
                    assert(all[j] == h);
                } else {
                    assert(mine[0] == fwd);
                    assert(all[before.len() as int] == h);
                }
            }
        }
        assert forall|k: int| 0 <= k < cs.len() && (#[trigger] cs[k]).second_damage is Some
            && cs[k].first_has_health implies all.contains(
            Hit { damager: cs[k].second, target: cs[k].first, amount: cs[k].second_damage->0 },
        ) by {
            let h = Hit { damager: cs[k].second, target: cs[k].first, amount: cs[k].second_damage->0 };
            if cs[k].second_damage is Some && cs[k].first_has_health {
                if k < rest.len() {
                    assert(rest[k] == cs[k]);
                    assert(before.contains(h));
                    let j = choose|j: int| 0 <= j < before.len() && before[j] == h;
                    assert(all[j] == h);
                } else {
                    assert(mine[mine.len() - 1] == bwd);
                    assert(all[all.len() - 1] == h);
                }
            }
        }
    }
}

/// Sum of the hits that `damager` dealt to `target`.
pub open spec fn pair_total(hits: Seq<Hit>, target: u64, damager: u64) -> int
    decreases hits.len(),
{
    if hits.len() == 0 {
        0
    } else {
        let h = hits.last();
        pair_total(hits.drop_last(), target, damager) + if h.target == target && h.damager
            == damager {
            h.amount as int
        } else {
            0
        }
    }
}

/// Sum of all hits that `target` took.
pub open spec fn hit_total(hits: Seq<Hit>, target: u64) -> int
    decreases hits.len(),
{
    if hits.len() == 0 {
        0
    } else {
        hit_total(hits.drop_last(), target) + if hits.last().target == target {
            hits.last().amount as int
        } else {
            0
        }
    }
}

/// Whether some hit lands on `target`.
pub open spec fn was_hit(hits: Seq<Hit>, target: u64) -> bool
    decreases hits.len(),
{
    if hits.len() == 0 {
        false
    } else if hits.last().target == target {
        true
    } else {
        was_hit(hits.drop_last(), target)
    }
}

/// After the `k`-th hit is added, its damager's running sum against its
/// target still fits in an `i32`.
pub open spec fn step_fits(hits: Seq<Hit>, k: int) -> bool {
    in_i32(pair_total(hits.take(k + 1), hits[k].target, hits[k].damager))
}

/// Adding up the hits never leaves the range of `i32`.
pub open spec fn accumulation_fits(hits: Seq<Hit>) -> bool {
    forall|k: int| 0 <= k < hits.len() ==> #[trigger] step_fits(hits, k)
}

/// Index of the last entry of `ledger` for the pair, or -1.
pub open spec fn pair_index(ledger: Seq<(u64, u64, int)>, target: u64, damager: u64) -> int
    decreases ledger.len(),
{
    if ledger.len() == 0 {
        -1
    } else if ledger.last().0 == target && ledger.last().1 == damager {
        ledger.len() - 1
    } else {
        pair_index(ledger.drop_last(), target, damager)
    }
}

/// Damage recorded in `ledger` for the pair.
pub open spec fn amount_of(ledger: Seq<(u64, u64, int)>, target: u64, damager: u64) -> int {
    let i = pair_index(ledger, target, damager);
    if i >= 0 {
        ledger[i].2
    } else {
        0
    }
}

/// Adds a hit to a ledger of `(target, damager, damage)` entries: to the
/// pair's entry if there is one, else as a new entry at the end.
pub open spec fn record_hit(ledger: Seq<(u64, u64, int)>, h: Hit) -> Seq<(u64, u64, int)> {
    let i = pair_index(ledger, h.target, h.damager);
    if i >= 0 {
        ledger.update(i, (h.target, h.damager, ledger[i].2 + h.amount))
    } else {
        ledger.push((h.target, h.damager, h.amount as int))
    }
}

/// The ledger that a frame's hits build up.
pub open spec fn ledger_of(hits: Seq<Hit>) -> Seq<(u64, u64, int)>
    decreases hits.len(),
{
    if hits.len() == 0 {
        Seq::empty()
    } else {
        record_hit(ledger_of(hits.drop_last()), hits.last())
    }
}

/// The targets of a ledger, once each, in order of first appearance.
pub open spec fn targets_of(ledger: Seq<(u64, u64, int)>) -> Seq<u64>
    decreases ledger.len(),
{
    if ledger.len() == 0 {
        Seq::empty()
    } else {
        let before = targets_of(ledger.drop_last());
        if before.contains(ledger.last().0) {
            before
        } else {
            before.push(ledger.last().0)
        }
    }
}

/// Whether the ledger holds an entry for `target`.
pub open spec fn has_target(ledger: Seq<(u64, u64, int)>, target: u64) -> bool
    decreases ledger.len(),
{
    if ledger.len() == 0 {
        false
    } else if ledger.last().0 == target {
        true
    } else {
        has_target(ledger.drop_last(), target)
    }
}

/// Total damage the ledger records against `target`.
pub open spec fn target_total(ledger: Seq<(u64, u64, int)>, target: u64) -> int
    decreases ledger.len(),
{
    if ledger.len() == 0 {
        0
    } else {
        target_total(ledger.drop_last(), target) + if ledger.last().0 == target {
            ledger.last().2
        } else {
            0
        }
    }
}

/// The damager credited with `target` and its damage: among the entries for
/// `target`, the last one with the greatest damage.
pub open spec fn top_share(ledger: Seq<(u64, u64, int)>, target: u64) -> Option<(u64, int)>
    decreases ledger.len(),
{
    if ledger.len() == 0 {
        None
    } else {
        let before = top_share(ledger.drop_last(), target);
        let e = ledger.last();
        if e.0 != target {
            before
        } else {
            match before {
                Some(b) => if e.2 >= b.1 {
                    Some((e.1, e.2))
                } else {
                    before
                },
                None => Some((e.1, e.2)),
            }
        }
    }
}

/// After the `k`-th entry, the running total against `target` fits in an `i32`.
pub open spec fn total_step_fits(ledger: Seq<(u64, u64, int)>, target: u64, k: int) -> bool {
    in_i32(target_total(ledger.take(k + 1), target))
}

/// Adding up the damage against `target` never leaves the range of `i32`.
pub open spec fn total_fits(ledger: Seq<(u64, u64, int)>, target: u64) -> bool {
    forall|k: int| 0 <= k < ledger.len() ==> #[trigger] total_step_fits(ledger, target, k)
}

/// A ledger entry.
#[derive(Clone, Copy, Debug, PartialEq, Eq)]
pub struct Share {
    pub target: u64,
    pub damager: u64,
    pub amount: i32,
}

/// The mathematical ledger that a list of entries stands for.
pub open spec fn shares_view(shares: Seq<Share>) -> Seq<(u64, u64, int)> {
    shares.map_values(|s: Share| (s.target, s.damager, s.amount as int))
}

/// Damage dealt in one frame, per target and per damager, in the order in
/// which each pair first met.
pub struct DamageLedger {
    shares: Vec<Share>,
}

impl View for DamageLedger {
    type V = Seq<(u64, u64, int)>;

    closed spec fn view(&self) -> Seq<(u64, u64, int)> {
        shares_view(self.shares@)
    }
}

/// Where the last entry for the pair stands, if any.
fn find_pair(shares: &Vec<Share>, target: u64, damager: u64) -> (found: Option<usize>)
    ensures
        match found {
            Some(j) => j == pair_index(shares_view(shares@), target, damager),
            None => pair_index(shares_view(shares@), target, damager) == -1,
        },
{
    let ghost v = shares_view(shares@);
    let mut j: usize = shares.len();
    assert(v.take(j as int) =~= v);
    while j > 0
        invariant
            j <= shares.len(),
            v == shares_view(shares@),
            pair_index(v, target, damager) == pair_index(v.take(j as int), target, damager),
        decreases j,
    {
        let s = shares[j - 1];
        assert(v.take(j as int).drop_last() =~= v.take(j - 1));
        assert(v.take(j as int).last() == v[j - 1]);
        if s.target == target && s.damager == damager {
            return Some(j - 1);
        }
        j -= 1;
    }
    None
}

proof fn lemma_pair_index_bounds(l: Seq<(u64, u64, int)>, t: u64, d: u64)
    ensures
        -1 <= pair_index(l, t, d) < l.len(),
        pair_index(l, t, d) >= 0 ==> l[pair_index(l, t, d)].0 == t && l[pair_index(l, t, d)].1
            == d,
        pair_index(l, t, d) == -1 ==> forall|j: int|
            0 <= j < l.len() ==> !((#[trigger] l[j]).0 == t && l[j].1 == d),
    decreases l.len(),
{
    if l.len() > 0 {
        lemma_pair_index_bounds(l.drop_last(), t, d);
        if pair_index(l, t, d) == -1 {
            assert forall|j: int| 0 <= j < l.len() implies !((#[trigger] l[j]).0 == t && l[j].1 == d) by {
                if j < l.len() - 1 {
                    assert(l[j] == l.drop_last()[j]);
                }
            }
        }
    }
}

/// Replacing an entry by one with the same keys leaves every pair's index alone.
proof fn lemma_pair_index_update(l: Seq<(u64, u64, int)>, i: int, x: (u64, u64, int), t: u64, d: u64)
    requires
        0 <= i < l.len(),
        x.0 == l[i].0,
        x.1 == l[i].1,
    ensures
        pair_index(l.update(i, x), t, d) == pair_index(l, t, d),
    decreases l.len(),
{
    let u = l.update(i, x);
    if i == l.len() - 1 {
        assert(u.drop_last() =~= l.drop_last());
    } else {
        assert(u.drop_last() =~= l.drop_last().update(i, x));
        lemma_pair_index_update(l.drop_last(), i, x, t, d);
    }
}

proof fn lemma_pair_index_push(l: Seq<(u64, u64, int)>, x: (u64, u64, int), t: u64, d: u64)
    ensures
        pair_index(l.push(x), t, d) == if x.0 == t && x.1 == d {
            l.len() as int
        } else {
            pair_index(l, t, d)
        },
{
    assert(l.push(x).drop_last() =~= l);
}

/// How recording a hit changes the damage of each pair.
proof fn lemma_record_amount(l: Seq<(u64, u64, int)>, h: Hit, t: u64, d: u64)
    ensures
        amount_of(record_hit(l, h), t, d) == amount_of(l, t, d) + if h.target == t && h.damager
            == d {
            h.amount as int
        } else {
            0
        },
{
    let i = pair_index(l, h.target, h.damager);
    lemma_pair_index_bounds(l, h.target, h.damager);
    lemma_pair_index_bounds(l, t, d);
    let j = pair_index(l, t, d);
    if i >= 0 {
        let x = (h.target, h.damager, l[i].2 + h.amount);
        lemma_pair_index_update(l, i, x, t, d);
        if h.target == t && h.damager == d {
            assert(j == i);
        } else if j >= 0 {
            assert(j != i);
        }
    } else {
        let x = (h.target, h.damager, h.amount as int);
        lemma_pair_index_push(l, x, t, d);
    }
}

/// Law: the ledger records, for each pair, exactly the sum of the hits that
/// the damager dealt to the target in the frame.
pub proof fn lemma_ledger_pair_amount(hits: Seq<Hit>, target: u64, damager: u64)
    ensures
        amount_of(ledger_of(hits), target, damager) == pair_total(hits, target, damager),
    decreases hits.len(),
{
    if hits.len() > 0 {
        lemma_ledger_pair_amount(hits.drop_last(), target, damager);
        lemma_record_amount(ledger_of(hits.drop_last()), hits.last(), target, damager);
    }
}

proof fn lemma_target_total_update(l: Seq<(u64, u64, int)>, i: int, x: (u64, u64, int), t: u64)
    requires
        0 <= i < l.len(),
        x.0 == l[i].0,
    ensures
        target_total(l.update(i, x), t) == target_total(l, t) + if x.0 == t {
            x.2 - l[i].2
        } else {
            0
        },
    decreases l.len(),
{
    let u = l.update(i, x);
    if i == l.len() - 1 {
        assert(u.drop_last() =~= l.drop_last());
    } else {
        assert(u.drop_last() =~= l.drop_last().update(i, x));
        lemma_target_total_update(l.drop_last(), i, x, t);
    }
}

proof fn lemma_record_total(l: Seq<(u64, u64, int)>, h: Hit, t: u64)
    ensures
        target_total(record_hit(l, h), t) == target_total(l, t) + if h.target == t {
            h.amount as int
        } else {
            0
        },
{
    let i = pair_index(l, h.target, h.damager);
    lemma_pair_index_bounds(l, h.target, h.damager);
    if i >= 0 {
        lemma_target_total_update(l, i, (h.target, h.damager, l[i].2 + h.amount), t);
    } else {
        assert(l.push((h.target, h.damager, h.amount as int)).drop_last() =~= l);
    }
}

/// Law: the damage a target is charged with is the sum of all hits it took
/// in the frame.
pub proof fn lemma_ledger_target_total(hits: Seq<Hit>, target: u64)
    ensures
        target_total(ledger_of(hits), target) == hit_total(hits, target),
    decreases hits.len(),
{
    if hits.len() > 0 {
        lemma_ledger_target_total(hits.drop_last(), target);
        lemma_record_total(ledger_of(hits.drop_last()), hits.last(), target);
    }
}

proof fn lemma_has_target_update(l: Seq<(u64, u64, int)>, i: int, x: (u64, u64, int), t: u64)
    requires
        0 <= i < l.len(),
        x.0 == l[i].0,
    ensures
        has_target(l.update(i, x), t) == has_target(l, t),
    decreases l.len(),
{
    let u = l.update(i, x);
    if i == l.len() - 1 {
        assert(u.drop_last() =~= l.drop_last());
    } else {
        assert(u.drop_last() =~= l.drop_last().update(i, x));
        lemma_has_target_update(l.drop_last(), i, x, t);
    }
}

/// Law: a target appears in the ledger exactly when it was hit in the frame.
pub proof fn lemma_ledger_has_target(hits: Seq<Hit>, target: u64)
    ensures
        has_target(ledger_of(hits), target) == was_hit(hits, target),
    decreases hits.len(),
{
    if hits.len() > 0 {
        let l = ledger_of(hits.drop_last());
        let h = hits.last();
        lemma_ledger_has_target(hits.drop_last(), target);
        let i = pair_index(l, h.target, h.damager);
        lemma_pair_index_bounds(l, h.target, h.damager);
        if i >= 0 {
            lemma_has_target_update(l, i, (h.target, h.damager, l[i].2 + h.amount), target);
            if h.target == target {
                lemma_has_target_index(l, i, target);
            }
        } else {
            assert(l.push((h.target, h.damager, h.amount as int)).drop_last() =~= l);
        }
    }
}

proof fn lemma_has_target_index(l: Seq<(u64, u64, int)>, i: int, t: u64)
    requires
        0 <= i < l.len(),
        l[i].0 == t,
    ensures
        has_target(l, t),
    decreases l.len(),
{
    if i < l.len() - 1 {
        assert(l.drop_last()[i] == l[i]);
        lemma_has_target_index(l.drop_last(), i, t);
    }
}

/// The targets listed are exactly those with an entry, each once.
pub proof fn lemma_targets_of(l: Seq<(u64, u64, int)>, t: u64)
    ensures
        targets_of(l).contains(t) == has_target(l, t),
        targets_of(l).no_duplicates(),
    decreases l.len(),
{
    if l.len() > 0 {
        let before = targets_of(l.drop_last());
        lemma_targets_of(l.drop_last(), t);
        if !before.contains(l.last().0) {
            let after = before.push(l.last().0);
            if after.contains(t) && t != l.last().0 {
                let j = choose|j: int| 0 <= j < after.len() && after[j] == t;
                assert(before[j] == t);
            }
            if t == l.last().0 {
                assert(after[after.len() - 1] == t);
            }
            if has_target(l.drop_last(), t) {
                let j = choose|j: int| 0 <= j < before.len() && before[j] == t;
                assert(after[j] == t);
            }
        }
    }
}

/// Law: the credited damager has an entry for the target, dealt it at least
/// as much as any other damager, and strictly more than every damager that
/// comes after it; there is one exactly when the target has an entry.
pub proof fn lemma_top_share(l: Seq<(u64, u64, int)>, t: u64)
    ensures
        top_share(l, t) is Some == has_target(l, t),
        top_share(l, t) matches Some(top) ==> exists|i: int|
            0 <= i < l.len() && #[trigger] l[i] == (t, top.0, top.1) && forall|j: int|
                i < j < l.len() && (#[trigger] l[j]).0 == t ==> l[j].2 < top.1,
        top_share(l, t) matches Some(top) ==> forall|j: int|
            0 <= j < l.len() && (#[trigger] l[j]).0 == t ==> l[j].2 <= top.1,
    decreases l.len(),
{
    if l.len() > 0 {
        let rest = l.drop_last();
        lemma_top_share(rest, t);
        let e = l.last();
        assert forall|j: int| 0 <= j < rest.len() implies #[trigger] l[j] == rest[j] by {}
        match top_share(l, t) {
            Some(top) => {
                let last_wins = match top_share(rest, t) {
                    Some(b) => e.0 == t && e.2 >= b.1,
                    None => e.0 == t,
                };
                if last_wins {
                    assert(l[l.len() - 1] == (t, top.0, top.1));
                    assert forall|j: int| 0 <= j < l.len() && (#[trigger] l[j]).0 == t implies l[j].2
                        <= top.1 by {
                        if j < l.len() - 1 {
                            lemma_has_target_index(rest, j, t);
                        }
                    }
                } else {
                    let i = choose|i: int|
                        0 <= i < rest.len() && #[trigger] rest[i] == (t, top.0, top.1)
                            && forall|j: int|
                            i < j < rest.len() && (#[trigger] rest[j]).0 == t ==> rest[j].2
                                < top.1;
                    assert(l[i] == (t, top.0, top.1));
                    assert forall|j: int| i < j < l.len() && (#[trigger] l[j]).0 == t implies l[j].2
                        < top.1 by {
                        if j < l.len() - 1 {
                            assert(rest[j] == l[j]);
                        }
                    }
                    assert forall|j: int| 0 <= j < l.len() && (#[trigger] l[j]).0 == t implies l[j].2
                        <= top.1 by {
                        if j < l.len() - 1 {
                            assert(rest[j] == l[j]);
                        }
                    }
                }
            },
            None => {},
        }
    }
}

/// Whether some hit of `damager` lands on `target`.
pub open spec fn pair_was_hit(hits: Seq<Hit>, target: u64, damager: u64) -> bool
    decreases hits.len(),
{
    if hits.len() == 0 {
        false
    } else if hits.last().target == target && hits.last().damager == damager {
        true
    } else {
        pair_was_hit(hits.drop_last(), target, damager)
    }
}

/// No two entries of the ledger are for the same pair.
pub open spec fn pairs_distinct(l: Seq<(u64, u64, int)>) -> bool {
    forall|i: int, j: int|
        0 <= i < j < l.len() ==> !((#[trigger] l[i]).0 == (#[trigger] l[j]).0 && l[i].1 == l[j].1)
}

proof fn lemma_ledger_distinct(hits: Seq<Hit>)
    ensures
        pairs_distinct(ledger_of(hits)),
        forall|t: u64, d: u64|
            (#[trigger] pair_index(ledger_of(hits), t, d) >= 0) == pair_was_hit(hits, t, d),
    decreases hits.len(),
{
    if hits.len() > 0 {
        let l = ledger_of(hits.drop_last());
        let h = hits.last();
        lemma_ledger_distinct(hits.drop_last());
        let i = pair_index(l, h.target, h.damager);
        lemma_pair_index_bounds(l, h.target, h.damager);
        let r = ledger_of(hits);
        if i >= 0 {
            let x = (h.target, h.damager, l[i].2 + h.amount);
            assert forall|t: u64, d: u64|
                (#[trigger] pair_index(r, t, d) >= 0) == pair_was_hit(hits, t, d) by {
                lemma_pair_index_update(l, i, x, t, d);
            }
            assert forall|a: int, b: int|
                0 <= a < b < r.len() implies !((#[trigger] r[a]).0 == (#[trigger] r[b]).0
                && r[a].1 == r[b].1) by {
                assert(r[a].0 == l[a].0 && r[a].1 == l[a].1);
                assert(r[b].0 == l[b].0 && r[b].1 == l[b].1);
            }
        } else {
            let x = (h.target, h.damager, h.amount as int);
            assert forall|t: u64, d: u64|
                (#[trigger] pair_index(r, t, d) >= 0) == pair_was_hit(hits, t, d) by {
                lemma_pair_index_push(l, x, t, d);
            }
            assert forall|a: int, b: int|
                0 <= a < b < r.len() implies !((#[trigger] r[a]).0 == (#[trigger] r[b]).0
                && r[a].1 == r[b].1) by {
                if b == l.len() {
                    assert(r[a] == l[a]);
                } else {
                    assert(r[a] == l[a]);
                    assert(r[b] == l[b]);
                }
            }
        }
    }
}

proof fn lemma_pair_index_of_distinct(l: Seq<(u64, u64, int)>, i: int)
    requires
        pairs_distinct(l),
        0 <= i < l.len(),
    ensures
        pair_index(l, l[i].0, l[i].1) == i,
    decreases l.len(),
{
    if i < l.len() - 1 {
        let rest = l.drop_last();
        assert(rest[i] == l[i]);
        assert(!(l[i].0 == l[l.len() - 1].0 && l[i].1 == l[l.len() - 1].1));
        assert forall|a: int, b: int|
            0 <= a < b < rest.len() implies !((#[trigger] rest[a]).0 == (#[trigger] rest[b]).0
            && rest[a].1 == rest[b].1) by {
            assert(rest[a] == l[a] && rest[b] == l[b]);
        }
        lemma_pair_index_of_distinct(rest, i);
    }
}

/// Law: a target that was hit is credited to a damager; what that damager
/// dealt it in the frame is the credited damage, and no other damager that
/// hit the target dealt it more.
pub proof fn lemma_credit_goes_to_top_damager(hits: Seq<Hit>, target: u64)
    requires
        was_hit(hits, target),
    ensures
        top_share(ledger_of(hits), target) matches Some(top) && top.1 == pair_total(
            hits,
            target,
            top.0,
        ) && forall|d: u64|
            #[trigger] pair_was_hit(hits, target, d) ==> pair_total(hits, target, d) <= top.1,
{
    let l = ledger_of(hits);
    lemma_ledger_has_target(hits, target);
    lemma_top_share(l, target);
    lemma_ledger_distinct(hits);
    let top = top_share(l, target)->0;
    let i = choose|i: int|
        0 <= i < l.len() && #[trigger] l[i] == (target, top.0, top.1) && forall|j: int|
            i < j < l.len() && (#[trigger] l[j]).0 == target ==> l[j].2 < top.1;
    lemma_pair_index_of_distinct(l, i);
    lemma_ledger_pair_amount(hits, target, top.0);
    assert forall|d: u64| #[trigger] pair_was_hit(hits, target, d) implies pair_total(
        hits,
        target,
        d,
    ) <= top.1 by {
        assert(pair_index(l, target, d) >= 0);
        lemma_pair_index_bounds(l, target, d);
        lemma_ledger_pair_amount(hits, target, d);
    }
}

impl DamageLedger {
    /// Adds up a frame's hits per target and per damager; `Err` when a
    /// running sum leaves `i32`.
    pub fn from_hits(hits: &Vec<Hit>) -> (ledger: Result<Self, Overflow>)
        ensures
            ledger is Err <==> !accumulation_fits(hits@),
            ledger matches Ok(l) ==> l@ == ledger_of(hits@),
    {
        let mut shares: Vec<Share> = Vec::new();
        let mut i: usize = 0;
        while i < hits.len()
            invariant
                i <= hits.len(),
                forall|k: int| 0 <= k < i ==> #[trigger] step_fits(hits@, k),
                shares_view(shares@) == ledger_of(hits@.take(i as int)),
            decreases hits.len() - i,
        {
            let h = hits[i];
            let ghost l = ledger_of(hits@.take(i as int));
            proof {
                assert(hits@.take(i + 1).drop_last() =~= hits@.take(i as int));
                assert(hits@.take(i + 1).last() == h);
                lemma_ledger_pair_amount(hits@.take(i as int), h.target, h.damager);
                lemma_pair_index_bounds(l, h.target, h.damager);
            }
            match find_pair(&shares, h.target, h.damager) {
                Some(j) => {
                    let s = shares[j];
                    assert(l[j as int] == (s.target, s.damager, s.amount as int));
                    match s.amount.checked_add(h.amount) {
                        Some(sum) => {
                            let updated = Share { target: s.target, damager: s.damager, amount: sum };
                            shares.set(j, updated);
                            assert(shares_view(shares@) =~= record_hit(l, h));
                        },
                        None => {
                            assert(!step_fits(hits@, i as int));
                            return Err(Overflow);
                        },
                    }
                },
                None => {
                    shares.push(Share { target: h.target, damager: h.damager, amount: h.amount });
                    assert(shares_view(shares@) =~= record_hit(l, h));
                },
            }
            assert(step_fits(hits@, i as int));
            i += 1;
        }
        assert(hits@.take(hits.len() as int) =~= hits@);
        Ok(DamageLedger { shares })
    }

    /// Adds up the hits of a frame's contacts per target and per damager;
    /// `Err` when a running sum leaves `i32`.
    pub fn from_contacts(contacts: &Vec<Contact>) -> (ledger: Result<Self, Overflow>)
        ensures
            ledger is Err <==> !accumulation_fits(hits_of(contacts@)),
            ledger matches Ok(l) ==> l@ == ledger_of(hits_of(contacts@)),
    {
        let hits = hits_from_contacts(contacts);
        Self::from_hits(&hits)
    }

    /// The targets that took damage, each once, in order of first hit.
    pub fn targets(&self) -> (ts: Vec<u64>)
        ensures
            ts@ == targets_of(self@),
    {
        let ghost v = self@;
        let mut ts: Vec<u64> = Vec::new();
        let mut k: usize = 0;
        while k < self.shares.len()
            invariant
                k <= self.shares.len(),
                v == shares_view(self.shares@),
                ts@ == targets_of(v.take(k as int)),
            decreases self.shares.len() - k,
        {
            let t = self.shares[k].target;
            assert(v.take(k + 1).drop_last() =~= v.take(k as int));
            assert(v.take(k + 1).last() == v[k as int]);
            if !contains_id(&ts, t) {
                ts.push(t);
            }
            k += 1;
        }
        assert(v.take(self.shares.len() as int) =~= v);
        ts
    }

    /// What a target ends the frame with: the damage it had pending
    /// (`existing`, nothing counting as zero) plus all damage recorded
    /// against it, and the damager credited with it. `Ok(None)` when the
    /// target took no damage; `Err` when a sum leaves `i32`.
    pub fn outcome(&self, target: u64, existing: Option<i32>) -> (result: Result<
        Option<(i32, u64)>,
        Overflow,
    >)
        ensures
            result is Err <==> !(total_fits(self@, target) && (top_share(self@, target) is Some
                ==> in_i32(or_zero(existing) + target_total(self@, target)))),
            result matches Ok(r) ==> match top_share(self@, target) {
                None => r is None,
                Some(top) => r == Some(
                    ((or_zero(existing) + target_total(self@, target)) as i32, top.0),
                ),
            },
    {
        let ghost v = self@;
        let mut total: i32 = 0;
        let mut best: Option<(u64, i32)> = None;
        let mut k: usize = 0;
        while k < self.shares.len()
            invariant
                k <= self.shares.len(),
                v == shares_view(self.shares@),
                forall|j: int| 0 <= j < k ==> #[trigger] total_step_fits(v, target, j),
                total == target_total(v.take(k as int), target),
                match top_share(v.take(k as int), target) {
                    None => best is None,
                    Some(top) => best == Some((top.0, top.1 as i32)) && in_i32(top.1),
                },
            decreases self.shares.len() - k,
        {
            let s = self.shares[k];
            assert(v.take(k + 1).drop_last() =~= v.take(k as int));
            assert(v.take(k + 1).last() == v[k as int]);
            if s.target == target {
                total = match total.checked_add(s.amount) {
                    Some(t) => t,
                    None => {
                        assert(!total_step_fits(v, target, k as int));
                        return Err(Overflow);
                    },
                };
                best = match best {
                    None => Some((s.damager, s.amount)),
                    Some(b) => if s.amount >= b.1 {
                        Some((s.damager, s.amount))
                    } else {
                        Some(b)
                    },
                };
            }
            assert(total_step_fits(v, target, k as int));
            k += 1;
        }
        assert(v.take(self.shares.len() as int) =~= v);
        match best {
            None => Ok(None),
            Some(b) => {
                let prior: i32 = match existing {
                    Some(x) => x,
                    None => 0,
                };
                match prior.checked_add(total) {
                    Some(sum) => Ok(Some((sum, b.0))),
                    None => Err(Overflow),
                }
            },
        }
    }
}

} // verus!
