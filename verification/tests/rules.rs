use box_arena::box_count::update_box_count;
use box_arena::collision::{hits_from_contacts, Contact, DamageLedger, Hit};
use box_arena::growth::{grow_vitals, kill_growth_grants, KillCredit};
use box_arena::wounds::{resolve_wounds, Wound};
use box_arena::{contains_id, Overflow, BASE_BOX_HEALTH, BASE_PLAYER_HEALTH, BOX_COUNT, COLOR_PALETTE_STEPS};

fn contact(first: u64, second: u64, first_damage: Option<i32>, second_damage: Option<i32>) -> Contact {
    Contact {
        first,
        second,
        first_damage,
        second_damage,
        first_has_health: true,
        second_has_health: true,
    }
}

fn hit(damager: u64, target: u64, amount: i32) -> Hit {
    Hit { damager, target, amount }
}

#[test]
fn starting_constants() {
    assert_eq!(BASE_PLAYER_HEALTH, 32);
    assert_eq!(BASE_BOX_HEALTH, 16);
    assert_eq!(BOX_COUNT, 30000);
    assert_eq!(COLOR_PALETTE_STEPS, 20);
}

#[test]
fn box_count_unchanged_without_events() {
    assert_eq!(update_box_count(7, 0, 0), Ok(None));
}

#[test]
fn box_count_adds_then_removes() {
    assert_eq!(update_box_count(5, 3, 2), Ok(Some(6)));
    assert_eq!(update_box_count(0, 30000, 0), Ok(Some(30000)));
    assert_eq!(update_box_count(30000, 0, 1), Ok(Some(29999)));
}

#[test]
fn box_count_never_below_zero() {
    assert_eq!(update_box_count(1, 0, 4), Ok(Some(0)));
    assert_eq!(update_box_count(2, 1, 3), Ok(Some(0)));
}

#[test]
fn box_count_overflow_is_reported() {
    assert_eq!(update_box_count(usize::MAX, 1, 5), Err(Overflow));
    assert_eq!(update_box_count(usize::MAX, 0, 5), Ok(Some(usize::MAX - 5)));
}

#[test]
fn contact_hits_both_ways() {
    let hits = hits_from_contacts(&vec![contact(1, 2, Some(1), Some(3))]);
    assert_eq!(hits, vec![hit(1, 2, 1), hit(2, 1, 3)]);
}

#[test]
fn contact_needs_damage_and_health() {
    let no_damage = contact(1, 2, None, Some(3));
    let mut wall = contact(4, 5, Some(2), Some(6));
    wall.second_has_health = false;
    let hits = hits_from_contacts(&vec![no_damage, wall]);
    assert_eq!(hits, vec![hit(2, 1, 3), hit(5, 4, 6)]);
    assert!(hits_from_contacts(&vec![]).is_empty());
}

#[test]
fn ledger_sums_per_target_and_damager() {
    let hits = vec![hit(10, 1, 3), hit(11, 1, 4), hit(10, 1, 2), hit(10, 2, 6)];
    let ledger = DamageLedger::from_hits(&hits).unwrap();
    assert_eq!(ledger.targets(), vec![1, 2]);
    // 10 dealt 5 to target 1, 11 dealt 4: 10 takes the credit; total 9.
    assert_eq!(ledger.outcome(1, None), Ok(Some((9, 10))));
    assert_eq!(ledger.outcome(2, Some(4)), Ok(Some((10, 10))));
    assert_eq!(ledger.outcome(3, Some(4)), Ok(None));
}

#[test]
fn ledger_tie_goes_to_later_damager() {
    let hits = vec![hit(10, 1, 3), hit(11, 1, 3)];
    let ledger = DamageLedger::from_hits(&hits).unwrap();
    assert_eq!(ledger.outcome(1, None), Ok(Some((6, 11))));
}

#[test]
fn ledger_from_contacts() {
    let contacts = vec![contact(1, 2, Some(1), Some(3)), contact(2, 3, Some(3), Some(1)), contact(1, 2, Some(1), Some(3))];
    let ledger = DamageLedger::from_contacts(&contacts).unwrap();
    assert_eq!(ledger.targets(), vec![2, 1, 3]);
    assert_eq!(ledger.outcome(2, None), Ok(Some((3, 1))));
    assert_eq!(ledger.outcome(1, None), Ok(Some((6, 2))));
    assert_eq!(ledger.outcome(3, Some(1)), Ok(Some((4, 2))));
}

#[test]
fn ledger_overflow_is_reported() {
    let hits = vec![hit(10, 1, i32::MAX), hit(10, 1, 1)];
    assert!(DamageLedger::from_hits(&hits).is_err());
    let hits = vec![hit(10, 1, i32::MAX), hit(11, 1, 1)];
    let ledger = DamageLedger::from_hits(&hits).unwrap();
    assert_eq!(ledger.outcome(1, None), Err(Overflow));
    let hits = vec![hit(10, 1, i32::MAX)];
    let ledger = DamageLedger::from_hits(&hits).unwrap();
    assert_eq!(ledger.outcome(1, Some(1)), Err(Overflow));
    assert_eq!(ledger.outcome(1, Some(-1)), Ok(Some((i32::MAX - 1, 10))));
}

fn wound(entity: u64, took: i32, health: i32, max_health: Option<i32>, last: Option<u64>) -> Wound {
    Wound { entity, took, health, max_health, last_damaged_by: last }
}

#[test]
fn wounds_lower_health_and_kill_at_zero() {
    let out = resolve_wounds(&vec![
        wound(1, 3, 16, Some(16), Some(9)),
        wound(2, 16, 16, Some(16), Some(9)),
        wound(3, 20, 16, Some(24), Some(8)),
    ])
    .unwrap();
    assert_eq!(out.healths, vec![13, 0, -4]);
    assert_eq!(out.dying, vec![2, 3]);
    assert_eq!(out.kill_queue, vec![(9, 16), (8, 24)]);
}

#[test]
fn killer_dying_same_frame_gets_no_credit() {
    let out = resolve_wounds(&vec![
        wound(1, 5, 4, Some(16), Some(2)),
        wound(2, 40, 32, Some(32), Some(1)),
    ])
    .unwrap();
    assert_eq!(out.dying, vec![1, 2]);
    assert!(out.kill_queue.is_empty());
}

#[test]
fn kill_needs_max_health_and_killer() {
    let out = resolve_wounds(&vec![wound(1, 5, 4, None, Some(2)), wound(3, 5, 4, Some(16), None)]).unwrap();
    assert_eq!(out.dying, vec![1, 3]);
    assert!(out.kill_queue.is_empty());
}

#[test]
fn wound_overflow_is_reported() {
    assert!(resolve_wounds(&vec![wound(1, 1, i32::MIN, Some(16), Some(2))]).is_err());
    assert!(resolve_wounds(&vec![]).unwrap().healths.is_empty());
}

fn credit(killer: u64, pool: i32, killer_exists: bool, current_growth: Option<i32>) -> KillCredit {
    KillCredit { killer, pool, killer_exists, current_growth }
}

#[test]
fn growth_grants_follow_the_queue() {
    let grants = kill_growth_grants(&vec![
        credit(9, 16, true, None),
        credit(7, 16, false, None),
        credit(8, 24, true, Some(5)),
        credit(9, 32, true, None),
    ])
    .unwrap();
    // Killer 9 absorbs both of its pools; killer 7 no longer exists.
    assert_eq!(grants, vec![(9, 48), (8, 29)]);
}

#[test]
fn growth_two_kills_add_up() {
    let grants = kill_growth_grants(&vec![credit(5, 16, true, None), credit(5, 16, true, None)]).unwrap();
    assert_eq!(grants, vec![(5, 32)]);
    let grants = kill_growth_grants(&vec![credit(5, 16, true, Some(3)), credit(5, 24, true, Some(3))]).unwrap();
    assert_eq!(grants, vec![(5, 43)]);
}

#[test]
fn growth_grant_overflow_is_reported() {
    assert_eq!(kill_growth_grants(&vec![credit(9, 1, true, Some(i32::MAX))]), Err(Overflow));
    assert_eq!(kill_growth_grants(&vec![credit(9, 1, false, Some(i32::MAX))]), Ok(vec![]));
    assert_eq!(
        kill_growth_grants(&vec![credit(9, i32::MAX, true, None), credit(9, 1, true, None)]),
        Err(Overflow)
    );
}

#[test]
fn growth_raises_health_and_cap() {
    assert_eq!(grow_vitals(10, 16, 16), Ok((26, 32)));
    assert_eq!(grow_vitals(16, 16, 16), Ok((32, 32)));
    assert_eq!(grow_vitals(-3, 32, 16), Ok((13, 48)));
}

#[test]
fn growth_caps_health_at_new_maximum() {
    assert_eq!(grow_vitals(40, 16, 4), Ok((20, 20)));
}

#[test]
fn growth_overflow_is_reported() {
    assert_eq!(grow_vitals(1, i32::MAX, 1), Err(Overflow));
    assert_eq!(grow_vitals(i32::MAX, 1, 1), Err(Overflow));
}

#[test]
fn contains_id_finds_members() {
    assert!(contains_id(&vec![3, 4], 4));
    assert!(!contains_id(&vec![3, 4], 5));
}

#[test]
fn frame_of_combat_end_to_end() {
    // Box 1 (16 HP) is hit by box 2 (damage 1) and the player 9 (damage 6) three times.
    let contacts = vec![contact(1, 9, Some(1), Some(6)); 3];
    let mut with_box2 = contacts.clone();
    with_box2.push(contact(2, 1, Some(1), Some(1)));
    let ledger = DamageLedger::from_contacts(&with_box2).unwrap();
    assert_eq!(ledger.outcome(1, None), Ok(Some((19, 9))));
    assert_eq!(ledger.outcome(9, None), Ok(Some((3, 1))));
    let out = resolve_wounds(&vec![
        wound(1, 19, 16, Some(16), Some(9)),
        wound(9, 3, 32, Some(32), Some(1)),
    ])
    .unwrap();
    assert_eq!(out.healths, vec![-3, 29]);
    assert_eq!(out.kill_queue, vec![(9, 16)]);
    let grants = kill_growth_grants(&vec![credit(9, 16, true, None)]).unwrap();
    assert_eq!(grants, vec![(9, 16)]);
    assert_eq!(grow_vitals(29, 32, 16), Ok((45, 48)));
}
