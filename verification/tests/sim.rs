use atlas::sim::civ::CivUi;
use atlas::sim::conflict::{CombatAction, Conflict, ConflictMarker, ConflictMember};
use atlas::sim::time::{tick, time_to_string, time_to_string_plus, SimControl};
use atlas::sim::war::{EntityPair, WarMap};
use atlas::sim::{Entity, SimMapData};
use atlas::ui::UiEditableEnum;

#[test]
fn entity_pair_is_unordered() {
    let (a, b) = (Entity(3), Entity(9));
    assert_eq!(EntityPair::new(a, b), EntityPair::new(b, a));
    assert_eq!(EntityPair::new(a, b), EntityPair(b, a));
    assert_eq!(EntityPair::new(a, a), EntityPair(a, a));
}

#[test]
fn war_map_counts_both_ways() {
    let mut m = WarMap::default();
    let (a, b, c) = (Entity(1), Entity(2), Entity(3));
    assert_eq!(m.get_war_map_num(a, b), (0, 0));
    assert_eq!(m.inc_war_map_num(a, b), 1);
    assert_eq!(m.inc_war_map_num(b, a), 2);
    assert_eq!(m.get_war_map_num(b, a), (2, 0));
    assert_eq!(m.get_war_map_num(a, b), (2, 0));
    // Other pairs are untouched.
    assert_eq!(m.get_war_map_num(a, c), (0, 0));
}

#[test]
fn war_map_truce_after_last_war() {
    let mut m = WarMap::new();
    let (a, b) = (Entity(10), Entity(20));
    m.inc_war_map_num(a, b);
    m.inc_war_map_num(a, b);
    assert_eq!(m.dec_war_map_num(a, b, 24), 1);
    assert_eq!(m.get_war_map_num(a, b), (1, 0));
    assert_eq!(m.dec_war_map_num(b, a, 24), 0);
    assert_eq!(m.get_war_map_num(a, b), (0, 24));
    // A new war ends the truce.
    assert_eq!(m.inc_war_map_num(a, b), 1);
    assert_eq!(m.get_war_map_num(a, b), (1, 0));
}

#[test]
fn war_map_dec_of_unknown_pair_starts_truce() {
    let mut m = WarMap::new();
    assert_eq!(m.dec_war_map_num(Entity(5), Entity(6), 12), 0);
    assert_eq!(m.get_war_map_num(Entity(6), Entity(5)), (0, 12));
}

#[test]
fn war_map_inc_then_dec_restores_count() {
    let mut m = WarMap::new();
    let (a, b) = (Entity(7), Entity(8));
    m.inc_war_map_num(a, b);
    let before = m.get_war_map_num(a, b).0;
    m.inc_war_map_num(b, a);
    m.dec_war_map_num(a, b, 5);
    assert_eq!(m.get_war_map_num(a, b).0, before);
}

#[test]
fn time_strings() {
    assert_eq!(time_to_string(0), "01.1");
    assert_eq!(time_to_string(11), "12.1");
    assert_eq!(time_to_string(12), "01.2");
    assert_eq!(time_to_string(12 * 137 + 9), "10.138");
    assert_eq!(time_to_string_plus(25, "Peace"), "02.3 Peace");
    assert_eq!(time_to_string_plus(0, ""), "01.1 ");
    assert_eq!(time_to_string(u32::MAX), format!("{:02}.{}", u32::MAX % 12 + 1, u32::MAX / 12 + 1));
}

#[test]
fn conflict_member_starts_delaying() {
    let m = ConflictMember::new(Entity(4), [1, 2, 3]);
    assert_eq!(m.entity, Entity(4));
    assert_eq!(m.color, [1, 2, 3]);
    assert!(!m.engaged);
    assert_eq!(m.action, CombatAction::Delay);
}

#[test]
fn combat_action_labels() {
    assert_eq!(CombatAction::Delay.self_as_index(), CombatAction::Delay.index_as_self(CombatAction::Delay.self_as_index()).self_as_index());
    for i in 0..CombatAction::LEN {
        let a = CombatAction::Delay.index_as_self(i);
        assert_eq!(a.self_as_index(), i);
        assert_eq!(a.self_as_str(), CombatAction::index_to_str(i));
    }
}

fn conflict() -> Conflict {
    Conflict {
        id: 0,
        start_date: 3,
        concluded: false,
        primary_attacker: Entity(1),
        primary_defender: Entity(2),
        attackers: vec![],
        defenders: vec![],
    }
}

#[test]
fn conflict_membership() {
    let mut c = conflict();
    c.add_member(Entity(1), [9, 9, 9], true);
    c.add_member(Entity(2), [8, 8, 8], false);
    c.add_member(Entity(3), [7, 7, 7], true);
    // Joining again replaces the member rather than listing it twice.
    c.add_member(Entity(3), [6, 6, 6], true);
    assert_eq!(c.attackers.len(), 2);
    assert_eq!(c.attackers[1].color, [6, 6, 6]);
    assert!(c.is_primary_attacker(Entity(1)));
    assert!(!c.is_primary_attacker(Entity(2)));
    assert!(c.is_primary_defender(Entity(2)));
    assert!(c.is_member(&Entity(3), true, false));
    assert!(!c.is_member(&Entity(3), false, false));
    assert!(c.is_member(&Entity(3), false, true));
    assert!(!c.is_member(&Entity(5), true, true));
    assert!(c.is_opposing(&Entity(3), &Entity(2)));
    assert!(c.is_opposing(&Entity(2), &Entity(1)));
    assert!(!c.is_opposing(&Entity(1), &Entity(3)));
}

#[test]
fn joining_a_conflict_counts_wars_with_the_other_side() {
    let mut extras = SimMapData::new();
    let id = extras.create_conflict(5, Entity(1), Entity(2));
    assert_eq!(id, 0);
    assert_eq!(extras.conflict_counter, 1);
    let id2 = extras.create_conflict(6, Entity(3), Entity(4));
    assert_eq!(id2, 1);
    {
        let c = &extras.conflicts[&id];
        assert_eq!(c.start_date, 5);
        assert_eq!(c.primary_attacker, Entity(1));
        assert!(c.attackers.is_empty() && c.defenders.is_empty());
    }
    extras.add_conflict_member(Entity(1), [1, 1, 1], id, true);
    extras.add_conflict_member(Entity(2), [2, 2, 2], id, false);
    extras.add_conflict_member(Entity(5), [5, 5, 5], id, false);
    assert_eq!(extras.war_map.get_war_map_num(Entity(1), Entity(2)), (1, 0));
    assert_eq!(extras.war_map.get_war_map_num(Entity(5), Entity(1)), (1, 0));
    assert_eq!(extras.war_map.get_war_map_num(Entity(2), Entity(5)), (0, 0));
    // A second attacker is at war with both defenders.
    extras.add_conflict_member(Entity(6), [6, 6, 6], id, true);
    assert_eq!(extras.war_map.get_war_map_num(Entity(6), Entity(2)), (1, 0));
    assert_eq!(extras.war_map.get_war_map_num(Entity(6), Entity(5)), (1, 0));
    assert_eq!(extras.war_map.get_war_map_num(Entity(6), Entity(1)), (0, 0));
    assert_eq!(extras.conflicts[&id].defenders.len(), 2);
}

#[test]
fn markers_and_ui_records() {
    let m = ConflictMarker { id: 7 };
    assert_eq!(m.id, 7);
    assert_eq!(CivUi::default().color, [0, 0, 0]);
}

#[test]
fn clock_ticks_only_when_running_and_due() {
    let mut sim = SimControl::default();
    assert!(sim.paused && !sim.tick);
    assert_eq!(sim.time, 0);
    tick(&mut sim, true);
    assert_eq!((sim.time, sim.tick), (0, false));
    sim.paused = false;
    tick(&mut sim, false);
    assert_eq!((sim.time, sim.tick), (0, false));
    tick(&mut sim, true);
    assert_eq!((sim.time, sim.tick), (1, true));
    assert!(!sim.is_new_year());
    for _ in 0..11 {
        tick(&mut sim, true);
    }
    assert_eq!(sim.time, 12);
    assert!(sim.is_new_year());
    assert_eq!(sim.current_time_to_string(), "01.2");
}
