use atlas::sim::conflict::CombatAction;
use atlas::sim::polity::{GreatPerson, GreatWork, Neighbour, Polity};
use atlas::sim::{Entity, SimMapData};
use std::collections::{HashMap, HashSet};

fn polity(regions: &[u64]) -> Polity {
    Polity {
        this: Some(Entity(1)),
        regions: regions.iter().copied().collect(),
        neighbours: HashMap::new(),
        conflicts: HashSet::new(),
        great_works: vec![],
        great_people: vec![],
        next_policy: 0,
    }
}

fn borders(entries: &[(u64, &[u64])]) -> HashMap<u64, HashSet<u64>> {
    entries.iter().map(|(p, rs)| (*p, rs.iter().copied().collect())).collect()
}

fn view(p: &Polity) -> Vec<(u64, Vec<u64>, bool)> {
    let mut v: Vec<(u64, Vec<u64>, bool)> = p
        .neighbours
        .iter()
        .map(|(k, n)| {
            let mut b: Vec<u64> = n.borders.iter().copied().collect();
            b.sort();
            (*k, b, n.flop)
        })
        .collect();
    v.sort();
    v
}

#[test]
fn neighbours_merge_all_region_borders() {
    let mut p = polity(&[10, 11]);
    let maps = vec![borders(&[(2, &[20]), (3, &[30])]), borders(&[(2, &[21])])];
    p.update_neighbours(&maps);
    assert_eq!(view(&p), vec![(2, vec![20, 21], true), (3, vec![30], true)]);
    // Next update: polity 3 no longer borders us, polity 2 keeps old regions.
    let maps = vec![borders(&[(2, &[22])]), borders(&[(4, &[40])])];
    p.update_neighbours(&maps);
    assert_eq!(view(&p), vec![(2, vec![20, 21, 22], false), (4, vec![40], false)]);
    // And the flag flips back.
    p.update_neighbours(&vec![borders(&[(4, &[41])])]);
    assert_eq!(view(&p), vec![(4, vec![40, 41], true)]);
}

#[test]
fn neighbours_of_a_polity_without_regions_stay() {
    let mut p = polity(&[]);
    p.neighbours.insert(5, Neighbour { borders: [50u64].into_iter().collect(), flop: true });
    p.update_neighbours(&vec![borders(&[(6, &[60])])]);
    assert_eq!(view(&p), vec![(5, vec![50], true)]);
}

#[test]
fn no_borders_means_no_neighbours() {
    let mut p = polity(&[1]);
    p.neighbours.insert(5, Neighbour { borders: [50u64].into_iter().collect(), flop: false });
    p.update_neighbours(&vec![]);
    assert!(p.neighbours.is_empty());
}

#[test]
fn joining_a_conflict_is_recorded_on_both_sides() {
    let mut extras = SimMapData::new();
    let id = extras.create_conflict(0, Entity(7), Entity(8));
    extras.add_conflict_member(Entity(7), [0, 0, 0], id, true);
    let mut p = polity(&[1]);
    p.join_conflict(Entity(1), [1, 2, 3], id, &mut extras, false);
    assert!(p.conflicts.contains(&id));
    let c = &extras.conflicts[&id];
    assert_eq!(c.defenders.len(), 1);
    assert_eq!(c.defenders[0].color, [1, 2, 3]);
    assert_eq!(c.defenders[0].action, CombatAction::Delay);
    assert_eq!(extras.war_map.get_war_map_num(Entity(1), Entity(7)), (1, 0));
}

#[test]
fn culture_records_default() {
    let w = GreatWork::default();
    assert_eq!((w.tradition, w.time), (0, 0));
    let g = GreatPerson::default();
    assert_eq!((g.tradition, g.time, g.active), (0, 0, false));
}

#[test]
fn new_polity_is_empty() {
    let p = Polity::default();
    assert!(p.this.is_none());
    assert!(p.regions.is_empty() && p.neighbours.is_empty() && p.conflicts.is_empty());
    assert!(p.great_works.is_empty() && p.great_people.is_empty());
    assert_eq!(p.next_policy, 0);
}
