//! State of the history simulation shared between systems: object
//! identifiers, the war bookkeeping between polities, conflicts and map
//! ownership, and the simulation calendar.
pub mod civ;
pub mod conflict;
pub mod polity;
pub mod region;
pub mod time;
pub mod war;

use vstd::prelude::*;
use std::collections::{BTreeSet, HashMap};
use crate::sim::conflict::{Conflict, ConflictMember, side_insert, side_unique, spec_new_member};
use crate::sim::war::{WarMap, pair_key, spec_war_get, spec_war_inc};

verus! {

/// Identifier of a simulated object (a polity, region or city): the 64 bits
/// that the entity system gives it. Identifiers are ordered by these bits.
#[derive(Clone, Copy, Debug, PartialEq, Eq, Hash, Structural)]
pub struct Entity(pub u64);


broadcast use vstd::std_specs::hash::group_hash_axioms;

/// Extra map data just for the simulation.
pub struct SimMapData {
    /// Owner regions of specific map tiles.
    pub tile_region: Vec<Option<Entity>>,
    /// Owner polities of specific map tiles.
    pub tile_polity: Vec<Option<Entity>>,
    /// Tiles occupied by cities and surroundings.
    pub city_borders: BTreeSet<u32>,
    /// Active conflicts.
    pub conflicts: HashMap<u32, Conflict>,
    /// Counter for unique conflict ids.
    pub conflict_counter: u32,
    /// Polity pair map of current wars and truce time.
    pub war_map: WarMap,
}

/// The war map after a new war between `us` and each of `enemies`, one
/// after the other.
pub open spec fn spec_war_inc_all(
    m: Map<(u64, u64), (u32, u32)>,
    us: Entity,
    enemies: Seq<ConflictMember>,
) -> Map<(u64, u64), (u32, u32)>
    decreases enemies.len(),
{
    if enemies.len() == 0 {
        m
    } else {
        spec_war_inc(spec_war_inc_all(m, us, enemies.drop_last()), pair_key(us, enemies.last().entity))
    }
}

/// The side that a newcomer to conflict `c` fights against.
pub open spec fn enemies_of(c: Conflict, is_attacker: bool) -> Seq<ConflictMember> {
    if is_attacker {
        c.defenders@
    } else {
        c.attackers@
    }
}

/// Whether `us` forms pair `k` with one of `enemies`.
pub open spec fn has_enemy(enemies: Seq<ConflictMember>, us: Entity, k: (u64, u64)) -> bool {
    exists|i: int| 0 <= i < enemies.len() && pair_key(us, #[trigger] enemies[i].entity) == k
}

impl SimMapData {
    /// Every conflict is well formed, is filed under its own id, and has an
    /// id below the counter.
    pub open spec fn wf(&self) -> bool {
        forall|id: u32|
            #[trigger] self.conflicts@.contains_key(id) ==> {
                &&& id < self.conflict_counter
                &&& self.conflicts@[id].wf()
                &&& self.conflicts@[id].id == id
            }
    }

    pub fn new() -> (r: Self)
        ensures
            r.wf(),
            r.tile_region@.len() == 0,
            r.tile_polity@.len() == 0,
            r.city_borders@ == Set::<u32>::empty(),
            r.conflicts@ == Map::<u32, Conflict>::empty(),
            r.conflict_counter == 0,
            r.war_map.view() == Map::<(u64, u64), (u32, u32)>::empty(),
    {
        SimMapData {
            tile_region: Vec::new(),
            tile_polity: Vec::new(),
            city_borders: BTreeSet::new(),
            conflicts: HashMap::new(),
            conflict_counter: 0,
            war_map: WarMap::new(),
        }
    }

    /// Open a new conflict between `attacker` and `defender`, with no
    /// members yet; returns its id.
    pub fn create_conflict(&mut self, start_date: u32, attacker: Entity, defender: Entity) -> (id: u32)
        requires
            old(self).wf(),
            old(self).conflict_counter < u32::MAX,
        ensures
            final(self).wf(),
            id == old(self).conflict_counter,
            final(self).conflict_counter == old(self).conflict_counter + 1,
            !old(self).conflicts@.contains_key(id),
            final(self).conflicts@ == old(self).conflicts@.insert(
                id,
                final(self).conflicts@[id],
            ),
            final(self).conflicts@[id].id == id,
            final(self).conflicts@[id].start_date == start_date,
            !final(self).conflicts@[id].concluded,
            final(self).conflicts@[id].primary_attacker == attacker,
            final(self).conflicts@[id].primary_defender == defender,
            final(self).conflicts@[id].attackers@.len() == 0,
            final(self).conflicts@[id].defenders@.len() == 0,
            final(self).war_map.view() == old(self).war_map.view(),
            final(self).tile_region@ == old(self).tile_region@,
            final(self).tile_polity@ == old(self).tile_polity@,
            final(self).city_borders@ == old(self).city_borders@,
    {
        let id = self.conflict_counter;
        self.conflict_counter = self.conflict_counter + 1;
        let conflict = Conflict {
            id,
            start_date,
            concluded: false,
            attackers: Vec::new(),
            defenders: Vec::new(),
            primary_attacker: attacker,
            primary_defender: defender,
        };
        self.conflicts.insert(id, conflict);
        proof {
            assert forall|i: u32| #[trigger] self.conflicts@.contains_key(i) implies {
                &&& i < self.conflict_counter
                &&& self.conflicts@[i].wf()
                &&& self.conflicts@[i].id == i
            } by {
                if i != id {
                    assert(old(self).conflicts@.contains_key(i));
                }
            }
        }
        id
    }

    /// Add `us_e` to a side of conflict `id`, and count a new war between it
    /// and every member of the other side.
    pub fn add_conflict_member(&mut self, us_e: Entity, color: [u8; 3], id: u32, is_attacker: bool)
        requires
            old(self).wf(),
            old(self).conflicts@.contains_key(id),
            forall|i: int|
                0 <= i < enemies_of(old(self).conflicts@[id], is_attacker).len() ==> spec_war_get(
                    old(self).war_map.view(),
                    pair_key(us_e, #[trigger] enemies_of(old(self).conflicts@[id], is_attacker)[i].entity),
                ).0 < u32::MAX,
        ensures
            final(self).wf(),
            final(self).conflict_counter == old(self).conflict_counter,
            final(self).tile_region@ == old(self).tile_region@,
            final(self).tile_polity@ == old(self).tile_polity@,
            final(self).city_borders@ == old(self).city_borders@,
            ({
                let c = old(self).conflicts@[id];
                let member = spec_new_member(us_e, color);
                let n = final(self).conflicts@[id];
                &&& final(self).conflicts@ == old(self).conflicts@.insert(id, n)
                &&& n.id == c.id
                &&& n.start_date == c.start_date
                &&& n.concluded == c.concluded
                &&& n.primary_attacker == c.primary_attacker
                &&& n.primary_defender == c.primary_defender
                &&& is_attacker ==> n.attackers@ == side_insert(c.attackers@, member) && n.defenders@ == c.defenders@
                &&& !is_attacker ==> n.defenders@ == side_insert(c.defenders@, member) && n.attackers@ == c.attackers@
            }),
            final(self).war_map.view() == spec_war_inc_all(
                old(self).war_map.view(),
                us_e,
                enemies_of(old(self).conflicts@[id], is_attacker),
            ),
    {
        let mut conflict = self.conflicts.remove(&id).unwrap();
        let ghost c = conflict;
        conflict.add_member(us_e, color, is_attacker);
        let enemies = if is_attacker {
            &conflict.defenders
        } else {
            &conflict.attackers
        };
        let ghost es = enemies@;
        assert(es == enemies_of(c, is_attacker));
        let mut i: usize = 0;
        while i < enemies.len()
            invariant
                i <= es.len(),
                es == enemies@,
                side_unique(es),
                forall|j: int| 0 <= j < es.len() ==> spec_war_get(old(self).war_map.view(), pair_key(us_e, #[trigger] es[j].entity)).0 < u32::MAX,
                self.war_map.view() == spec_war_inc_all(old(self).war_map.view(), us_e, es.subrange(0, i as int)),
                self.conflicts@ == old(self).conflicts@.remove(id),
                self.conflict_counter == old(self).conflict_counter,
                self.tile_region@ == old(self).tile_region@,
                self.tile_polity@ == old(self).tile_polity@,
                self.city_borders@ == old(self).city_borders@,
            decreases es.len() - i,
        {
            proof {
                assert(es.subrange(0, i + 1).drop_last() =~= es.subrange(0, i as int));
                lemma_war_inc_all_untouched(old(self).war_map.view(), us_e, es, i as int, i as int);
            }
            self.war_map.inc_war_map_num(us_e, enemies[i].entity);
            i = i + 1;
        }
        proof {
            assert(es.subrange(0, es.len() as int) =~= es);
        }
        self.conflicts.insert(id, conflict);
        proof {
            assert forall|k: u32| #[trigger] self.conflicts@.contains_key(k) implies {
                &&& k < self.conflict_counter
                &&& self.conflicts@[k].wf()
                &&& self.conflicts@[k].id == k
            } by {
                if k != id {
                    assert(old(self).conflicts@.contains_key(k));
                }
            }
            assert(self.conflicts@ =~= old(self).conflicts@.insert(id, self.conflicts@[id]));
        }
    }
}

/// War counts of pairs that `us` forms with an entity not yet counted are
/// as they were.
proof fn lemma_war_inc_all_untouched(
    m: Map<(u64, u64), (u32, u32)>,
    us: Entity,
    es: Seq<ConflictMember>,
    i: int,
    t: int,
)
    requires
        0 <= i <= t < es.len(),
        side_unique(es),
    ensures
        spec_war_get(spec_war_inc_all(m, us, es.subrange(0, i)), pair_key(us, es[t].entity)) == spec_war_get(
            m,
            pair_key(us, es[t].entity),
        ),
    decreases i,
{
    if i > 0 {
        assert(es.subrange(0, i).drop_last() =~= es.subrange(0, i - 1));
        lemma_war_inc_all_untouched(m, us, es, i - 1, t);
        lemma_pair_key_injective(us, es[i - 1].entity, es[t].entity);
    }
}

/// Different partners make different pairs with `us`.
pub proof fn lemma_pair_key_injective(us: Entity, a: Entity, b: Entity)
    ensures
        pair_key(us, a) == pair_key(us, b) ==> a == b,
{
}

/// Joining a conflict starts exactly one new war between the newcomer and
/// each member of the other side (ending any truce), and no other war.
pub proof fn law_join_counts_one_war_per_enemy(
    m: Map<(u64, u64), (u32, u32)>,
    us: Entity,
    enemies: Seq<ConflictMember>,
    k: (u64, u64),
)
    requires
        side_unique(enemies),
        forall|i: int| 0 <= i < enemies.len() ==> spec_war_get(m, pair_key(us, #[trigger] enemies[i].entity)).0 < u32::MAX,
    ensures
        has_enemy(enemies, us, k) ==> spec_war_get(spec_war_inc_all(m, us, enemies), k) == (
            (spec_war_get(m, k).0 + 1) as u32,
            0u32,
        ),
        !has_enemy(enemies, us, k) ==> spec_war_get(spec_war_inc_all(m, us, enemies), k) == spec_war_get(m, k),
    decreases enemies.len(),
{
    if enemies.len() > 0 {
        let d = enemies.drop_last();
        let last = enemies.last();
        assert(side_unique(d));
        law_join_counts_one_war_per_enemy(m, us, d, k);
        let kl = pair_key(us, last.entity);
        if has_enemy(d, us, k) {
            let i = choose|i: int| 0 <= i < d.len() && pair_key(us, #[trigger] d[i].entity) == k;
            assert(enemies[i] == d[i]);
            lemma_pair_key_injective(us, d[i].entity, last.entity);
            assert(enemies[i].entity != enemies[enemies.len() - 1].entity);
        }
        if k == kl {
            assert(pair_key(us, enemies[enemies.len() - 1].entity) == k);
            if has_enemy(d, us, k) {
                let i = choose|i: int| 0 <= i < d.len() && pair_key(us, #[trigger] d[i].entity) == k;
                lemma_pair_key_injective(us, d[i].entity, last.entity);
                assert(enemies[i].entity != enemies[enemies.len() - 1].entity);
            }
            assert(d.len() == enemies.len() - 1);
            assert(spec_war_get(m, pair_key(us, enemies[enemies.len() - 1].entity)).0 < u32::MAX);
        }
        if has_enemy(enemies, us, k) && !has_enemy(d, us, k) {
            let i = choose|i: int| 0 <= i < enemies.len() && pair_key(us, #[trigger] enemies[i].entity) == k;
            if i < d.len() {
                assert(d[i] == enemies[i]);
            }
        }
        if !has_enemy(enemies, us, k) {
            if has_enemy(d, us, k) {
                let i = choose|i: int| 0 <= i < d.len() && pair_key(us, #[trigger] d[i].entity) == k;
                assert(enemies[i] == d[i]);
            }
            if k == kl {
                assert(pair_key(us, enemies[enemies.len() - 1].entity) == k);
            }
        }
    }
}

} // verus!
