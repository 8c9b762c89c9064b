//! Conflicts between polities: who fights on which side.
use vstd::prelude::*;
use crate::sim::Entity;
use crate::ui::{UiEditableEnum, INVISIBLE_INDEX};

verus! {

/// A member of one side of a conflict. Its combat strengths (material,
/// morale, attrition, contribution, fortifications), which are fractional,
/// are kept by the simulation beside it.
#[derive(Clone, Copy, Debug, PartialEq, Eq)]
pub struct ConflictMember {
    pub entity: Entity,
    pub color: [u8; 3],
    pub engaged: bool,
    pub action: CombatAction,
}

impl ConflictMember {
    pub fn new(entity: Entity, color: [u8; 3]) -> (r: Self)
        ensures
            r == spec_new_member(entity, color),
    {
        Self { entity, color, engaged: false, action: CombatAction::Delay }
    }
}

/// A fresh member: not engaged, delaying.
pub open spec fn spec_new_member(entity: Entity, color: [u8; 3]) -> ConflictMember {
    ConflictMember { entity, color, engaged: false, action: CombatAction::Delay }
}

/// What a conflict member does in a month of combat.
#[derive(Copy, Clone, Debug, PartialEq, Eq)]
pub enum CombatAction {
    /// Disengage and do nothing.
    Surrender,
    /// Disengage but contribute defence.
    Delay,
    /// Engage with material damage bonus.
    Assault,
    /// Engage with morale damage bonus.
    Maneouver,
    /// Engage with increased attack and reduced defence.
    Charge,
    /// Engage with reduced attack and increased defence.
    Rally,
    /// Engage with fortification damage bonus.
    Siege,
    /// Disengage but deal some damage.
    Skirmish,
    /// Disengage with fortification def bonus.
    Fortify,
}

impl UiEditableEnum for CombatAction {
    const LEN: usize = 9;

    open spec fn spec_as_index(&self) -> usize {
        match self {
            CombatAction::Surrender => 0,
            CombatAction::Delay => 1,
            CombatAction::Assault => 2,
            CombatAction::Maneouver => 3,
            CombatAction::Charge => 4,
            CombatAction::Rally => 5,
            CombatAction::Siege => 6,
            CombatAction::Skirmish => 7,
            CombatAction::Fortify => 8,
        }
    }

    open spec fn spec_valid_index(idx: usize) -> bool {
        idx < 9
    }

    open spec fn spec_from_index(idx: usize) -> Self {
        if idx == 0 { CombatAction::Surrender } else if idx == 1 { CombatAction::Delay } else if idx == 2 { CombatAction::Assault } else if idx == 3 { CombatAction::Maneouver } else if idx == 4 { CombatAction::Charge } else if idx == 5 { CombatAction::Rally } else if idx == 6 { CombatAction::Siege } else if idx == 7 { CombatAction::Skirmish } else { CombatAction::Fortify }
    }

    open spec fn spec_label(idx: usize) -> Seq<char> {
        if idx == 0 { "Surrender"@ } else if idx == 1 { "Delay"@ } else if idx == 2 { "Assault"@ } else if idx == 3 { "Maneouver"@ } else if idx == 4 { "Charge"@ } else if idx == 5 { "Rally"@ } else if idx == 6 { "Siege"@ } else if idx == 7 { "Skirmish"@ } else { "Fortify"@ }
    }

    fn self_as_index(&self) -> (r: usize) {
        let r: usize = match self {
            CombatAction::Surrender => 0,
            CombatAction::Delay => 1,
            CombatAction::Assault => 2,
            CombatAction::Maneouver => 3,
            CombatAction::Charge => 4,
            CombatAction::Rally => 5,
            CombatAction::Siege => 6,
            CombatAction::Skirmish => 7,
            CombatAction::Fortify => 8,
        };
        assert(Self::spec_valid_index(r));
        r
    }

    fn index_as_self(&self, idx: usize) -> (r: Self) {
        match idx {
            0 => CombatAction::Surrender,
            1 => CombatAction::Delay,
            2 => CombatAction::Assault,
            3 => CombatAction::Maneouver,
            4 => CombatAction::Charge,
            5 => CombatAction::Rally,
            6 => CombatAction::Siege,
            7 => CombatAction::Skirmish,
            _ => CombatAction::Fortify,
        }
    }

    fn index_to_str(idx: usize) -> (r: &'static str) {
        match idx {
            0 => "Surrender",
            1 => "Delay",
            2 => "Assault",
            3 => "Maneouver",
            4 => "Charge",
            5 => "Rally",
            6 => "Siege",
            7 => "Skirmish",
            _ => "Fortify",
        }
    }

    proof fn lemma_index_round_trip(e: Self) {
    }

    proof fn lemma_positions_visible(idx: usize) {
    }
}

/// Marker of a conflict on the map.
#[derive(Clone, Copy, Debug, PartialEq, Eq)]
pub struct ConflictMarker {
    /// Conflict ID.
    pub id: u32,
}

/// A conflict between two sides of polities.
#[derive(Clone, Debug)]
pub struct Conflict {
    pub id: u32,
    pub start_date: u32,
    pub concluded: bool,
    pub primary_attacker: Entity,
    pub primary_defender: Entity,
    pub attackers: Vec<ConflictMember>,
    pub defenders: Vec<ConflictMember>,
}

/// Entity `e` is a member of side `side`.
pub open spec fn side_has(side: Seq<ConflictMember>, e: Entity) -> bool {
    exists|i: int| 0 <= i < side.len() && side[i].entity == e
}

/// No entity is a member of side `side` twice.
pub open spec fn side_unique(side: Seq<ConflictMember>) -> bool {
    forall|i: int, j: int| 0 <= i < side.len() && 0 <= j < side.len() && i != j ==> side[i].entity != side[j].entity
}

/// Side `side` after adding `member`: it replaces the member with the same
/// entity, or joins at the end.
pub open spec fn side_insert(side: Seq<ConflictMember>, member: ConflictMember) -> Seq<ConflictMember> {
    if side_has(side, member.entity) {
        side.update(choose|i: int| 0 <= i < side.len() && side[i].entity == member.entity, member)
    } else {
        side.push(member)
    }
}

impl Conflict {
    /// No polity is listed twice on a side.
    pub open spec fn wf(&self) -> bool {
        side_unique(self.attackers@) && side_unique(self.defenders@)
    }

    /// Add `entity` to the attackers or to the defenders.
    pub fn add_member(&mut self, entity: Entity, color: [u8; 3], is_attacker: bool)
        requires
            old(self).wf(),
        ensures
            final(self).wf(),
            final(self).id == old(self).id,
            final(self).start_date == old(self).start_date,
            final(self).concluded == old(self).concluded,
            final(self).primary_attacker == old(self).primary_attacker,
            final(self).primary_defender == old(self).primary_defender,
            is_attacker ==> final(self).attackers@ == side_insert(old(self).attackers@, spec_new_member(entity, color))
                && final(self).defenders@ == old(self).defenders@,
            !is_attacker ==> final(self).defenders@ == side_insert(old(self).defenders@, spec_new_member(entity, color))
                && final(self).attackers@ == old(self).attackers@,
    {
        let member = ConflictMember::new(entity, color);
        if is_attacker {
            side_add(&mut self.attackers, member);
        } else {
            side_add(&mut self.defenders, member);
        }
    }

    pub fn is_primary_attacker(&self, entity: Entity) -> (r: bool)
        ensures
            r == (self.primary_attacker == entity),
    {
        self.primary_attacker.0 == entity.0
    }

    pub fn is_primary_defender(&self, entity: Entity) -> (r: bool)
        ensures
            r == (self.primary_defender == entity),
    {
        self.primary_defender.0 == entity.0
    }

    /// Is `entity` an attacker (`is_attacker`), a defender (`!is_attacker`),
    /// or either (`is_any`)?
    pub fn is_member(&self, entity: &Entity, is_attacker: bool, is_any: bool) -> (r: bool)
        ensures
            r == (((is_any || is_attacker) && side_has(self.attackers@, *entity)) || ((is_any || !is_attacker)
                && side_has(self.defenders@, *entity))),
    {
        if (is_any || is_attacker) && side_contains(&self.attackers, entity) {
            return true;
        }
        if (is_any || !is_attacker) && side_contains(&self.defenders, entity) {
            return true;
        }
        return false;
    }

    /// Are `us` and `them` on opposite sides?
    pub fn is_opposing(&self, us: &Entity, them: &Entity) -> (r: bool)
        ensures
            r == ((side_has(self.attackers@, *us) && side_has(self.defenders@, *them)) || (side_has(
                self.defenders@,
                *us,
            ) && side_has(self.attackers@, *them))),
    {
        if side_contains(&self.attackers, us) && side_contains(&self.defenders, them) {
            return true;
        }
        if side_contains(&self.defenders, us) && side_contains(&self.attackers, them) {
            return true;
        }
        return false;
    }
}

/// Position of `e` in side `side`, if a member.
fn side_find(side: &Vec<ConflictMember>, e: &Entity) -> (r: Option<usize>)
    ensures
        r is None ==> !side_has(side@, *e),
        r matches Some(i) ==> i < side@.len() && side@[i as int].entity == *e,
{
    let mut i: usize = 0;
    while i < side.len()
        invariant
            i <= side@.len(),
            forall|j: int| 0 <= j < i ==> side@[j].entity != *e,
        decreases side@.len() - i,
    {
        if side[i].entity.0 == e.0 {
            return Some(i);
        }
        i = i + 1;
    }
    None
}

fn side_contains(side: &Vec<ConflictMember>, e: &Entity) -> (r: bool)
    ensures
        r == side_has(side@, *e),
{
    side_find(side, e).is_some()
}

fn side_add(side: &mut Vec<ConflictMember>, member: ConflictMember)
    requires
        side_unique(old(side)@),
    ensures
        side_unique(final(side)@),
        final(side)@ == side_insert(old(side)@, member),
{
    match side_find(side, &member.entity) {
        Some(i) => {
            proof {
                let k = choose|k: int| 0 <= k < side@.len() && side@[k].entity == member.entity;
                assert(k == i);
            }
            side.set(i, member);
        },
        None => {
            side.push(member);
        },
    }
}

/// Adding a member makes it a member of the side, leaves the membership of
/// every other entity as it was, and lists no entity twice.
pub proof fn law_add_member_joins_side(side: Seq<ConflictMember>, member: ConflictMember, e: Entity)
    requires
        side_unique(side),
    ensures
        side_has(side_insert(side, member), member.entity),
        e != member.entity ==> (side_has(side_insert(side, member), e) == side_has(side, e)),
        side_unique(side_insert(side, member)),
{
    if side_has(side, member.entity) {
        let i = choose|i: int| 0 <= i < side.len() && side[i].entity == member.entity;
        let u = side_insert(side, member);
        assert(u[i].entity == member.entity);
        if side_has(side, e) && e != member.entity {
            let j = choose|j: int| 0 <= j < side.len() && side[j].entity == e;
            assert(u[j].entity == e);
        }
        if side_has(u, e) && e != member.entity {
            let j = choose|j: int| 0 <= j < u.len() && u[j].entity == e;
            assert(side[j].entity == e);
        }
    } else {
        let u = side.push(member);
        assert(u[side.len() as int].entity == member.entity);
        if side_has(side, e) {
            let j = choose|j: int| 0 <= j < side.len() && side[j].entity == e;
            assert(u[j].entity == e);
        }
        if side_has(u, e) && e != member.entity {
            let j = choose|j: int| 0 <= j < u.len() && u[j].entity == e;
            assert(side[j].entity == e);
        }
    }
}

} // verus!
