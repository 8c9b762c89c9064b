//! Bookkeeping of wars between pairs of polities: how many wars they fight
//! against each other, and the truce that follows the last one.
use vstd::prelude::*;
use std::collections::HashMap;
use vstd::arithmetic::div_mod::lemma_fundamental_div_mod_converse;
use crate::sim::Entity;

verus! {

broadcast use vstd::std_specs::hash::group_hash_axioms;

/// An unordered pair of entities, stored with the larger identifier first.
#[derive(Clone, Copy, Debug, PartialEq, Eq, Hash, Structural)]
pub struct EntityPair(pub Entity, pub Entity);

/// The pair of `a` and `b`, in the order that [`EntityPair::new`] stores it.
pub open spec fn spec_entity_pair(a: Entity, b: Entity) -> EntityPair {
    if a.0 > b.0 {
        EntityPair(a, b)
    } else {
        EntityPair(b, a)
    }
}

/// The map key of an unordered pair of entities.
pub open spec fn pair_key(a: Entity, b: Entity) -> (u64, u64) {
    let p = spec_entity_pair(a, b);
    (p.0.0, p.1.0)
}

impl EntityPair {
    pub fn new(a: Entity, b: Entity) -> (r: Self)
        ensures
            r == spec_entity_pair(a, b),
    {
        if a.0 > b.0 {
            Self(a, b)
        } else {
            Self(b, a)
        }
    }
}

/// Number of wars and remaining truce time of a pair; a pair that never
/// fought has no wars and no truce.
pub open spec fn spec_war_get(m: Map<(u64, u64), (u32, u32)>, k: (u64, u64)) -> (u32, u32) {
    if m.contains_key(k) {
        m[k]
    } else {
        (0, 0)
    }
}

/// The war map after a new war between the pair `k` starts: one more war,
/// and no truce.
pub open spec fn spec_war_inc(m: Map<(u64, u64), (u32, u32)>, k: (u64, u64)) -> Map<
    (u64, u64),
    (u32, u32),
> {
    m.insert(k, ((spec_war_get(m, k).0 + 1) as u32, 0))
}

/// The war map after a war between the pair `k` ends: one war less, and
/// when none is left, a truce of length `truce`. A pair with no record gets
/// no wars and the truce.
pub open spec fn spec_war_dec(m: Map<(u64, u64), (u32, u32)>, k: (u64, u64), truce: u32) -> Map<
    (u64, u64),
    (u32, u32),
> {
    if m.contains_key(k) {
        let num = (m[k].0 - 1) as u32;
        m.insert(k, (num, if num == 0 { truce } else { m[k].1 }))
    } else {
        m.insert(k, (0, truce))
    }
}

/// Polity pair map of current wars and truce time, keyed by the pair's
/// code (`pair_code`).
pub struct WarMap {
    map: HashMap<u128, (u32, u32)>,
}

/// The code of the map key `k`: its first identifier in the high 64 bits,
/// its second in the low ones.
pub open spec fn pair_code(k: (u64, u64)) -> int {
    k.0 * 0x1_0000_0000_0000_0000 + k.1
}

/// Different keys have different codes, and every code fits in a `u128`.
proof fn lemma_pair_code(a: (u64, u64), b: (u64, u64))
    ensures
        0 <= pair_code(a) <= u128::MAX,
        pair_code(a) == pair_code(b) ==> a == b,
{
    assert(0 <= pair_code(a) <= u128::MAX) by (nonlinear_arith)
        requires
            pair_code(a) == a.0 * 0x1_0000_0000_0000_0000 + a.1,
            0 <= a.0 <= 0xffff_ffff_ffff_ffff,
            0 <= a.1 <= 0xffff_ffff_ffff_ffff,
    ;
    if pair_code(a) == pair_code(b) {
        let p = pair_code(a);
        lemma_fundamental_div_mod_converse(p, 0x1_0000_0000_0000_0000, a.0 as int, a.1 as int);
        lemma_fundamental_div_mod_converse(p, 0x1_0000_0000_0000_0000, b.0 as int, b.1 as int);
    }
}

/// The code of the key of `pair`.
fn code_of(pair: &EntityPair) -> (r: u128)
    ensures
        r == pair_code((pair.0.0, pair.1.0)),
{
    proof {
        lemma_pair_code((pair.0.0, pair.1.0), (pair.0.0, pair.1.0));
    }
    (pair.0.0 as u128) * 0x1_0000_0000_0000_0000u128 + (pair.1.0 as u128)
}

impl View for WarMap {
    type V = Map<(u64, u64), (u32, u32)>;

    /// The number of wars and truce time recorded for each pair of polities.
    closed spec fn view(&self) -> Map<(u64, u64), (u32, u32)> {
        Map::new(
            |k: (u64, u64)| self.map@.contains_key(pair_code(k) as u128),
            |k: (u64, u64)| self.map@[pair_code(k) as u128],
        )
    }
}

impl WarMap {
    pub fn new() -> (r: Self)
        ensures
            r.view() == Map::<(u64, u64), (u32, u32)>::empty(),
    {
        let r = WarMap { map: HashMap::new() };
        assert(r.view() =~= Map::<(u64, u64), (u32, u32)>::empty());
        r
    }

    /// Record `v` for the pair `pair`.
    fn set(&mut self, pair: &EntityPair, v: (u32, u32))
        ensures
            final(self).view() == old(self).view().insert((pair.0.0, pair.1.0), v),
    {
        let ghost k = (pair.0.0, pair.1.0);
        let code = code_of(pair);
        self.map.insert(code, v);
        proof {
            assert forall|k2: (u64, u64)| #![auto] self.view().contains_key(k2) == old(self).view().insert(k, v).contains_key(k2)
                && (self.view().contains_key(k2) ==> self.view()[k2] == old(self).view().insert(k, v)[k2]) by {
                lemma_pair_code(k2, k);
            }
            assert(self.view() =~= old(self).view().insert(k, v));
        }
    }

    /// Number of wars and truce time between `us` and `them`.
    pub fn get_war_map_num(&mut self, us: Entity, them: Entity) -> (r: (u32, u32))
        ensures
            final(self).view() == old(self).view(),
            r == spec_war_get(old(self).view(), pair_key(us, them)),
    {
        let pair = EntityPair::new(us, them);
        let code = code_of(&pair);
        proof {
            lemma_pair_code(pair_key(us, them), pair_key(us, them));
        }
        match self.map.get(&code) {
            Some(v) => *v,
            None => (0, 0),
        }
    }

    /// Record a new war between `us` and `them`; returns the number of wars
    /// they now fight.
    pub fn inc_war_map_num(&mut self, us: Entity, them: Entity) -> (r: u32)
        requires
            spec_war_get(old(self).view(), pair_key(us, them)).0 < u32::MAX,
        ensures
            final(self).view() == spec_war_inc(old(self).view(), pair_key(us, them)),
            r == spec_war_get(final(self).view(), pair_key(us, them)).0,
    {
        let pair = EntityPair::new(us, them);
        let (num, _) = self.get_war_map_num(us, them);
        let num = num + 1;
        self.set(&pair, (num, 0));
        num
    }

    /// Record the end of a war between `us` and `them`; when none is left,
    /// a truce of length `truce` starts. Returns the number of wars left.
    pub fn dec_war_map_num(&mut self, us: Entity, them: Entity, truce: u32) -> (r: u32)
        requires
            old(self).view().contains_key(pair_key(us, them)) ==> old(self).view()[pair_key(
                us,
                them,
            )].0 > 0,
        ensures
            final(self).view() == spec_war_dec(old(self).view(), pair_key(us, them), truce),
            r == spec_war_get(final(self).view(), pair_key(us, them)).0,
    {
        let pair = EntityPair::new(us, them);
        let code = code_of(&pair);
        proof {
            lemma_pair_code(pair_key(us, them), pair_key(us, them));
        }
        let v = match self.map.get(&code) {
            Some(v) => {
                let num = v.0 - 1;
                (num, if num == 0 { truce } else { v.1 })
            },
            None => (0, truce),
        };
        self.set(&pair, v);
        v.0
    }
}

impl Default for WarMap {
    fn default() -> (r: Self)
        ensures
            r.view() == Map::<(u64, u64), (u32, u32)>::empty(),
    {
        WarMap::new()
    }
}

/// The pair of two entities does not depend on the order they are given in.
pub proof fn law_entity_pair_symmetric(a: Entity, b: Entity)
    ensures
        spec_entity_pair(a, b) == spec_entity_pair(b, a),
        spec_entity_pair(a, b).0.0 >= spec_entity_pair(a, b).1.0,
{
}

/// The wars between `us` and `them` are the wars between `them` and `us`.
pub proof fn law_war_count_symmetric(m: Map<(u64, u64), (u32, u32)>, us: Entity, them: Entity)
    ensures
        spec_war_get(m, pair_key(us, them)) == spec_war_get(m, pair_key(them, us)),
{
    law_entity_pair_symmetric(us, them);
}

/// Starting a war and then ending it gives back the number of wars there was
/// before.
pub proof fn law_war_inc_then_dec(m: Map<(u64, u64), (u32, u32)>, k: (u64, u64), truce: u32)
    requires
        spec_war_get(m, k).0 < u32::MAX,
    ensures
        spec_war_get(spec_war_dec(spec_war_inc(m, k), k, truce), k).0 == spec_war_get(m, k).0,
{
}

/// A new war ends any truce between the pair, and counts one war more.
pub proof fn law_war_inc_ends_truce(m: Map<(u64, u64), (u32, u32)>, k: (u64, u64))
    requires
        spec_war_get(m, k).0 < u32::MAX,
    ensures
        spec_war_get(spec_war_inc(m, k), k) == ((spec_war_get(m, k).0 + 1) as u32, 0u32),
{
}

/// Ending the last war between a pair starts the truce; ending one of
/// several keeps the truce that was recorded.
pub proof fn law_war_dec_truce(m: Map<(u64, u64), (u32, u32)>, k: (u64, u64), truce: u32)
    requires
        m.contains_key(k) ==> m[k].0 > 0,
    ensures
        spec_war_get(m, k).0 <= 1 ==> spec_war_get(spec_war_dec(m, k, truce), k) == (0u32, truce),
        spec_war_get(m, k).0 > 1 ==> spec_war_get(spec_war_dec(m, k, truce), k) == (
            (spec_war_get(m, k).0 - 1) as u32,
            spec_war_get(m, k).1,
        ),
{
}

/// Starting or ending a war between one pair leaves every other pair as it was.
pub proof fn law_war_other_pairs_unchanged(
    m: Map<(u64, u64), (u32, u32)>,
    k: (u64, u64),
    other: (u64, u64),
    truce: u32,
)
    requires
        k != other,
    ensures
        spec_war_get(spec_war_inc(m, k), other) == spec_war_get(m, other),
        spec_war_get(spec_war_dec(m, k, truce), other) == spec_war_get(m, other),
{
}

} // verus!
