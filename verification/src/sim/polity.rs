//! Polities: the regions, neighbours and conflicts of a political entity,
//! and the records of its culture.
use vstd::prelude::*;
use std::collections::{HashMap, HashSet};
use crate::sim::{Entity, SimMapData, enemies_of, spec_war_inc_all};
use crate::sim::conflict::{side_insert, spec_new_member};
use crate::sim::war::{pair_key, spec_war_get};
use crate::sim::region::nested_view;

verus! {

broadcast use vstd::std_specs::hash::group_hash_axioms;

/// A neighbouring polity: its regions on our border, and the flag of the
/// update that last saw it. Relations with it are kept by the simulation
/// beside it.
pub struct Neighbour {
    pub borders: HashSet<u64>,
    pub flop: bool,
}

/// A political entity that owns land and population: the part of it that
/// is counted in whole numbers. Its fractional state (resources,
/// technology, policies, population and the like) is kept by the
/// simulation beside it.
pub struct Polity {
    /// This entity.
    pub this: Option<Entity>,
    /// Owned regions (by entity bits).
    pub regions: HashSet<u64>,
    /// Neighbouring polities (by entity bits).
    pub neighbours: HashMap<u64, Neighbour>,
    /// Active conflicts.
    pub conflicts: HashSet<u32>,
    /// Created great works.
    pub great_works: Vec<GreatWork>,
    /// Created great people.
    pub great_people: Vec<GreatPerson>,
    /// Date of the next policy change.
    pub next_policy: u32,
}

/// The neighbours as sets of border regions and update flags.
pub open spec fn neighbours_view(m: Map<u64, Neighbour>) -> Map<u64, (Set<u64>, bool)> {
    Map::new(|p: u64| m.contains_key(p), |p: u64| (m[p].borders@, m[p].flop))
}

/// Every neighbour carries the same update flag.
pub open spec fn flags_agree(m: Map<u64, (Set<u64>, bool)>) -> bool {
    forall|p: u64, q: u64| m.contains_key(p) && m.contains_key(q) ==> #[trigger] m[p].1 == #[trigger] m[q].1
}

/// The flag of the next update: the opposite of the neighbours' flag, and
/// `true` while there are none.
pub open spec fn next_flag(m: Map<u64, (Set<u64>, bool)>) -> bool {
    m.dom().len() == 0 || exists|p: u64| m.contains_key(p) && !#[trigger] m[p].1
}

/// Some border map of `lists` names polity `p`.
pub open spec fn bordering(lists: Seq<Map<u64, Set<u64>>>, p: u64) -> bool {
    exists|i: int| 0 <= i < lists.len() && #[trigger] lists[i].contains_key(p)
}

/// The regions of polity `p` that the border maps of `lists` name.
pub open spec fn border_union(lists: Seq<Map<u64, Set<u64>>>, p: u64) -> Set<u64> {
    Set::new(|r: u64| exists|i: int| 0 <= i < lists.len() && #[trigger] lists[i].contains_key(p) && lists[i][p].contains(r))
}

/// The neighbours after an update with flag `flip` from the border maps
/// `lists` of the polity's regions: the polities the maps name, each with
/// the border regions it had (if it was a neighbour) and those the maps
/// name.
pub open spec fn spec_update_neighbours(
    old: Map<u64, (Set<u64>, bool)>,
    lists: Seq<Map<u64, Set<u64>>>,
    flip: bool,
) -> Map<u64, (Set<u64>, bool)> {
    Map::new(
        |p: u64| bordering(lists, p),
        |p: u64| ((if old.contains_key(p) { old[p].0 } else { Set::empty() }).union(border_union(lists, p)), flip),
    )
}

/// The border maps of a polity's regions as maps from polity to regions.
pub open spec fn border_maps(v: Seq<HashMap<u64, HashSet<u64>>>) -> Seq<Map<u64, Set<u64>>> {
    Seq::new(v.len(), |i: int| nested_view(v[i]@))
}

/// The neighbours while an update with flag `flip` has merged the border
/// maps `done`: those merged carry the flag and the regions merged so far,
/// the others are as they were.
pub open spec fn merged_neighbours(
    old: Map<u64, (Set<u64>, bool)>,
    done: Seq<Map<u64, Set<u64>>>,
    flip: bool,
) -> Map<u64, (Set<u64>, bool)> {
    Map::new(
        |p: u64| old.contains_key(p) || bordering(done, p),
        |p: u64|
            if bordering(done, p) {
                ((if old.contains_key(p) { old[p].0 } else { Set::empty() }).union(border_union(done, p)), flip)
            } else {
                old[p]
            },
    )
}

proof fn lemma_merge_empty(old: Map<u64, (Set<u64>, bool)>, pre: Seq<Map<u64, Set<u64>>>, flip: bool)
    ensures
        merged_neighbours(old, pre.push(Map::empty()), flip) == merged_neighbours(old, pre, flip),
{
    let done = pre.push(Map::empty());
    assert forall|p: u64| bordering(done, p) == bordering(pre, p) by {
        if bordering(done, p) {
            let i = choose|i: int| 0 <= i < done.len() && #[trigger] done[i].contains_key(p);
            assert(i < pre.len());
            assert(pre[i] == done[i]);
        }
        if bordering(pre, p) {
            let i = choose|i: int| 0 <= i < pre.len() && #[trigger] pre[i].contains_key(p);
            assert(pre[i] == done[i]);
        }
    }
    assert forall|p: u64| border_union(done, p) == border_union(pre, p) by {
        assert forall|r: u64| border_union(done, p).contains(r) <==> border_union(pre, p).contains(r) by {
            if border_union(done, p).contains(r) {
                let i = choose|i: int| 0 <= i < done.len() && #[trigger] done[i].contains_key(p) && done[i][p].contains(r);
                assert(i < pre.len());
                assert(pre[i] == done[i]);
            }
            if border_union(pre, p).contains(r) {
                let i = choose|i: int| 0 <= i < pre.len() && #[trigger] pre[i].contains_key(p) && pre[i][p].contains(r);
                assert(pre[i] == done[i]);
            }
        }
        assert(border_union(done, p) =~= border_union(pre, p));
    }
    assert(merged_neighbours(old, done, flip) =~= merged_neighbours(old, pre, flip));
}

proof fn lemma_merge_step(
    old: Map<u64, (Set<u64>, bool)>,
    pre: Seq<Map<u64, Set<u64>>>,
    partial: Map<u64, Set<u64>>,
    k: u64,
    regions: Set<u64>,
    flip: bool,
)
    requires
        !partial.contains_key(k),
    ensures
        ({
            let cur = merged_neighbours(old, pre.push(partial), flip);
            merged_neighbours(old, pre.push(partial.insert(k, regions)), flip) == cur.insert(
                k,
                ((if cur.contains_key(k) { cur[k].0 } else { Set::empty() }).union(regions), flip),
            )
        }),
{
    let done = pre.push(partial);
    let next = pre.push(partial.insert(k, regions));
    let n = pre.len() as int;
    assert(next[n] == partial.insert(k, regions));
    assert(done[n] == partial);
    assert forall|i: int| 0 <= i < n implies next[i] == done[i] by {}
    assert forall|p: u64| p != k implies bordering(next, p) == bordering(done, p) by {
        if bordering(next, p) {
            let i = choose|i: int| 0 <= i < next.len() && #[trigger] next[i].contains_key(p);
            assert(done[i].contains_key(p));
        }
        if bordering(done, p) {
            let i = choose|i: int| 0 <= i < done.len() && #[trigger] done[i].contains_key(p);
            assert(next[i].contains_key(p));
        }
    }
    assert(bordering(next, k)) by {
        assert(next[n].contains_key(k));
    }
    assert forall|p: u64|
        border_union(next, p) == border_union(done, p).union(if p == k { regions } else { Set::empty() }) by {
        assert forall|r: u64|
            border_union(next, p).contains(r) <==> border_union(done, p).union(
                if p == k { regions } else { Set::empty() },
            ).contains(r) by {
            if border_union(next, p).contains(r) {
                let i = choose|i: int| 0 <= i < next.len() && #[trigger] next[i].contains_key(p) && next[i][p].contains(r);
                if !(i == n && p == k) {
                    assert(done[i].contains_key(p) && done[i][p].contains(r));
                }
            }
            if border_union(done, p).contains(r) {
                let i = choose|i: int| 0 <= i < done.len() && #[trigger] done[i].contains_key(p) && done[i][p].contains(r);
                assert(i != n || p != k);
                assert(next[i].contains_key(p) && next[i][p].contains(r));
            }
            if p == k && regions.contains(r) {
                assert(next[n].contains_key(p) && next[n][p].contains(r));
            }
        }
        assert(border_union(next, p) =~= border_union(done, p).union(if p == k { regions } else { Set::empty() }));
    }
    let cur = merged_neighbours(old, done, flip);
    let a = merged_neighbours(old, next, flip);
    let b = cur.insert(k, ((if cur.contains_key(k) { cur[k].0 } else { Set::empty() }).union(regions), flip));
    assert forall|p: u64| #[trigger] a.contains_key(p) == b.contains_key(p) by {}
    assert forall|p: u64| #[trigger] a.contains_key(p) implies a[p] == b[p] by {
        if p == k {
            if !bordering(done, k) {
                assert(border_union(done, k) =~= Set::<u64>::empty()) by {
                    assert forall|r: u64| !border_union(done, k).contains(r) by {
                        if border_union(done, k).contains(r) {
                            let i = choose|i: int| 0 <= i < done.len() && #[trigger] done[i].contains_key(k) && done[i][k].contains(r);
                        }
                    }
                }
            }
            let oldb = if old.contains_key(k) { old[k].0 } else { Set::<u64>::empty() };
            assert(a[k].0 =~= oldb.union(border_union(done, k)).union(regions));
        }
    }
    assert(a =~= b);
}

/// Add every region of `src` to `dst`.
fn add_all(dst: &mut HashSet<u64>, src: &HashSet<u64>)
    ensures
        final(dst)@ == old(dst)@.union(src@),
{
    let ghost mut seen: Set<u64> = Set::empty();
    for r in it: src.iter()
        invariant
            it.seq().unref().to_set() == src@,
            seen == it.seq().subrange(0, it.index() as int).unref().to_set(),
            it.index() == it.seq().len() ==> seen == src@,
            dst@ == old(dst)@.union(seen),
    {
        let ghost i = it.index();
        dst.insert(*r);
        proof {
            seen = seen.insert(*r);
            let prev = it.seq().subrange(0, i as int).unref();
            let next = it.seq().subrange(0, i + 1).unref();
            assert(next =~= prev.push(*r));
            assert(next.to_set() =~= prev.to_set().insert(*r)) by {
                assert forall|v: u64| next.to_set().contains(v) <==> prev.to_set().insert(*r).contains(v) by {
                    if next.contains(v) && v != *r {
                        let j = choose|j: int| 0 <= j < next.len() && next[j] == v;
                        assert(prev[j] == v);
                    }
                    if prev.contains(v) {
                        let j = choose|j: int| 0 <= j < prev.len() && prev[j] == v;
                        assert(next[j] == v);
                    }
                    if v == *r {
                        assert(next[i as int] == v);
                    }
                }
            }
            assert(dst@ =~= old(dst)@.union(seen));
            assert(it.seq().subrange(0, i + 1).len() == i + 1);
            assert(i + 1 == it.seq().len() ==> it.seq().subrange(0, i + 1) =~= it.seq());
        }
    }
}

/// Merge the border regions `regions` of polity `k` into the neighbours,
/// marking it with flag `flip`.
fn merge_borders(neighbours: &mut HashMap<u64, Neighbour>, k: u64, regions: &HashSet<u64>, flip: bool)
    ensures
        ({
            let cur = neighbours_view(old(neighbours)@);
            neighbours_view(final(neighbours)@) == cur.insert(
                k,
                ((if cur.contains_key(k) { cur[k].0 } else { Set::empty() }).union(regions@), flip),
            )
        }),
{
    let ghost cur = neighbours_view(neighbours@);
    let mut borders = match neighbours.remove(&k) {
        Some(n) => n.borders,
        None => HashSet::new(),
    };
    add_all(&mut borders, regions);
    neighbours.insert(k, Neighbour { borders, flop: flip });
    proof {
        assert(neighbours_view(neighbours@) =~= cur.insert(
            k,
            ((if cur.contains_key(k) { cur[k].0 } else { Set::empty() }).union(regions@), flip),
        ));
    }
}

impl Polity {
    /// Refresh the neighbours from the border maps of the polity's regions
    /// (see `Region::get_border_regions`): every polity the maps name
    /// becomes or stays a neighbour, with the regions the maps name added
    /// to its border regions; the others stop being neighbours. A polity
    /// without regions keeps its neighbours.
    pub fn update_neighbours(&mut self, border_regions: &Vec<HashMap<u64, HashSet<u64>>>)
        requires
            flags_agree(neighbours_view(old(self).neighbours@)),
        ensures
            old(self).regions@.is_empty() ==> neighbours_view(final(self).neighbours@) == neighbours_view(
                old(self).neighbours@,
            ),
            !old(self).regions@.is_empty() ==> neighbours_view(final(self).neighbours@) == spec_update_neighbours(
                neighbours_view(old(self).neighbours@),
                border_maps(border_regions@),
                next_flag(neighbours_view(old(self).neighbours@)),
            ),
            flags_agree(neighbours_view(final(self).neighbours@)),
            final(self).this == old(self).this,
            final(self).regions@ == old(self).regions@,
            final(self).conflicts@ == old(self).conflicts@,
            final(self).great_works@ == old(self).great_works@,
            final(self).great_people@ == old(self).great_people@,
            final(self).next_policy == old(self).next_policy,
    {
        if self.regions.is_empty() {
            return;
        }
        let ghost old_view = neighbours_view(self.neighbours@);
        let ghost lists = border_maps(border_regions@);
        proof {
            assert(old_view.dom() =~= self.neighbours@.dom());
        }
        // The flag of this update: the opposite of the neighbours' one.
        let mut flip = true;
        for (_k, v) in it: self.neighbours.iter()
            invariant
                old_view == neighbours_view(self.neighbours@),
                old_view.dom() == self.neighbours@.dom(),
                flags_agree(old_view),
                it.seq().len() == self.neighbours@.dom().len(),
                forall|i: int|
                    0 <= i < it.seq().len() ==> self.neighbours@.contains_key(*(#[trigger] it.seq()[i]).0)
                        && self.neighbours@[*it.seq()[i].0] == *it.seq()[i].1,
                it.index() == 0 ==> flip,
                it.index() > 0 ==> exists|p: u64| self.neighbours@.contains_key(p) && flip == !self.neighbours@[p].flop,
                it.index() == it.seq().len() ==> (old_view.dom().len() == 0 ==> flip) && (old_view.dom().len() > 0
                    ==> exists|p: u64| self.neighbours@.contains_key(p) && flip == !self.neighbours@[p].flop),
        {
            let ghost i = it.index();
            proof {
                assert(*_k == *it.seq()[i as int].0 && *v == *it.seq()[i as int].1);
                assert(self.neighbours@.contains_key(*it.seq()[i as int].0));
            }
            flip = !v.flop;
            proof {
                assert(old_view.dom().len() > 0) by {
                    assert(old_view.contains_key(*_k));
                }
            }
        }
        proof {
            if old_view.dom().len() > 0 {
                let p = choose|p: u64| self.neighbours@.contains_key(p) && flip == !self.neighbours@[p].flop;
                assert(self.neighbours@.contains_key(p));
                assert(old_view.contains_key(p));
                if !flip {
                    assert forall|q: u64| old_view.contains_key(q) implies #[trigger] old_view[q].1 by {
                        assert(old_view[q].1 == old_view[p].1);
                    }
                } else {
                    assert(!old_view[p].1);
                }
            } else {
                assert(old_view.dom().len() == 0);
            }
            assert(flip == next_flag(old_view));
        }
        // Merge the border maps of the regions.
        proof {
            lemma_merge_empty(old_view, Seq::empty(), flip);
            assert(merged_neighbours(old_view, Seq::empty(), flip) =~= old_view);
        }
        let mut i: usize = 0;
        while i < border_regions.len()
            invariant
                lists == border_maps(border_regions@),
                i <= border_regions@.len(),
                flip == next_flag(old_view),
                neighbours_view(self.neighbours@) == merged_neighbours(old_view, lists.take(i as int), flip),
                self.this == old(self).this,
                self.regions@ == old(self).regions@,
                self.conflicts@ == old(self).conflicts@,
                self.great_works@ == old(self).great_works@,
                self.great_people@ == old(self).great_people@,
                self.next_policy == old(self).next_policy,
            decreases border_regions@.len() - i,
        {
            let map = &border_regions[i];
            let ghost pre = lists.take(i as int);
            let ghost full = lists[i as int];
            let ghost mut partial: Map<u64, Set<u64>> = Map::empty();
            proof {
                lemma_merge_empty(old_view, pre, flip);
            }
            for (k, regions) in it: map.iter()
                invariant
                    full == nested_view(map@),
                    it.seq().len() == map@.dom().len(),
                    it.seq().no_duplicates(),
                    forall|j: int|
                        0 <= j < it.seq().len() ==> map@.contains_key(*(#[trigger] it.seq()[j]).0) && map@[*it.seq()[j].0]
                            == *it.seq()[j].1,
                    forall|j: int| 0 <= j < it.index() ==> partial.contains_key(*(#[trigger] it.seq()[j]).0),
                    forall|p: u64| #[trigger] partial.contains_key(p) ==> full.contains_key(p) && partial[p] == full[p],
                    forall|p: u64|
                        #[trigger] partial.contains_key(p) ==> exists|j: int| 0 <= j < it.index() && *it.seq()[j].0 == p,
                    neighbours_view(self.neighbours@) == merged_neighbours(old_view, pre.push(partial), flip),
                    self.this == old(self).this,
                    self.regions@ == old(self).regions@,
                    self.conflicts@ == old(self).conflicts@,
                    self.great_works@ == old(self).great_works@,
                    self.great_people@ == old(self).great_people@,
                    self.next_policy == old(self).next_policy,
            {
                let ghost j = it.index();
                proof {
                    assert(*k == *it.seq()[j as int].0 && *regions == *it.seq()[j as int].1);
                    assert(map@.contains_key(*it.seq()[j as int].0));
                    assert(!partial.contains_key(*k)) by {
                        if partial.contains_key(*k) {
                            let q = choose|q: int| 0 <= q < j && *it.seq()[q].0 == *k;
                            assert(it.seq()[q] != it.seq()[j as int]);
                            assert(map@[*it.seq()[q].0] == *it.seq()[q].1);
                        }
                    }
                    lemma_merge_step(old_view, pre, partial, *k, regions@, flip);
                }
                merge_borders(&mut self.neighbours, *k, regions, flip);
                proof {
                    partial = partial.insert(*k, regions@);
                }
            }
            proof {
                assert(partial =~= full) by {
                    assert forall|p: u64| full.contains_key(p) implies partial.contains_key(p) by {
                        assert(map@.contains_key(p));
                    }
                }
                assert(lists.take(i + 1) =~= pre.push(full));
            }
            i = i + 1;
        }
        proof {
            assert(lists.take(border_regions@.len() as int) =~= lists);
        }
        // Drop the polities that no border map named.
        let ghost merged = neighbours_view(self.neighbours@);
        let mut stale: Vec<u64> = Vec::new();
        for (k, v) in it: self.neighbours.iter()
            invariant
                merged == neighbours_view(self.neighbours@),
                it.seq().len() == self.neighbours@.dom().len(),
                forall|j: int|
                    0 <= j < it.seq().len() ==> self.neighbours@.contains_key(*(#[trigger] it.seq()[j]).0)
                        && self.neighbours@[*it.seq()[j].0] == *it.seq()[j].1,
                forall|p: u64|
                    self.neighbours@.contains_key(p) ==> exists|q: int| 0 <= q < it.seq().len() && *(#[trigger] it.seq()[q]).0 == p,
                forall|j: int| 0 <= j < stale@.len() ==> merged.contains_key(#[trigger] stale@[j]) && merged[stale@[j]].1 != flip,
                forall|j: int|
                    0 <= j < it.index() && self.neighbours@[*(#[trigger] it.seq()[j]).0].flop != flip ==> stale@.contains(
                        *it.seq()[j].0,
                    ),
                it.index() == it.seq().len() ==> forall|p: u64|
                    merged.contains_key(p) && #[trigger] merged[p].1 != flip ==> stale@.contains(p),
        {
            let ghost j = it.index();
            proof {
                assert(*k == *it.seq()[j as int].0 && *v == *it.seq()[j as int].1);
                assert(self.neighbours@.contains_key(*it.seq()[j as int].0));
            }
            let ghost stale_before = stale@;
            if v.flop != flip {
                stale.push(*k);
            }
            proof {
                assert forall|x: u64| stale_before.contains(x) implies stale@.contains(x) by {
                    let idx = choose|idx: int| 0 <= idx < stale_before.len() && stale_before[idx] == x;
                    assert(stale@[idx] == x);
                }
                if v.flop != flip {
                    assert(stale@[stale@.len() - 1] == *k);
                }
            }
            proof {
                assert forall|p: u64|
                    j + 1 == it.seq().len() && merged.contains_key(p) && #[trigger] merged[p].1 != flip implies stale@.contains(
                    p,
                ) by {
                    assert(self.neighbours@.contains_key(p));
                    let q = choose|q: int| 0 <= q < it.seq().len() && *it.seq()[q].0 == p;
                    assert(self.neighbours@[*it.seq()[q].0].flop != flip);
                    if q < j {
                        assert(stale_before.contains(*it.seq()[q].0));
                    } else {
                        assert(q == j);
                    }
                }
                assert forall|q: int|
                    0 <= q < j + 1 && self.neighbours@[*(#[trigger] it.seq()[q]).0].flop != flip implies stale@.contains(
                    *it.seq()[q].0,
                ) by {
                    if q < j {
                        assert(stale_before.contains(*it.seq()[q].0));
                    }
                }
            }
        }
        let ghost dropped = stale@.to_set();
        proof {
            assert(stale@.take(0) =~= Seq::<u64>::empty());
            assert(merged.remove_keys(stale@.take(0).to_set()) =~= merged);
        }
        let mut j: usize = 0;
        while j < stale.len()
            invariant
                j <= stale@.len(),
                dropped == stale@.to_set(),
                neighbours_view(self.neighbours@) == merged.remove_keys(stale@.take(j as int).to_set()),
                self.this == old(self).this,
                self.regions@ == old(self).regions@,
                self.conflicts@ == old(self).conflicts@,
                self.great_works@ == old(self).great_works@,
                self.great_people@ == old(self).great_people@,
                self.next_policy == old(self).next_policy,
            decreases stale@.len() - j,
        {
            let k = stale[j];
            let ghost before = self.neighbours@;
            self.neighbours.remove(&k);
            proof {
                assert(self.neighbours@ == before.remove(k));
                assert(neighbours_view(before.remove(k)) =~= neighbours_view(before).remove(k));
                assert(stale@.take(j + 1) =~= stale@.take(j as int).push(k));
                assert(stale@.take(j + 1).to_set() =~= stale@.take(j as int).to_set().insert(k)) by {
                    let a = stale@.take(j as int);
                    assert forall|v: u64| a.push(k).to_set().contains(v) <==> a.to_set().insert(k).contains(v) by {
                        if a.push(k).contains(v) && v != k {
                            let q = choose|q: int| 0 <= q < a.push(k).len() && a.push(k)[q] == v;
                            assert(a[q] == v);
                        }
                        if a.contains(v) {
                            let q = choose|q: int| 0 <= q < a.len() && a[q] == v;
                            assert(a.push(k)[q] == v);
                        }
                        if v == k {
                            assert(a.push(k)[a.len() as int] == v);
                        }
                    }
                }
                assert(neighbours_view(self.neighbours@) =~= merged.remove_keys(stale@.take(j + 1).to_set()));
            }
            j = j + 1;
        }
        proof {
            assert(stale@.take(stale@.len() as int) =~= stale@);
            let result = neighbours_view(self.neighbours@);
            let target = spec_update_neighbours(old_view, lists, flip);
            assert forall|p: u64| result.contains_key(p) <==> target.contains_key(p) by {
                if merged.contains_key(p) && !bordering(lists, p) {
                    assert(old_view.contains_key(p));
                    assert(merged[p].1 == old_view[p].1);
                    if old_view[p].1 == flip {
                        if flip {
                            let q = choose|q: u64| old_view.contains_key(q) && !#[trigger] old_view[q].1;
                            assert(old_view[q].1 == old_view[p].1);
                        }
                    }
                    assert(dropped.contains(p));
                }
                if dropped.contains(p) {
                    let q = choose|q: int| 0 <= q < stale@.len() && stale@[q] == p;
                    assert(merged[stale@[q]].1 != flip);
                }
            }
            assert forall|p: u64| result.contains_key(p) implies result[p] == target[p] by {}
            assert(result =~= target);
            assert forall|p: u64, q: u64| result.contains_key(p) && result.contains_key(q) implies #[trigger] result[p].1
                == #[trigger] result[q].1 by {}
        }
    }

    /// Join conflict `id` on the attackers' side (`is_attacker`) or the
    /// defenders', as polity `us_e` shown in colour `color`.
    pub fn join_conflict(&mut self, us_e: Entity, color: [u8; 3], id: u32, extras: &mut SimMapData, is_attacker: bool)
        requires
            old(extras).wf(),
            old(extras).conflicts@.contains_key(id),
            forall|i: int|
                0 <= i < enemies_of(old(extras).conflicts@[id], is_attacker).len() ==> spec_war_get(
                    old(extras).war_map.view(),
                    pair_key(us_e, #[trigger] enemies_of(old(extras).conflicts@[id], is_attacker)[i].entity),
                ).0 < u32::MAX,
        ensures
            final(self).conflicts@ == old(self).conflicts@.insert(id),
            final(self).this == old(self).this,
            final(self).regions@ == old(self).regions@,
            neighbours_view(final(self).neighbours@) == neighbours_view(old(self).neighbours@),
            final(self).great_works@ == old(self).great_works@,
            final(self).great_people@ == old(self).great_people@,
            final(self).next_policy == old(self).next_policy,
            final(extras).wf(),
            final(extras).conflict_counter == old(extras).conflict_counter,
            final(extras).tile_region@ == old(extras).tile_region@,
            final(extras).tile_polity@ == old(extras).tile_polity@,
            final(extras).city_borders@ == old(extras).city_borders@,
            ({
                let c = old(extras).conflicts@[id];
                let member = spec_new_member(us_e, color);
                let n = final(extras).conflicts@[id];
                &&& final(extras).conflicts@ == old(extras).conflicts@.insert(id, n)
                &&& n.id == c.id
                &&& n.start_date == c.start_date
                &&& n.concluded == c.concluded
                &&& n.primary_attacker == c.primary_attacker
                &&& n.primary_defender == c.primary_defender
                &&& is_attacker ==> n.attackers@ == side_insert(c.attackers@, member) && n.defenders@ == c.defenders@
                &&& !is_attacker ==> n.defenders@ == side_insert(c.defenders@, member) && n.attackers@ == c.attackers@
            }),
            final(extras).war_map.view() == spec_war_inc_all(
                old(extras).war_map.view(),
                us_e,
                enemies_of(old(extras).conflicts@[id], is_attacker),
            ),
    {
        extras.add_conflict_member(us_e, color, id, is_attacker);
        self.conflicts.insert(id);
    }
}

impl Default for Polity {
    fn default() -> (r: Self)
        ensures
            r.this is None,
            r.regions@ == Set::<u64>::empty(),
            neighbours_view(r.neighbours@) == Map::<u64, (Set<u64>, bool)>::empty(),
            r.conflicts@ == Set::<u32>::empty(),
            r.great_works@.len() == 0,
            r.great_people@.len() == 0,
            r.next_policy == 0,
    {
        let r = Polity {
            this: None,
            regions: HashSet::new(),
            neighbours: HashMap::new(),
            conflicts: HashSet::new(),
            great_works: Vec::new(),
            great_people: Vec::new(),
            next_policy: 0,
        };
        proof {
            assert(neighbours_view(r.neighbours@) =~= Map::<u64, (Set<u64>, bool)>::empty());
        }
        r
    }
}

/// A great work of a polity.
#[derive(Clone, Copy, Debug, PartialEq, Eq)]
pub struct GreatWork {
    /// Tradition associated with this great work.
    pub tradition: u8,
    /// Time of creation.
    pub time: u32,
}

impl Default for GreatWork {
    fn default() -> (r: Self)
        ensures
            r.tradition == 0,
            r.time == 0,
    {
        GreatWork { tradition: 0, time: 0 }
    }
}

/// A great person of a polity.
#[derive(Clone, Copy, Debug, PartialEq, Eq)]
pub struct GreatPerson {
    /// Tradition associated with this great person.
    pub tradition: u8,
    /// Time of creation.
    pub time: u32,
    /// Is this person still active?
    pub active: bool,
}

impl Default for GreatPerson {
    fn default() -> (r: Self)
        ensures
            r.tradition == 0,
            r.time == 0,
            !r.active,
    {
        GreatPerson { tradition: 0, time: 0, active: false }
    }
}

} // verus!
