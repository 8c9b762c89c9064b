//! The scenario panel of the simulator interface: keeping the starting
//! points and civilizations of the scenario in line with their counts.
use vstd::prelude::*;
use crate::config::sim::{AtlasSimConfig, Civilization, StartingPoint};

verus! {

/// Panel with initial scenario settings.
#[derive(Clone, Copy, Debug, Default)]
pub struct MainPanelScenario;

/// The starting point that a grown list gets.
pub open spec fn spec_default_point() -> StartingPoint {
    StartingPoint { position_locked: false, position: [0, 0], owner_locked: false, owner: 0 }
}

/// `v` limited to `0..=hi`.
pub open spec fn clamp_to(v: u32, hi: int) -> int {
    if v > hi { hi } else { v as int }
}

/// `p` is `q` with its position limited to a `w` by `h` map.
pub open spec fn clamped_point(p: StartingPoint, q: StartingPoint, w: u32, h: u32) -> bool {
    &&& p.position_locked == q.position_locked
    &&& p.owner_locked == q.owner_locked
    &&& p.owner == q.owner
    &&& p.position[0] == clamp_to(q.position[0], w - 1)
    &&& p.position[1] == clamp_to(q.position[1], h - 1)
}

impl MainPanelScenario {
    /// Grow (with default points) or shrink the starting points to the
    /// number of starts, and move every point onto the map.
    pub fn ensure_starting_points(config: &mut AtlasSimConfig)
        requires
            old(config).general.world_size[0] > 0,
            old(config).general.world_size[1] > 0,
        ensures
            final(config).general == old(config).general,
            final(config).climate == old(config).climate,
            final(config).scenario.num_starts == old(config).scenario.num_starts,
            final(config).scenario.num_civs == old(config).scenario.num_civs,
            final(config).scenario.random_point_algorithm == old(config).scenario.random_point_algorithm,
            final(config).scenario.random_civ_algorithm == old(config).scenario.random_civ_algorithm,
            final(config).scenario.start_civs@ == old(config).scenario.start_civs@,
            final(config).scenario.start_points@.len() == old(config).scenario.num_starts,
            forall|i: int|
                0 <= i < old(config).scenario.num_starts ==> clamped_point(
                    #[trigger] final(config).scenario.start_points@[i],
                    if i < old(config).scenario.start_points@.len() {
                        old(config).scenario.start_points@[i]
                    } else {
                        spec_default_point()
                    },
                    old(config).general.world_size[0],
                    old(config).general.world_size[1],
                ),
    {
        let ghost before = config.scenario.start_points@;
        let target = config.scenario.num_starts as usize;
        while config.scenario.start_points.len() < target
            invariant
                target == old(config).scenario.num_starts,
                config.general == old(config).general,
                config.climate == old(config).climate,
                config.scenario.num_starts == old(config).scenario.num_starts,
                config.scenario.num_civs == old(config).scenario.num_civs,
                config.scenario.random_point_algorithm == old(config).scenario.random_point_algorithm,
                config.scenario.random_civ_algorithm == old(config).scenario.random_civ_algorithm,
                config.scenario.start_civs@ == old(config).scenario.start_civs@,
                before == old(config).scenario.start_points@,
                config.scenario.start_points@.len() >= before.len(),
                config.scenario.start_points@.len() <= if before.len() < target { target as int } else { before.len() as int },
                forall|i: int|
                    0 <= i < config.scenario.start_points@.len() ==> #[trigger] config.scenario.start_points@[i]
                        == if i < before.len() { before[i] } else { spec_default_point() },
            decreases target - config.scenario.start_points@.len(),
        {
            config.scenario.start_points.push(
                StartingPoint { position_locked: false, position: [0, 0], owner_locked: false, owner: 0 },
            );
        }
        while config.scenario.start_points.len() > target
            invariant
                target == old(config).scenario.num_starts,
                config.general == old(config).general,
                config.climate == old(config).climate,
                config.scenario.num_starts == old(config).scenario.num_starts,
                config.scenario.num_civs == old(config).scenario.num_civs,
                config.scenario.random_point_algorithm == old(config).scenario.random_point_algorithm,
                config.scenario.random_civ_algorithm == old(config).scenario.random_civ_algorithm,
                config.scenario.start_civs@ == old(config).scenario.start_civs@,
                config.scenario.start_points@.len() >= target,
                forall|i: int|
                    0 <= i < config.scenario.start_points@.len() ==> #[trigger] config.scenario.start_points@[i]
                        == if i < before.len() { before[i] } else { spec_default_point() },
            decreases config.scenario.start_points@.len(),
        {
            config.scenario.start_points.pop();
        }
        let w = config.general.world_size[0];
        let h = config.general.world_size[1];
        let n = config.scenario.start_points.len();
        let mut k: usize = 0;
        while k < n
            invariant
                n == target,
                target == old(config).scenario.num_starts,
                w == old(config).general.world_size[0],
                h == old(config).general.world_size[1],
                w > 0,
                h > 0,
                config.general == old(config).general,
                config.climate == old(config).climate,
                config.scenario.num_starts == old(config).scenario.num_starts,
                config.scenario.num_civs == old(config).scenario.num_civs,
                config.scenario.random_point_algorithm == old(config).scenario.random_point_algorithm,
                config.scenario.random_civ_algorithm == old(config).scenario.random_civ_algorithm,
                config.scenario.start_civs@ == old(config).scenario.start_civs@,
                config.scenario.start_points@.len() == n,
                forall|i: int|
                    0 <= i < k ==> clamped_point(
                        #[trigger] config.scenario.start_points@[i],
                        if i < before.len() { before[i] } else { spec_default_point() },
                        w,
                        h,
                    ),
                forall|i: int|
                    k <= i < n ==> #[trigger] config.scenario.start_points@[i] == if i < before.len() {
                        before[i]
                    } else {
                        spec_default_point()
                    },
            decreases n - k,
        {
            let mut point = config.scenario.start_points[k];
            let x = if point.position[0] > w - 1 { w - 1 } else { point.position[0] };
            let y = if point.position[1] > h - 1 { h - 1 } else { point.position[1] };
            point.position = [x, y];
            config.scenario.start_points.set(k, point);
            k = k + 1;
        }
    }

    /// Grow (with default civilizations) or shrink the starting
    /// civilizations to the number of civilizations. Points owned by a
    /// civilization at or past the number of civilizations the list had
    /// before go to the first one.
    pub fn ensure_starting_civs(config: &mut AtlasSimConfig)
        ensures
            final(config).general == old(config).general,
            final(config).climate == old(config).climate,
            final(config).scenario.num_starts == old(config).scenario.num_starts,
            final(config).scenario.num_civs == old(config).scenario.num_civs,
            final(config).scenario.random_point_algorithm == old(config).scenario.random_point_algorithm,
            final(config).scenario.random_civ_algorithm == old(config).scenario.random_civ_algorithm,
            final(config).scenario.start_civs@.len() == old(config).scenario.num_civs,
            final(config).scenario.start_points@.len() == old(config).scenario.start_points@.len(),
            forall|i: int|
                0 <= i < old(config).scenario.start_points@.len() ==> {
                    let p = #[trigger] final(config).scenario.start_points@[i];
                    let q = old(config).scenario.start_points@[i];
                    &&& p.position_locked == q.position_locked
                    &&& p.position == q.position
                    &&& p.owner_locked == q.owner_locked
                    &&& p.owner == if q.owner >= old(config).scenario.start_civs@.len() {
                        0
                    } else {
                        q.owner
                    }
                },
    {
        let len = config.scenario.start_civs.len();
        let target = config.scenario.num_civs as usize;
        while config.scenario.start_civs.len() < target
            invariant
                target == old(config).scenario.num_civs,
                config.general == old(config).general,
                config.climate == old(config).climate,
                config.scenario.num_starts == old(config).scenario.num_starts,
                config.scenario.num_civs == old(config).scenario.num_civs,
                config.scenario.random_point_algorithm == old(config).scenario.random_point_algorithm,
                config.scenario.random_civ_algorithm == old(config).scenario.random_civ_algorithm,
                config.scenario.start_points@ == old(config).scenario.start_points@,
                config.scenario.start_civs@.len() <= if len < target { target as int } else { len as int },
            decreases target - config.scenario.start_civs@.len(),
        {
            config.scenario.start_civs.push(Civilization {});
        }
        while config.scenario.start_civs.len() > target
            invariant
                target == old(config).scenario.num_civs,
                config.general == old(config).general,
                config.climate == old(config).climate,
                config.scenario.num_starts == old(config).scenario.num_starts,
                config.scenario.num_civs == old(config).scenario.num_civs,
                config.scenario.random_point_algorithm == old(config).scenario.random_point_algorithm,
                config.scenario.random_civ_algorithm == old(config).scenario.random_civ_algorithm,
                config.scenario.start_points@ == old(config).scenario.start_points@,
                config.scenario.start_civs@.len() >= target,
            decreases config.scenario.start_civs@.len(),
        {
            config.scenario.start_civs.pop();
        }
        let n = config.scenario.start_points.len();
        let mut k: usize = 0;
        while k < n
            invariant
                len == old(config).scenario.start_civs@.len(),
                config.general == old(config).general,
                config.climate == old(config).climate,
                config.scenario.num_starts == old(config).scenario.num_starts,
                config.scenario.num_civs == old(config).scenario.num_civs,
                config.scenario.random_point_algorithm == old(config).scenario.random_point_algorithm,
                config.scenario.random_civ_algorithm == old(config).scenario.random_civ_algorithm,
                config.scenario.start_civs@.len() == old(config).scenario.num_civs,
                config.scenario.start_points@.len() == n,
                n == old(config).scenario.start_points@.len(),
                forall|i: int|
                    0 <= i < n ==> {
                        let p = #[trigger] config.scenario.start_points@[i];
                        let q = old(config).scenario.start_points@[i];
                        &&& p.position_locked == q.position_locked
                        &&& p.position == q.position
                        &&& p.owner_locked == q.owner_locked
                        &&& p.owner == if i < k && q.owner >= len { 0 } else { q.owner }
                    },
            decreases n - k,
        {
            let mut point = config.scenario.start_points[k];
            if point.owner as usize >= len {
                point.owner = 0;
                config.scenario.start_points.set(k, point);
            }
            k = k + 1;
        }
    }
}

} // verus!
