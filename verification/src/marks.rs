use vstd::prelude::*;

use crate::rays::{count_some, lemma_count_some_bounded, lemma_count_some_zero, FramePlan, RayEndpoints};

verus! {

/// Where a ray's nearest obstacle return falls on the grid.
#[derive(Clone, Copy, Debug, PartialEq, Eq, Structural)]
pub enum Obstacle {
    /// The ray has no obstacle return.
    Absent,
    /// The obstacle return lies outside the grid.
    Outside,
    /// The obstacle return lies in this cell.
    Inside(usize),
}

/// The grid cells of one sector's ray: the cell of its obstacle return, if
/// that lies in the grid, and the cells its segment crosses from the camera
/// to the end of its free space.
pub struct SectorCells {
    pub obstacle_cell: Option<usize>,
    pub path: Vec<usize>,
}

/// The evidence a frame gives about one cell.
#[derive(Clone, Copy, Debug, PartialEq, Eq, Structural)]
pub enum Evidence {
    /// An obstacle endpoint fell in the cell.
    Hit,
    /// A ray crossed the cell on its way to something else.
    Miss,
}

/// Where the obstacle of sector ray `ray` falls, given the sector's cells.
pub open spec fn obstacle_of(ray: Option<RayEndpoints>, g: SectorCells) -> Obstacle {
    match ray {
        Some(r) => match r.obstacle {
            Some(_) => match g.obstacle_cell {
                Some(c) => Obstacle::Inside(c),
                None => Obstacle::Outside,
            },
            None => Obstacle::Absent,
        },
        None => Obstacle::Absent,
    }
}

/// The sector has a ray whose obstacle lies in cell `i`.
pub open spec fn ends_in(ray: Option<RayEndpoints>, g: SectorCells, i: int) -> bool {
    ray is Some && obstacle_of(ray, g) == Obstacle::Inside(i as usize)
}

/// Within the first `k` cells of its path, the sector's segment crosses
/// cell `i`, which is not its obstacle cell.
pub open spec fn ray_misses(ray: Option<RayEndpoints>, g: SectorCells, k: int, i: int) -> bool {
    &&& obstacle_of(ray, g) != Obstacle::Inside(i as usize)
    &&& exists|j: int| 0 <= j < k && #[trigger] g.path@[j] == i
}

/// The sector has a ray that crosses cell `i` without ending on it.
pub open spec fn passes(ray: Option<RayEndpoints>, g: SectorCells, i: int) -> bool {
    ray is Some && ray_misses(ray, g, g.path@.len() as int, i)
}

/// Some sector among the first `n` has its obstacle in cell `i`.
pub open spec fn hit_marked(rays: Seq<Option<RayEndpoints>>, sectors: Seq<SectorCells>, n: int, i: int) -> bool {
    exists|b: int| 0 <= b < n && #[trigger] ends_in(rays[b], sectors[b], i)
}

/// Some sector among the first `n` crosses cell `i` without ending on it.
pub open spec fn miss_marked(rays: Seq<Option<RayEndpoints>>, sectors: Seq<SectorCells>, n: int, i: int) -> bool {
    exists|b: int| 0 <= b < n && #[trigger] passes(rays[b], sectors[b], i)
}

/// Number of sectors among the first `n` whose obstacle lies in the grid.
pub open spec fn count_grid_hits(rays: Seq<Option<RayEndpoints>>, sectors: Seq<SectorCells>, n: int) -> nat
    decreases n,
{
    if n <= 0 {
        0
    } else {
        count_grid_hits(rays, sectors, n - 1) + if rays[n - 1] is Some && obstacle_of(rays[n - 1], sectors[n - 1]) is Inside {
            1nat
        } else {
            0nat
        }
    }
}

/// Obstacle hits count sectors, not cells: which cells the obstacles fall
/// in does not matter, only whether each lies in the grid.
pub proof fn lemma_grid_hits_ignore_cells(
    rays: Seq<Option<RayEndpoints>>,
    sectors: Seq<SectorCells>,
    sectors2: Seq<SectorCells>,
    n: int,
)
    requires
        forall|b: int| 0 <= b < n ==> (#[trigger] sectors[b].obstacle_cell is Some) == (sectors2[b].obstacle_cell is Some),
    ensures
        count_grid_hits(rays, sectors, n) == count_grid_hits(rays, sectors2, n),
    decreases n,
{
    if n > 0 {
        assert((sectors[n - 1].obstacle_cell is Some) == (sectors2[n - 1].obstacle_cell is Some));
        lemma_grid_hits_ignore_cells(rays, sectors, sectors2, n - 1);
    }
}

/// When each of the first `n` sectors has a ray whose obstacle lies in the
/// grid, there are `n` obstacle hits, even where several share a cell.
pub proof fn lemma_grid_hits_count_sectors(rays: Seq<Option<RayEndpoints>>, sectors: Seq<SectorCells>, n: int)
    requires
        0 <= n,
        forall|b: int|
            0 <= b < n ==> (#[trigger] rays[b] matches Some(r) && r.obstacle is Some) && sectors[b].obstacle_cell is Some,
    ensures
        count_grid_hits(rays, sectors, n) == n,
    decreases n,
{
    if n > 0 {
        assert(rays[n - 1] matches Some(r) && r.obstacle is Some);
        lemma_grid_hits_count_sectors(rays, sectors, n - 1);
    }
}

/// Every cell a sector's ray names lies below `cell_count`.
pub open spec fn sectors_in_range(rays: Seq<Option<RayEndpoints>>, sectors: Seq<SectorCells>, cell_count: nat) -> bool {
    forall|b: int|
        0 <= b < rays.len() && #[trigger] rays[b] is Some ==> {
            &&& (forall|k: int| 0 <= k < sectors[b].path@.len() ==> #[trigger] sectors[b].path@[k] < cell_count)
            &&& (sectors[b].obstacle_cell matches Some(c) ==> c < cell_count)
        }
}

/// The evidence of a cell: a hit wins over a miss.
pub open spec fn evidence_of(hit: bool, miss: bool) -> Option<Evidence> {
    if hit {
        Some(Evidence::Hit)
    } else if miss {
        Some(Evidence::Miss)
    } else {
        None
    }
}

proof fn lemma_grid_hits_bounded(rays: Seq<Option<RayEndpoints>>, sectors: Seq<SectorCells>, n: int)
    requires
        0 <= n,
    ensures
        count_grid_hits(rays, sectors, n) <= count_some(rays, n),
    decreases n,
{
    if n > 0 {
        lemma_grid_hits_bounded(rays, sectors, n - 1);
    }
}

/// The cells one frame marks, and its counts.
pub struct FrameMarks {
    hits: Vec<bool>,
    misses: Vec<bool>,
    valid_samples: usize,
    considered_rays: usize,
    obstacle_hits: usize,
}

impl FrameMarks {
    pub closed spec fn spec_hits(self) -> Seq<bool> {
        self.hits@
    }

    pub closed spec fn spec_misses(self) -> Seq<bool> {
        self.misses@
    }

    pub closed spec fn spec_valid_samples(self) -> nat {
        self.valid_samples as nat
    }

    pub closed spec fn spec_considered_rays(self) -> nat {
        self.considered_rays as nat
    }

    pub closed spec fn spec_obstacle_hits(self) -> nat {
        self.obstacle_hits as nat
    }

    /// Number of cells the marks cover.
    pub open spec fn len(self) -> nat {
        self.spec_hits().len()
    }

    /// Whether the frame says anything about cell `i`.
    pub open spec fn marked(self, i: int) -> bool {
        self.spec_hits()[i] || self.spec_misses()[i]
    }

    /// What the marks of every frame satisfy: obstacle hits are among the
    /// rays, rays are no more than the counted samples, and a frame with no
    /// counted sample marks nothing.
    pub open spec fn consistent(self) -> bool {
        &&& self.spec_hits().len() == self.spec_misses().len()
        &&& self.spec_obstacle_hits() <= self.spec_considered_rays() <= self.spec_valid_samples()
        &&& self.spec_valid_samples() == 0 ==> forall|i: int| 0 <= i < self.len() ==> !#[trigger] self.marked(i)
    }

    /// In-range finite depth samples with a valid mask entry.
    pub fn valid_samples(&self) -> (n: usize)
        ensures
            n == self.spec_valid_samples(),
    {
        self.valid_samples
    }

    /// Angular sectors with usable projected returns.
    pub fn considered_rays(&self) -> (n: usize)
        ensures
            n == self.spec_considered_rays(),
    {
        self.considered_rays
    }

    /// Occupied endpoints that fell inside the grid.
    pub fn obstacle_hits(&self) -> (n: usize)
        ensures
            n == self.spec_obstacle_hits(),
    {
        self.obstacle_hits
    }

    /// Number of cells the marks cover.
    pub fn cell_count(&self) -> (n: usize)
        ensures
            n == self.len(),
    {
        self.hits.len()
    }

    /// The evidence the frame gives about cell `i`; a hit wins over a miss.
    pub fn evidence(&self, i: usize) -> (e: Option<Evidence>)
        requires
            self.consistent(),
            i < self.len(),
        ensures
            e == evidence_of(self.spec_hits()[i as int], self.spec_misses()[i as int]),
    {
        if self.hits[i] {
            Some(Evidence::Hit)
        } else if self.misses[i] {
            Some(Evidence::Miss)
        } else {
            None
        }
    }
}

fn all_false(n: usize) -> (v: Vec<bool>)
    ensures
        v@.len() == n,
        forall|i: int| 0 <= i < n ==> !#[trigger] v@[i],
{
    let mut v: Vec<bool> = Vec::new();
    let mut i: usize = 0;
    while i < n
        invariant
            i <= n,
            v@.len() == i,
            forall|j: int| 0 <= j < i ==> !#[trigger] v@[j],
        decreases n - i,
    {
        v.push(false);
        i = i + 1;
    }
    v
}

/// Mark a frame's rays on a grid of `cell_count` cells. `sectors[b]` holds
/// the grid cells of sector `b`'s ray (ignored for a sector without one):
/// the ray's obstacle cell, if it has an obstacle, is a hit, and each other
/// cell its path crosses is a miss.
pub fn mark_rays(plan: &FramePlan, sectors: &Vec<SectorCells>, cell_count: usize) -> (marks: FrameMarks)
    requires
        plan.consistent(),
        sectors@.len() == plan.spec_rays().len(),
        sectors_in_range(plan.spec_rays(), sectors@, cell_count as nat),
    ensures
        marks.consistent(),
        marks.len() == cell_count,
        marks.spec_misses().len() == cell_count,
        forall|i: int|
            0 <= i < cell_count ==> #[trigger] marks.spec_hits()[i] == hit_marked(
                plan.spec_rays(),
                sectors@,
                sectors@.len() as int,
                i,
            ),
        forall|i: int|
            0 <= i < cell_count ==> #[trigger] marks.spec_misses()[i] == miss_marked(
                plan.spec_rays(),
                sectors@,
                sectors@.len() as int,
                i,
            ),
        marks.spec_valid_samples() == plan.spec_valid_samples(),
        marks.spec_considered_rays() == count_some(plan.spec_rays(), plan.spec_rays().len() as int),
        marks.spec_obstacle_hits() == count_grid_hits(plan.spec_rays(), sectors@, sectors@.len() as int),
        forall|i: int|
            0 <= i < cell_count && hit_marked(plan.spec_rays(), sectors@, sectors@.len() as int, i)
                ==> #[trigger] evidence_of(marks.spec_hits()[i], marks.spec_misses()[i]) == Some(Evidence::Hit),
        forall|i: int|
            0 <= i < cell_count && #[trigger] evidence_of(marks.spec_hits()[i], marks.spec_misses()[i]) == Some(
                Evidence::Miss,
            ) ==> miss_marked(plan.spec_rays(), sectors@, sectors@.len() as int, i) && !hit_marked(
                plan.spec_rays(),
                sectors@,
                sectors@.len() as int,
                i,
            ),
        forall|b: int, k: int|
            0 <= b < sectors@.len() && plan.spec_rays()[b] is Some && 0 <= k < sectors@[b].path@.len()
                ==> #[trigger] marks.marked(#[trigger] sectors@[b].path@[k] as int),
        (forall|b: int|
            0 <= b < sectors@.len() ==> (#[trigger] plan.spec_rays()[b] matches Some(r) && r.obstacle is Some)
                && sectors@[b].obstacle_cell is Some) ==> marks.spec_obstacle_hits() == sectors@.len(),
{
    let rays = plan.rays();
    let ghost rs = rays@;
    let ghost gs = sectors@;
    let mut hits = all_false(cell_count);
    let mut misses = all_false(cell_count);
    let mut considered: usize = 0;
    let mut grid_hits: usize = 0;
    let mut b: usize = 0;
    while b < sectors.len()
        invariant
            rs == plan.spec_rays(),
            rays@ == rs,
            gs == sectors@,
            rs.len() == gs.len(),
            sectors_in_range(rs, gs, cell_count as nat),
            b <= gs.len(),
            hits@.len() == cell_count,
            misses@.len() == cell_count,
            forall|i: int| 0 <= i < cell_count ==> #[trigger] hits@[i] == hit_marked(rs, gs, b as int, i),
            forall|i: int| 0 <= i < cell_count ==> #[trigger] misses@[i] == miss_marked(rs, gs, b as int, i),
            considered == count_some(rs, b as int),
            grid_hits == count_grid_hits(rs, gs, b as int),
            grid_hits <= considered,
            considered <= b,
        decreases gs.len() - b,
    {
        let g = &sectors[b];
        match rays[b] {
            None => {
                proof {
                    assert forall|i: int| 0 <= i < cell_count implies #[trigger] hits@[i] == hit_marked(rs, gs, b + 1, i) by {
                        if hit_marked(rs, gs, b + 1, i) {
                            let w = choose|w: int| 0 <= w < b + 1 && #[trigger] ends_in(rs[w], gs[w], i);
                            assert(w != b);
                        }
                    }
                    assert forall|i: int| 0 <= i < cell_count implies #[trigger] misses@[i] == miss_marked(rs, gs, b + 1, i) by {
                        if miss_marked(rs, gs, b + 1, i) {
                            let w = choose|w: int| 0 <= w < b + 1 && #[trigger] passes(rs[w], gs[w], i);
                            assert(w != b);
                        }
                    }
                }
            },
            Some(ray) => {
                considered = considered + 1;
                let obstacle = match ray.obstacle {
                    None => Obstacle::Absent,
                    Some(_) => match g.obstacle_cell {
                        Some(c) => Obstacle::Inside(c),
                        None => Obstacle::Outside,
                    },
                };
                proof {
                    assert(obstacle == obstacle_of(rs[b as int], gs[b as int]));
                }
                match obstacle {
                    Obstacle::Inside(c) => {
                        hits.set(c, true);
                        grid_hits = grid_hits + 1;
                    },
                    _ => {},
                }
                proof {
                    assert forall|i: int| 0 <= i < cell_count implies #[trigger] hits@[i] == hit_marked(rs, gs, b + 1, i) by {
                        if hit_marked(rs, gs, b + 1, i) {
                            let w = choose|w: int| 0 <= w < b + 1 && #[trigger] ends_in(rs[w], gs[w], i);
                            if w < b {
                                assert(hit_marked(rs, gs, b as int, i));
                            }
                        }
                        if hit_marked(rs, gs, b as int, i) {
                            let w = choose|w: int| 0 <= w < b && #[trigger] ends_in(rs[w], gs[w], i);
                            assert(0 <= w < b + 1);
                        }
                        if obstacle == Obstacle::Inside(i as usize) {
                            assert(ends_in(rs[b as int], gs[b as int], i));
                        }
                    }
                }
                let ghost old_misses = misses@;
                let mut k: usize = 0;
                while k < g.path.len()
                    invariant
                        rs == plan.spec_rays(),
                        gs == sectors@,
                        rs.len() == gs.len(),
                        *g == gs[b as int],
                        rs[b as int] is Some,
                        obstacle == obstacle_of(rs[b as int], gs[b as int]),
                        sectors_in_range(rs, gs, cell_count as nat),
                        b < gs.len(),
                        k <= g.path@.len(),
                        misses@.len() == cell_count,
                        old_misses.len() == cell_count,
                        forall|i: int| 0 <= i < cell_count ==> #[trigger] old_misses[i] == miss_marked(rs, gs, b as int, i),
                        forall|i: int|
                            0 <= i < cell_count ==> #[trigger] misses@[i] == (old_misses[i] || ray_misses(
                                rs[b as int],
                                gs[b as int],
                                k as int,
                                i,
                            )),
                    decreases g.path@.len() - k,
                {
                    let idx = g.path[k];
                    proof {
                        assert(idx < cell_count);
                    }
                    if obstacle != Obstacle::Inside(idx) {
                        misses.set(idx, true);
                    }
                    proof {
                        assert forall|i: int| 0 <= i < cell_count implies #[trigger] misses@[i] == (old_misses[i]
                            || ray_misses(rs[b as int], gs[b as int], k + 1, i)) by {
                            if ray_misses(rs[b as int], gs[b as int], k + 1, i) {
                                let j = choose|j: int| 0 <= j < k + 1 && #[trigger] g.path@[j] == i;
                                if j < k {
                                    assert(ray_misses(rs[b as int], gs[b as int], k as int, i));
                                }
                            }
                            if ray_misses(rs[b as int], gs[b as int], k as int, i) {
                                let j = choose|j: int| 0 <= j < k && #[trigger] g.path@[j] == i;
                                assert(0 <= j < k + 1);
                            }
                            if i == idx && obstacle != Obstacle::Inside(idx) {
                                assert(g.path@[k as int] == i);
                            }
                        }
                    }
                    k = k + 1;
                }
                proof {
                    assert forall|i: int| 0 <= i < cell_count implies #[trigger] misses@[i] == miss_marked(rs, gs, b + 1, i) by {
                        if miss_marked(rs, gs, b + 1, i) {
                            let w = choose|w: int| 0 <= w < b + 1 && #[trigger] passes(rs[w], gs[w], i);
                            if w < b {
                                assert(miss_marked(rs, gs, b as int, i));
                            }
                        }
                        if miss_marked(rs, gs, b as int, i) {
                            let w = choose|w: int| 0 <= w < b && #[trigger] passes(rs[w], gs[w], i);
                            assert(0 <= w < b + 1);
                        }
                        if ray_misses(rs[b as int], gs[b as int], g.path@.len() as int, i) {
                            assert(passes(rs[b as int], gs[b as int], i));
                        }
                    }
                }
            },
        }
        b = b + 1;
    }
    proof {
        let n = rs.len() as int;
        lemma_grid_hits_bounded(rs, gs, n);
        if forall|b: int|
            0 <= b < gs.len() ==> (#[trigger] rs[b] matches Some(r) && r.obstacle is Some) && gs[b].obstacle_cell is Some {
            lemma_grid_hits_count_sectors(rs, gs, n);
        }
        assert forall|b: int, k: int|
            0 <= b < gs.len() && rs[b] is Some && 0 <= k < gs[b].path@.len() implies hits@[
            #[trigger] gs[b].path@[k] as int] || misses@[gs[b].path@[k] as int] by {
            let i = gs[b].path@[k] as int;
            if obstacle_of(rs[b], gs[b]) == Obstacle::Inside(i as usize) {
                assert(ends_in(rs[b], gs[b], i));
            } else {
                assert(gs[b].path@[k] == i);
                assert(passes(rs[b], gs[b], i));
            }
        }
        if plan.spec_valid_samples() == 0 {
            lemma_count_some_zero(rs, n);
            assert forall|i: int| 0 <= i < cell_count implies !#[trigger] hits@[i] && !misses@[i] by {
                if hit_marked(rs, gs, n, i) {
                    let w = choose|w: int| 0 <= w < n && #[trigger] ends_in(rs[w], gs[w], i);
                    assert(rs[w] is None);
                }
                if miss_marked(rs, gs, n, i) {
                    let w = choose|w: int| 0 <= w < n && #[trigger] passes(rs[w], gs[w], i);
                    assert(rs[w] is None);
                }
            }
        }
    }
    FrameMarks { hits, misses, valid_samples: plan.valid_samples(), considered_rays: considered, obstacle_hits: grid_hits }
}

} // verus!
