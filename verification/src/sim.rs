//! The simulation: world state plus the per-tick phase sequence — resource
//! drift, needs and starvation, belief decay, perception, movement and
//! consumption, and gossip.

use vstd::prelude::*;

use crate::agent::Agent;
use crate::agent::HUNGER_PER_FOOD;
use crate::agent::Needs;
use crate::agent::spec_fav_seq;
use crate::agent::THIRST_PER_WATER;
use crate::belief::BeliefMap;
use crate::belief::in_window;
use crate::belief::perceived_cell;
use crate::belief::pos_dsq;
use crate::belief::spec_blend_map;
use crate::biome::BiomeField;
use crate::dist::MAX_DIM;
use crate::grid::Grid;
use crate::kind::ResourceKind;
use crate::order::first_max_idx;
use crate::prob::HALF;
use crate::prob::ProbabilityVector;
use crate::prob::SCALE;
use crate::prob::spec_decay;
use crate::prob::spec_probable;
use crate::resources::generate_resources;
use crate::resources::resources_tick;
use crate::rng::rand_below;
use crate::rng::rng_from_seed;
use crate::rng::shuffle_indices;

verus! {

/// Cells within this Euclidean distance of an agent are sensed each tick.
pub const SENSE_RANGE: usize = 10;

/// Per-tick belief decay toward uniform, in fixed point (one ten-thousandth).
pub const DECAY_RATE: u64 = 100;

/// Why a simulation could not be built.
#[derive(Clone, Copy, PartialEq, Eq, Structural, Debug)]
pub enum ConfigError {
    /// A grid dimension was zero or beyond `MAX_DIM`.
    InvalidDimensions,
    /// No initial agents were requested.
    NoAgents,
    /// No biome centers were requested.
    NoBiomes,
}

/// An agent one tick hungrier and thirstier.
pub open spec fn bump_spec(a: Agent) -> Agent {
    Agent {
        x: a.x,
        y: a.y,
        needs: Needs {
            hunger: (a.needs.hunger + 1) as u16,
            thirst: (a.needs.thirst + 1) as u16,
        },
        belief: a.belief,
    }
}

/// The agent roster after the needs phase: every agent one tick hungrier
/// and thirstier, those whose needs reached their maxima removed, order
/// kept.
pub open spec fn bumped_live(s: Seq<Agent>) -> Seq<Agent>
    decreases s.len(),
{
    if s.len() == 0 {
        Seq::empty()
    } else {
        let pre = bumped_live(s.drop_last());
        let b = bump_spec(s.last());
        if b.needs.met_spec() {
            pre.push(b)
        } else {
            pre
        }
    }
}

/// Phase two of a tick: every agent grows hungrier and thirstier by one,
/// then every agent whose needs reached their maxima is removed for good.
pub fn needs_phase(agents: &mut Vec<Agent>)
    requires
        forall|i: int|
            0 <= i < old(agents)@.len() ==> (#[trigger] old(agents)@[i]).needs.hunger
                < u16::MAX && old(agents)@[i].needs.thirst < u16::MAX,
    ensures
        final(agents)@ == bumped_live(old(agents)@),
        forall|i: int|
            0 <= i < final(agents)@.len() ==> (#[trigger] final(agents)@[i]).needs.met_spec(),
        forall|i: int|
            0 <= i < final(agents)@.len() ==> exists|j: int|
                0 <= j < old(agents)@.len() && #[trigger] final(agents)@[i] == bump_spec(
                    #[trigger] old(agents)@[j],
                ),
{
    let ghost orig = agents@;
    let mut kept: Vec<Agent> = Vec::new();
    let ghost mut done: int = 0;
    while agents.len() > 0
        invariant
            0 <= done <= orig.len(),
            agents@ == orig.subrange(done, orig.len() as int),
            forall|i: int|
                0 <= i < orig.len() ==> (#[trigger] orig[i]).needs.hunger < u16::MAX
                    && orig[i].needs.thirst < u16::MAX,
            kept@ == bumped_live(orig.take(done)),
            forall|i: int| 0 <= i < kept@.len() ==> (#[trigger] kept@[i]).needs.met_spec(),
            forall|i: int|
                0 <= i < kept@.len() ==> exists|j: int|
                    0 <= j < orig.len() && #[trigger] kept@[i] == bump_spec(#[trigger] orig[j]),
        decreases agents@.len(),
    {
        let a = agents.remove(0);
        proof {
            assert(a == orig[done]);
            assert(agents@ =~= orig.subrange(done + 1, orig.len() as int));
        }
        let bumped = Agent {
            x: a.x,
            y: a.y,
            needs: Needs { hunger: a.needs.hunger + 1, thirst: a.needs.thirst + 1 },
            belief: a.belief,
        };
        let keep = bumped.needs.met();
        proof {
            assert(orig.take(done + 1).drop_last() =~= orig.take(done));
            assert(orig.take(done + 1).last() == orig[done]);
            assert(bumped == bump_spec(orig[done]));
            assert(bumped_live(orig.take(done + 1)) == if bumped.needs.met_spec() {
                bumped_live(orig.take(done)).push(bumped)
            } else {
                bumped_live(orig.take(done))
            });
        }
        if keep {
            kept.push(bumped);
        }
        proof {
            done = done + 1;
        }
    }
    proof {
        assert(orig.take(orig.len() as int) =~= orig);
    }
    *agents = kept;
}

/// `after` is `before` with every belief cell decayed toward uniform at
/// `DECAY_RATE`; positions, needs and map shapes are untouched.
pub open spec fn decay_rel(before: Seq<Agent>, after: Seq<Agent>) -> bool {
    &&& after.len() == before.len()
    &&& forall|i: int|
        0 <= i < before.len() ==> {
            let a0 = #[trigger] before[i];
            let a1 = after[i];
            &&& a1.x == a0.x
            &&& a1.y == a0.y
            &&& a1.needs == a0.needs
            &&& a1.belief.wf()
            &&& a1.belief.spec_width() == a0.belief.spec_width()
            &&& a1.belief.spec_height() == a0.belief.spec_height()
            &&& a1.belief@.len() == a0.belief@.len()
            &&& forall|c: int|
                0 <= c < a0.belief@.len() ==> a1.belief@[c] == spec_decay(
                    #[trigger] a0.belief@[c],
                    DECAY_RATE,
                )
        }
}

/// Phase three of a tick: every surviving agent's whole belief map decays
/// toward uniform.
pub fn decay_phase(agents: &mut Vec<Agent>)
    requires
        forall|i: int| 0 <= i < old(agents)@.len() ==> (#[trigger] old(agents)@[i]).belief.wf(),
    ensures
        decay_rel(old(agents)@, final(agents)@),
{
    let ghost orig = agents@;
    let mut i: usize = 0;
    while i < agents.len()
        invariant
            i <= orig.len(),
            agents@.len() == orig.len(),
            forall|j: int| 0 <= j < orig.len() ==> (#[trigger] orig[j]).belief.wf(),
            forall|j: int| i <= j < orig.len() ==> agents@[j] == orig[j],
            forall|j: int|
                0 <= j < i ==> {
                    let a0 = #[trigger] orig[j];
                    let a1 = agents@[j];
                    &&& a1.x == a0.x
                    &&& a1.y == a0.y
                    &&& a1.needs == a0.needs
                    &&& a1.belief.wf()
                    &&& a1.belief.spec_width() == a0.belief.spec_width()
                    &&& a1.belief.spec_height() == a0.belief.spec_height()
                    &&& a1.belief@.len() == a0.belief@.len()
                    &&& forall|c: int|
                        0 <= c < a0.belief@.len() ==> a1.belief@[c] == spec_decay(
                            #[trigger] a0.belief@[c],
                            DECAY_RATE,
                        )
                },
        decreases orig.len() - i,
    {
        let a = &mut agents[i];
        proof {
            assert(*a == orig[i as int]);
            assert(a.belief.wf());
        }
        a.belief.decay_all(DECAY_RATE);
        i = i + 1;
    }
    proof {
        assert(decay_rel(orig, agents@));
    }
}

/// Whether `a1` is `a0` after one sensing pass against `truth`: same
/// position and needs, window cells blended toward the sensed kind, the
/// rest untouched.
pub open spec fn perceive_post(
    a0: Agent,
    a1: Agent,
    truth: Grid<ResourceKind>,
    range: usize,
) -> bool {
    &&& a1.x == a0.x
    &&& a1.y == a0.y
    &&& a1.needs == a0.needs
    &&& a1.belief.wf()
    &&& a1.belief.spec_width() == a0.belief.spec_width()
    &&& a1.belief.spec_height() == a0.belief.spec_height()
    &&& forall|p: int, q: int|
        a0.belief.in_bounds(p, q) ==> #[trigger] a1.belief.cell(p, q) == (if in_window(
            a0.x as int,
            a0.y as int,
            range as int,
            a0.belief.spec_width(),
            a0.belief.spec_height(),
            p,
            q,
        ) {
            perceived_cell(
                a0.belief.cell(p, q),
                truth.cell(p, q),
                pos_dsq(a0.x as int, a0.y as int, p, q),
                range as u64,
            )
        } else {
            a0.belief.cell(p, q)
        })
}

/// `after` is `before` after every agent's sensing pass against `truth`.
pub open spec fn perceive_rel(
    before: Seq<Agent>,
    after: Seq<Agent>,
    truth: Grid<ResourceKind>,
) -> bool {
    &&& after.len() == before.len()
    &&& forall|i: int|
        0 <= i < before.len() ==> perceive_post(
            #[trigger] before[i],
            after[i],
            truth,
            SENSE_RANGE,
        )
}

/// Phase four of a tick: every agent senses the cells around it, blending
/// its belief toward what it sees with distance-graded certainty.
pub fn perceive_phase(agents: &mut Vec<Agent>, truth: &Grid<ResourceKind>)
    requires
        truth.wf(),
        truth.spec_width() <= MAX_DIM,
        truth.spec_height() <= MAX_DIM,
        forall|i: int|
            0 <= i < old(agents)@.len() ==> (#[trigger] old(agents)@[i]).wf(
                truth.spec_width(),
                truth.spec_height(),
            ),
    ensures
        perceive_rel(old(agents)@, final(agents)@, *truth),
{
    let ghost orig = agents@;
    let mut i: usize = 0;
    while i < agents.len()
        invariant
            i <= orig.len(),
            agents@.len() == orig.len(),
            truth.wf(),
            truth.spec_width() <= MAX_DIM,
            truth.spec_height() <= MAX_DIM,
            forall|j: int|
                0 <= j < orig.len() ==> (#[trigger] orig[j]).wf(
                    truth.spec_width(),
                    truth.spec_height(),
                ),
            forall|j: int| i <= j < orig.len() ==> agents@[j] == orig[j],
            forall|j: int|
                0 <= j < i ==> perceive_post(
                    #[trigger] orig[j],
                    agents@[j],
                    *truth,
                    SENSE_RANGE,
                ),
        decreases orig.len() - i,
    {
        let a = &mut agents[i];
        proof {
            assert(*a == orig[i as int]);
            assert(a.belief.wf());
        }
        let px = a.x;
        let py = a.y;
        a.belief.perceive(truth, px, py, SENSE_RANGE);
        i = i + 1;
    }
    proof {
        assert(perceive_rel(orig, agents@, *truth));
    }
}

/// One step of the coordinate `p` toward the target `t`.
pub open spec fn step_toward(p: int, t: int) -> int {
    if t > p {
        p + 1
    } else if t < p {
        p - 1
    } else {
        p
    }
}

/// Absolute difference.
pub open spec fn dist_abs(a: int, b: int) -> int {
    if a >= b {
        a - b
    } else {
        b - a
    }
}

/// How one movement/consumption step relates the agent and the ground truth
/// before (`a0`, `g0`) and after (`a1`, `g1`), the grids being `h` tall and
/// the target cell `(tx, ty)`. On its own cell the agent attempts to
/// consume: food (water) is taken exactly when the matching need has at
/// least one unit to relieve, clearing the cell and pinning the agent's own
/// belief there to certainly-empty. Anywhere else the agent steps one cell
/// along the axis with the larger offset, ties going to the y axis.
pub open spec fn move_post(
    a0: Agent,
    a1: Agent,
    g0: Seq<ResourceKind>,
    g1: Seq<ResourceKind>,
    h: int,
    tx: int,
    ty: int,
) -> bool {
    if tx == a0.x && ty == a0.y {
        &&& a1.x == a0.x
        &&& a1.y == a0.y
        &&& {
            let idx = a0.x * h + a0.y;
            let cell = g0[idx];
            if cell == ResourceKind::Food && a0.needs.hunger >= HUNGER_PER_FOOD {
                &&& a1.needs.hunger == a0.needs.hunger - HUNGER_PER_FOOD
                &&& a1.needs.thirst == a0.needs.thirst
                &&& g1 == g0.update(idx, ResourceKind::Empty)
                &&& a1.belief@ == a0.belief@.update(
                    idx,
                    spec_probable(ResourceKind::Empty, SCALE),
                )
            } else if cell == ResourceKind::Water && a0.needs.thirst >= THIRST_PER_WATER {
                &&& a1.needs.thirst == a0.needs.thirst - THIRST_PER_WATER
                &&& a1.needs.hunger == a0.needs.hunger
                &&& g1 == g0.update(idx, ResourceKind::Empty)
                &&& a1.belief@ == a0.belief@.update(
                    idx,
                    spec_probable(ResourceKind::Empty, SCALE),
                )
            } else {
                &&& a1 == a0
                &&& g1 == g0
            }
        }
    } else {
        &&& g1 == g0
        &&& a1.needs == a0.needs
        &&& a1.belief == a0.belief
        &&& (if dist_abs(tx, a0.x as int) > dist_abs(ty, a0.y as int) {
            a1.x == step_toward(a0.x as int, tx) && a1.y == a0.y
        } else {
            a1.x == a0.x && a1.y == step_toward(a0.y as int, ty)
        })
    }
}

/// Carry out one agent's move toward the chosen target, or its consumption
/// attempt when it already stands there.
pub fn apply_move(a: &mut Agent, grid: &mut Grid<ResourceKind>, tx: usize, ty: usize)
    requires
        old(grid).wf(),
        old(a).belief.wf(),
        old(a).belief.spec_width() == old(grid).spec_width(),
        old(a).belief.spec_height() == old(grid).spec_height(),
        old(a).x < old(grid).spec_width(),
        old(a).y < old(grid).spec_height(),
        tx < old(grid).spec_width(),
        ty < old(grid).spec_height(),
    ensures
        final(grid).wf(),
        final(grid).spec_width() == old(grid).spec_width(),
        final(grid).spec_height() == old(grid).spec_height(),
        final(a).belief.wf(),
        final(a).belief.spec_width() == old(a).belief.spec_width(),
        final(a).belief.spec_height() == old(a).belief.spec_height(),
        move_post(
            *old(a),
            *final(a),
            old(grid)@,
            final(grid)@,
            old(grid).spec_height(),
            tx as int,
            ty as int,
        ),
{
    if tx == a.x && ty == a.y {
        let k = *grid.get(a.x, a.y);
        match k {
            ResourceKind::Food => {
                if a.needs.hunger >= HUNGER_PER_FOOD {
                    a.needs.hunger = a.needs.hunger - HUNGER_PER_FOOD;
                    grid.set(a.x, a.y, ResourceKind::Empty);
                    let pv = ProbabilityVector::probable(ResourceKind::Empty, SCALE);
                    proof {
                        crate::prob::lemma_probable_is_distribution(
                            ResourceKind::Empty,
                            SCALE,
                        );
                    }
                    let px = a.x;
                    let py = a.y;
                    a.belief.put(px, py, pv);
                }
            },
            ResourceKind::Water => {
                if a.needs.thirst >= THIRST_PER_WATER {
                    a.needs.thirst = a.needs.thirst - THIRST_PER_WATER;
                    grid.set(a.x, a.y, ResourceKind::Empty);
                    let pv = ProbabilityVector::probable(ResourceKind::Empty, SCALE);
                    proof {
                        crate::prob::lemma_probable_is_distribution(
                            ResourceKind::Empty,
                            SCALE,
                        );
                    }
                    let px = a.x;
                    let py = a.y;
                    a.belief.put(px, py, pv);
                }
            },
            _ => {},
        }
    } else {
        let dx: usize = if tx >= a.x {
            tx - a.x
        } else {
            a.x - tx
        };
        let dy: usize = if ty >= a.y {
            ty - a.y
        } else {
            a.y - ty
        };
        if dx > dy {
            if tx > a.x {
                a.x = a.x + 1;
            } else {
                a.x = a.x - 1;
            }
        } else {
            if ty > a.y {
                a.y = a.y + 1;
            } else {
                a.y = a.y - 1;
            }
        }
    }
}


/// The flat index of the cell agent `a` heads for: the first row-major
/// maximum of its discounted favorability field, a function of its own
/// state alone.
pub open spec fn agent_target(a: Agent, w: int, h: int) -> int {
    first_max_idx(spec_fav_seq(a, w, h))
}

/// The grid after one agent's turn: cleared at the agent's cell when it
/// stands on its target and the matching need has a unit to relieve,
/// untouched otherwise.
pub open spec fn step_grid(
    a0: Agent,
    g0: Seq<ResourceKind>,
    h: int,
    tx: int,
    ty: int,
) -> Seq<ResourceKind> {
    if tx == a0.x && ty == a0.y {
        let idx = a0.x * h + a0.y;
        let cell = g0[idx];
        if (cell == ResourceKind::Food && a0.needs.hunger >= HUNGER_PER_FOOD) || (cell
            == ResourceKind::Water && a0.needs.thirst >= THIRST_PER_WATER) {
            g0.update(idx, ResourceKind::Empty)
        } else {
            g0
        }
    } else {
        g0
    }
}

/// The grid after the first `k` agents took their turns in index order.
pub open spec fn fold_grid(
    before: Seq<Agent>,
    g0: Seq<ResourceKind>,
    w: int,
    h: int,
    k: nat,
) -> Seq<ResourceKind>
    decreases k,
{
    if k == 0 {
        g0
    } else {
        step_grid(
            before[k - 1],
            fold_grid(before, g0, w, h, (k - 1) as nat),
            h,
            agent_target(before[k - 1], w, h) / h,
            agent_target(before[k - 1], w, h) % h,
        )
    }
}

/// The movement phase folded over the first `k` agents in index order: the
/// grid is threaded from turn to turn, and each agent relates to the grid
/// its turn began with through [`move_post`], heading for its own
/// favorability maximum.
pub open spec fn move_fold(
    before: Seq<Agent>,
    after: Seq<Agent>,
    g0: Seq<ResourceKind>,
    g1: Seq<ResourceKind>,
    w: int,
    h: int,
    k: nat,
) -> bool {
    &&& g1 == fold_grid(before, g0, w, h, k)
    &&& forall|i: int|
        0 <= i < k ==> #[trigger] move_post(
            before[i],
            after[i],
            fold_grid(before, g0, w, h, i as nat),
            fold_grid(before, g0, w, h, (i + 1) as nat),
            h,
            agent_target(before[i], w, h) / h,
            agent_target(before[i], w, h) % h,
        )
}

/// Phase five of a tick: every agent, in order, heads for the most
/// favorable cell or consumes where it stands: the whole phase is the
/// index-order fold of the single-agent step.
pub fn move_phase(agents: &mut Vec<Agent>, grid: &mut Grid<ResourceKind>)
    requires
        old(grid).wf(),
        old(grid).spec_width() <= MAX_DIM,
        old(grid).spec_height() <= MAX_DIM,
        forall|i: int|
            0 <= i < old(agents)@.len() ==> (#[trigger] old(agents)@[i]).wf(
                old(grid).spec_width(),
                old(grid).spec_height(),
            ),
    ensures
        final(grid).wf(),
        final(grid).spec_width() == old(grid).spec_width(),
        final(grid).spec_height() == old(grid).spec_height(),
        final(agents)@.len() == old(agents)@.len(),
        forall|i: int|
            0 <= i < final(agents)@.len() ==> (#[trigger] final(agents)@[i]).wf(
                old(grid).spec_width(),
                old(grid).spec_height(),
            ),
        move_fold(
            old(agents)@,
            final(agents)@,
            old(grid)@,
            final(grid)@,
            old(grid).spec_width(),
            old(grid).spec_height(),
            old(agents)@.len() as nat,
        ),
{
    let ghost w = grid.spec_width();
    let ghost h = grid.spec_height();
    let ghost orig = agents@;
    let ghost g0 = grid@;
    let mut i: usize = 0;
    while i < agents.len()
        invariant
            i <= agents@.len(),
            agents@.len() == orig.len(),
            grid.wf(),
            grid.spec_width() == w,
            grid.spec_height() == h,
            w <= MAX_DIM,
            h <= MAX_DIM,
            forall|j: int| 0 <= j < agents@.len() ==> (#[trigger] agents@[j]).wf(w, h),
            forall|j: int| i <= j < orig.len() ==> agents@[j] == orig[j],
            move_fold(orig, agents@, g0, grid@, w, h, i as nat),
        decreases agents@.len() - i,
    {
        let target = agents[i].move_target();
        let ghost apre = agents@;
        let ghost gpre = grid@;
        let ghost fm = first_max_idx(spec_fav_seq(orig[i as int], w, h));
        proof {
            assert(apre[i as int] == orig[i as int]);
            assert(target.0 * h + target.1 == fm);
            assert(fm / h == target.0 && fm % h == target.1) by (nonlinear_arith)
                requires
                    fm == target.0 * h + target.1,
                    0 <= target.1 < h,
                    0 <= target.0,
            ;
        }
        let a = &mut agents[i];
        apply_move(a, grid, target.0, target.1);
        proof {
            assert(agents@[i as int].wf(w, h)) by {
                if target.0 == orig[i as int].x && target.1 == orig[i as int].y {
                    crate::prob::lemma_probable_is_distribution(ResourceKind::Empty, SCALE);
                }
            }
            assert(gpre == fold_grid(orig, g0, w, h, i as nat));
            assert(move_post(
                orig[i as int],
                agents@[i as int],
                gpre,
                grid@,
                h,
                fm / h,
                fm % h,
            ));
            assert(grid@ == step_grid(orig[i as int], gpre, h, fm / h, fm % h));
            assert(grid@ == fold_grid(orig, g0, w, h, (i + 1) as nat));
            assert forall|j: int| 0 <= j < i + 1 implies #[trigger] move_post(
                orig[j],
                agents@[j],
                fold_grid(orig, g0, w, h, j as nat),
                fold_grid(orig, g0, w, h, (j + 1) as nat),
                h,
                agent_target(orig[j], w, h) / h,
                agent_target(orig[j], w, h) % h,
            ) by {
                if j < i {
                    assert(agents@[j] == apre[j]);
                    assert(move_post(
                        orig[j],
                        apre[j],
                        fold_grid(orig, g0, w, h, j as nat),
                        fold_grid(orig, g0, w, h, (j + 1) as nat),
                        h,
                        agent_target(orig[j], w, h) / h,
                        agent_target(orig[j], w, h) % h,
                    ));
                } else {
                    assert(agent_target(orig[i as int], w, h) == fm);
                }
            }
        }
        i = i + 1;
    }
}

/// One gossip exchange between the agents at `i` and `j`: both beliefs are
/// computed from the two pre-exchange maps before either is written, so the
/// outcome does not depend on which side is processed first.
pub fn gossip_pair(agents: &mut Vec<Agent>, i: usize, j: usize)
    requires
        i < old(agents)@.len(),
        j < old(agents)@.len(),
        i != j,
        old(agents)@[i as int].belief.wf(),
        old(agents)@[j as int].belief.wf(),
        old(agents)@[i as int].belief.spec_width() == old(agents)@[j as int].belief.spec_width(),
        old(agents)@[i as int].belief.spec_height() == old(agents)@[
            j as int
        ].belief.spec_height(),
    ensures
        final(agents)@.len() == old(agents)@.len(),
        forall|k: int|
            0 <= k < old(agents)@.len() && k != i && k != j ==> final(agents)@[k] == old(
                agents,
            )@[k],
        final(agents)@[i as int].x == old(agents)@[i as int].x,
        final(agents)@[i as int].y == old(agents)@[i as int].y,
        final(agents)@[i as int].needs == old(agents)@[i as int].needs,
        final(agents)@[j as int].x == old(agents)@[j as int].x,
        final(agents)@[j as int].y == old(agents)@[j as int].y,
        final(agents)@[j as int].needs == old(agents)@[j as int].needs,
        final(agents)@[i as int].belief.wf(),
        final(agents)@[j as int].belief.wf(),
        final(agents)@[i as int].belief.spec_width() == old(agents)@[
            i as int
        ].belief.spec_width(),
        final(agents)@[i as int].belief.spec_height() == old(agents)@[
            i as int
        ].belief.spec_height(),
        final(agents)@[j as int].belief.spec_width() == old(agents)@[
            j as int
        ].belief.spec_width(),
        final(agents)@[j as int].belief.spec_height() == old(agents)@[
            j as int
        ].belief.spec_height(),
        final(agents)@[i as int].belief@ == spec_blend_map(
            old(agents)@[i as int].belief@,
            old(agents)@[j as int].belief@,
            HALF,
        ),
        final(agents)@[j as int].belief@ == spec_blend_map(
            old(agents)@[j as int].belief@,
            old(agents)@[i as int].belief@,
            HALF,
        ),
{
    let a_new = agents[i].belief.blended_towards(&agents[j].belief, HALF);
    let b_new = agents[j].belief.blended_towards(&agents[i].belief, HALF);
    let a = &mut agents[i];
    a.belief = a_new;
    let b = &mut agents[j];
    b.belief = b_new;
}


/// Pair `q` of the order exchanged beliefs: each side of the pair holds the
/// blend of the two pre-exchange maps, its own side first.
pub open spec fn pair_gossiped(
    before: Seq<Agent>,
    after: Seq<Agent>,
    order: Seq<usize>,
    q: int,
) -> bool {
    &&& after[order[2 * q] as int].belief@ == spec_blend_map(
        before[order[2 * q] as int].belief@,
        before[order[2 * q + 1] as int].belief@,
        HALF,
    )
    &&& after[order[2 * q + 1] as int].belief@ == spec_blend_map(
        before[order[2 * q + 1] as int].belief@,
        before[order[2 * q] as int].belief@,
        HALF,
    )
}

/// Agent `i` sits in one of the consecutive pairs of the order (an odd
/// order leaves its last entry out).
pub open spec fn is_gossip_paired(order: Seq<usize>, i: int) -> bool {
    exists|m: int| 0 <= m < 2 * (order.len() / 2) && (#[trigger] order[m]) as int == i
}

/// `after` is `before` after one gossip round along `order`: the order is a
/// permutation of the roster; consecutive pairs of it exchanged beliefs,
/// both sides computed from the pre-exchange maps at trust `HALF`; every
/// unpaired agent — the odd one out included — kept its belief; and no
/// position or needs changed anywhere.
pub open spec fn gossip_rel(before: Seq<Agent>, after: Seq<Agent>, order: Seq<usize>) -> bool {
    &&& order.len() == before.len()
    &&& order.no_duplicates()
    &&& forall|m: int| 0 <= m < order.len() ==> (#[trigger] order[m]) < before.len()
    &&& after.len() == before.len()
    &&& forall|i: int|
        0 <= i < after.len() ==> (#[trigger] after[i]).x == before[i].x && after[i].y
            == before[i].y && after[i].needs == before[i].needs
    &&& forall|q: int|
        0 <= q < before.len() / 2 ==> #[trigger] pair_gossiped(before, after, order, q)
    &&& forall|i: int|
        0 <= i < after.len() && !is_gossip_paired(order, i) ==> (#[trigger] after[i]).belief
            == before[i].belief
}

/// Phase six of a tick: agents are paired off in a random order and every
/// pair gossips, an odd agent out skipping the round. Positions and needs
/// are untouched; every belief stays well-formed; and some duplicate-free
/// order ties the new beliefs to the old ones pair by pair.
pub fn gossip_phase(agents: &mut Vec<Agent>, rng: &mut rand::rngs::StdRng, w: usize, h: usize)
    requires
        forall|i: int|
            0 <= i < old(agents)@.len() ==> (#[trigger] old(agents)@[i]).wf(w as int, h as int),
    ensures
        final(agents)@.len() == old(agents)@.len(),
        forall|i: int|
            0 <= i < final(agents)@.len() ==> (#[trigger] final(agents)@[i]).wf(
                w as int,
                h as int,
            ),
        forall|i: int|
            0 <= i < final(agents)@.len() ==> (#[trigger] final(agents)@[i]).x == old(
                agents,
            )@[i].x && final(agents)@[i].y == old(agents)@[i].y && final(agents)@[i].needs
                == old(agents)@[i].needs,
        exists|order: Seq<usize>| #[trigger] gossip_rel(old(agents)@, final(agents)@, order),
{
    let n = agents.len();
    let mut order: Vec<usize> = Vec::new();
    let mut k: usize = 0;
    while k < n
        invariant
            k <= n,
            order@.len() == k,
            forall|m: int| 0 <= m < k ==> #[trigger] order@[m] == m,
        decreases n - k,
    {
        order.push(k);
        k = k + 1;
    }
    proof {
        assert(order@.no_duplicates());
        order@.lemma_multiset_has_no_duplicates();
    }
    let ghost before_shuffle = order@;
    shuffle_indices(rng, &mut order);
    proof {
        broadcast use vstd::seq_lib::group_to_multiset_ensures;

        assert forall|m: int| 0 <= m < order@.len() implies #[trigger] order@[m] < n by {
            assert(order@.contains(order@[m]));
            assert(order@.to_multiset().count(order@[m]) > 0);
            assert(before_shuffle.to_multiset().count(order@[m]) > 0);
            assert(before_shuffle.contains(order@[m]));
        }
        assert forall|x: usize| order@.to_multiset().contains(x) implies order@.to_multiset()
            .count(x) == 1 by {
            assert(before_shuffle.to_multiset().count(x) == 1);
        }
        order@.lemma_multiset_has_no_duplicates_conv();
    }
    let ghost orig = agents@;
    let mut p: usize = 0;
    while n >= 2 && p <= n - 2
        invariant
            p <= n,
            p % 2 == 0,
            n == orig.len(),
            order@.len() == n,
            order@.no_duplicates(),
            forall|m: int| 0 <= m < n ==> #[trigger] order@[m] < n,
            agents@.len() == n,
            forall|i: int| 0 <= i < n ==> (#[trigger] agents@[i]).wf(w as int, h as int),
            forall|i: int|
                0 <= i < n ==> (#[trigger] agents@[i]).x == orig[i].x && agents@[i].y
                    == orig[i].y && agents@[i].needs == orig[i].needs,
            forall|q: int|
                0 <= q < (p as int) / 2 ==> #[trigger] pair_gossiped(orig, agents@, order@, q),
            forall|m: int|
                p <= m < n ==> (#[trigger] agents@[order@[m] as int]).belief == orig[order@[
                    m
                ] as int].belief,
        decreases n - p,
    {
        let i1 = order[p];
        let i2 = order[p + 1];
        proof {
            assert(order@[p as int] != order@[p + 1]);
        }
        let ghost pre = agents@;
        gossip_pair(agents, i1, i2);
        proof {
            let q0 = (p as int) / 2;
            assert(2 * q0 == p && 2 * q0 + 1 == p + 1) by (nonlinear_arith)
                requires q0 == (p as int) / 2, p % 2 == 0, p >= 0;
            assert(pre[i1 as int].belief == orig[i1 as int].belief);
            assert(pre[i2 as int].belief == orig[i2 as int].belief);
            assert(pair_gossiped(orig, agents@, order@, q0));
            assert forall|q: int| 0 <= q < q0 + 1 implies #[trigger] pair_gossiped(
                orig,
                agents@,
                order@,
                q,
            ) by {
                if q < q0 {
                    assert(2 * q < p && 2 * q + 1 < p);
                    assert(order@[2 * q] != order@[p as int] && order@[2 * q] != order@[p + 1]);
                    assert(order@[2 * q + 1] != order@[p as int] && order@[2 * q + 1]
                        != order@[p + 1]);
                    assert(agents@[order@[2 * q] as int] == pre[order@[2 * q] as int]);
                    assert(agents@[order@[2 * q + 1] as int] == pre[order@[2 * q + 1] as int]);
                    assert(pair_gossiped(orig, pre, order@, q));
                }
            }
            assert forall|m: int| p + 2 <= m < n implies (#[trigger] agents@[order@[
                m
            ] as int]).belief == orig[order@[m] as int].belief by {
                assert(order@[m] != order@[p as int] && order@[m] != order@[p + 1]);
                assert(agents@[order@[m] as int] == pre[order@[m] as int]);
            }
            assert(((p + 2) as int) / 2 == q0 + 1) by (nonlinear_arith)
                requires q0 == (p as int) / 2, p % 2 == 0, p >= 0;
        }
        p = p + 2;
    }
    proof {
        broadcast use vstd::seq_lib::group_to_multiset_ensures;

        assert(p == 2 * ((n as int) / 2)) by (nonlinear_arith)
            requires
                p % 2 == 0,
                0 <= p <= n,
                n < 2 ==> p == 0,
                n >= 2 ==> p > n - 2,
        ;
        assert forall|i: int| 0 <= i < n && !is_gossip_paired(order@, i) implies (
        #[trigger] agents@[i]).belief == orig[i].belief by {
            assert(before_shuffle[i] == i as usize);
            assert(before_shuffle.contains(i as usize));
            assert(before_shuffle.to_multiset().count(i as usize) > 0);
            assert(order@.to_multiset().count(i as usize) > 0);
            assert(order@.contains(i as usize));
            let m = choose|m: int| 0 <= m < order@.len() && order@[m] == i as usize;
            assert(m >= 2 * (order@.len() / 2));
            assert(agents@[order@[m] as int].belief == orig[order@[m] as int].belief);
        }
        assert(gossip_rel(orig, agents@, order@));
    }
}

/// The needs phase never grows the roster.
pub proof fn lemma_bumped_live_len(s: Seq<Agent>)
    ensures
        bumped_live(s).len() <= s.len(),
    decreases s.len(),
{
    if s.len() > 0 {
        lemma_bumped_live_len(s.drop_last());
    }
}

/// The whole world: ground truth, biome layout, the live agents, a selection
/// index for analytics, and the seeded random source.
pub struct Simulation {
    pub grid: Grid<ResourceKind>,
    pub biomes: BiomeField,
    pub agents: Vec<Agent>,
    pub selected: usize,
    pub rng: rand::rngs::StdRng,
}

/// The six phases of one tick, chained through the intermediate states:
/// `drift` is the ground truth after the stochastic drift (its contents
/// decided by chance, its shape fixed), `r3` to `r5` the rosters after
/// decay, perception and movement, and `order` the random gossip pairing.
/// The roster after the cull is pinned exactly as `bumped_live` of the old
/// roster, so the survivors are the bumped old agents, in order, and no
/// agent is ever re-spawned.
pub open spec fn phases_chain(
    s0: Simulation,
    s1: Simulation,
    drift: Grid<ResourceKind>,
    r3: Seq<Agent>,
    r4: Seq<Agent>,
    r5: Seq<Agent>,
    order: Seq<usize>,
) -> bool {
    &&& drift.wf()
    &&& drift.spec_width() == s0.spec_width()
    &&& drift.spec_height() == s0.spec_height()
    &&& decay_rel(bumped_live(s0.agents@), r3)
    &&& perceive_rel(r3, r4, drift)
    &&& move_fold(r4, r5, drift@, s1.grid@, s0.spec_width(), s0.spec_height(), r4.len())
    &&& gossip_rel(r5, s1.agents@, order)
}

impl Simulation {
    pub open spec fn spec_width(self) -> int {
        self.grid.spec_width()
    }

    pub open spec fn spec_height(self) -> int {
        self.grid.spec_height()
    }

    pub open spec fn wf(self) -> bool {
        &&& self.grid.wf()
        &&& 1 <= self.spec_width() <= MAX_DIM
        &&& 1 <= self.spec_height() <= MAX_DIM
        &&& self.biomes.wf()
        &&& forall|i: int|
            0 <= i < self.agents@.len() ==> (#[trigger] self.agents@[i]).wf(
                self.spec_width(),
                self.spec_height(),
            )
    }

    /// Build a world from a seed: valid dimensions and counts give a
    /// generated simulation, anything else the matching error.
    pub fn new(
        seed: u64,
        width: usize,
        height: usize,
        num_biomes: usize,
        num_agents: usize,
    ) -> (r: Result<Simulation, ConfigError>)
        ensures
            (r is Ok) <==> (1 <= width <= MAX_DIM && 1 <= height <= MAX_DIM && num_agents >= 1
                && num_biomes >= 1),
            !(1 <= width <= MAX_DIM && 1 <= height <= MAX_DIM) ==> r == Result::<
                Simulation,
                ConfigError,
            >::Err(ConfigError::InvalidDimensions),
            (1 <= width <= MAX_DIM && 1 <= height <= MAX_DIM && num_agents == 0) ==> r
                == Result::<Simulation, ConfigError>::Err(ConfigError::NoAgents),
            (1 <= width <= MAX_DIM && 1 <= height <= MAX_DIM && num_agents >= 1 && num_biomes
                == 0) ==> r == Result::<Simulation, ConfigError>::Err(ConfigError::NoBiomes),
            r matches Ok(s) ==> s.wf() && s.spec_width() == width && s.spec_height() == height
                && s.agents@.len() == num_agents && s.selected == 0,
            r matches Ok(s) ==> forall|i: int|
                0 <= i < s.agents@.len() ==> (#[trigger] s.agents@[i]).needs == (Needs {
                    hunger: 0,
                    thirst: 0,
                }),
    {
        if width == 0 || width > MAX_DIM || height == 0 || height > MAX_DIM {
            return Err(ConfigError::InvalidDimensions);
        }
        if num_agents == 0 {
            return Err(ConfigError::NoAgents);
        }
        if num_biomes == 0 {
            return Err(ConfigError::NoBiomes);
        }
        let mut rng = rng_from_seed(seed);
        let biomes = BiomeField::generate(&mut rng, width, height, num_biomes);
        let grid = generate_resources(&mut rng, &biomes, width, height);
        let mut agents: Vec<Agent> = Vec::new();
        let mut i: usize = 0;
        while i < num_agents
            invariant
                i <= num_agents,
                1 <= width <= MAX_DIM,
                1 <= height <= MAX_DIM,
                agents@.len() == i,
                forall|j: int|
                    0 <= j < i ==> (#[trigger] agents@[j]).wf(width as int, height as int),
                forall|j: int|
                    0 <= j < i ==> (#[trigger] agents@[j]).needs == (Needs {
                        hunger: 0,
                        thirst: 0,
                    }),
            decreases num_agents - i,
        {
            let x = rand_below(&mut rng, width as u64) as usize;
            let y = rand_below(&mut rng, height as u64) as usize;
            let belief = BeliefMap::generate(&mut rng, width, height);
            let a = Agent { x, y, needs: Needs { hunger: 0, thirst: 0 }, belief };
            agents.push(a);
            i = i + 1;
        }
        Ok(Simulation { grid, biomes, agents, selected: 0, rng })
    }

    /// One full tick, its six phases in strict order: resource drift, needs
    /// and starvation cull, belief decay, perception, movement and
    /// consumption, gossip. The phase chain ties the final state to the old
    /// one through the intermediate rosters: starved agents are gone before
    /// the later phases run, the survivors are the bumped old agents in
    /// order, and agents never reappear.
    pub fn tick(&mut self)
        requires
            old(self).wf(),
        ensures
            final(self).wf(),
            final(self).spec_width() == old(self).spec_width(),
            final(self).spec_height() == old(self).spec_height(),
            final(self).agents@.len() == bumped_live(old(self).agents@).len(),
            final(self).agents@.len() <= old(self).agents@.len(),
            final(self).selected == old(self).selected,
            final(self).biomes == old(self).biomes,
            forall|i: int|
                0 <= i < final(self).agents@.len() ==> (#[trigger] final(self).agents@[i]).wf(
                    old(self).spec_width(),
                    old(self).spec_height(),
                ),
            exists|drift: Grid<ResourceKind>, r3: Seq<Agent>, r4: Seq<Agent>, r5: Seq<
                Agent,
            >, order: Seq<usize>|
                #[trigger] phases_chain(*old(self), *final(self), drift, r3, r4, r5, order),
    {
        let ghost w = self.grid.spec_width();
        let ghost h = self.grid.spec_height();
        // Phase 1: stochastic resource drift.
        resources_tick(&mut self.rng, &self.biomes, &mut self.grid);
        let ghost drift = self.grid;
        // Phase 2: needs grow; the starved are culled.
        proof {
            assert forall|i: int|
                0 <= i < self.agents@.len() implies (#[trigger] self.agents@[i]).needs.hunger
                < u16::MAX && self.agents@[i].needs.thirst < u16::MAX by {
                assert(self.agents@[i].wf(w, h));
            }
            lemma_bumped_live_len(self.agents@);
        }
        needs_phase(&mut self.agents);
        proof {
            assert forall|i: int|
                0 <= i < self.agents@.len() implies (#[trigger] self.agents@[i]).wf(w, h) by {
                let j = choose|j: int|
                    0 <= j < old(self).agents@.len() && self.agents@[i] == bump_spec(
                        old(self).agents@[j],
                    );
                assert(old(self).agents@[j].wf(w, h));
            }
        }
        // Phase 3: beliefs decay toward uniform.
        proof {
            crate::prob::lemma_uniform_is_distribution();
        }
        let ghost pre_decay = self.agents@;
        decay_phase(&mut self.agents);
        proof {
            assert forall|i: int|
                0 <= i < self.agents@.len() implies (#[trigger] self.agents@[i]).wf(w, h) by {
                assert(pre_decay[i].wf(w, h));
            }
        }
        // Phase 4: perception of the local window.
        let ghost pre_perceive = self.agents@;
        proof {
            assert(self.grid == drift);
        }
        perceive_phase(&mut self.agents, &self.grid);
        proof {
            assert forall|i: int|
                0 <= i < self.agents@.len() implies (#[trigger] self.agents@[i]).wf(w, h) by {
                assert(pre_perceive[i].wf(w, h));
            }
        }
        // Phase 5: movement and consumption.
        let ghost pre_move = self.agents@;
        move_phase(&mut self.agents, &mut self.grid);
        // Phase 6: gossip between random pairs.
        let ghost pre_gossip = self.agents@;
        let width = self.grid.width();
        let height = self.grid.height();
        gossip_phase(&mut self.agents, &mut self.rng, width, height);
        proof {
            let ord = choose|o: Seq<usize>| gossip_rel(pre_gossip, self.agents@, o);
            assert(phases_chain(
                *old(self),
                *self,
                drift,
                pre_perceive,
                pre_move,
                pre_gossip,
                ord,
            ));
        }
    }

    /// Move the selection to the previous agent, wrapping at the front; with
    /// no agents the selection stays put.
    pub fn select_prev(&mut self)
        ensures
            final(self).grid == old(self).grid,
            final(self).agents == old(self).agents,
            final(self).selected == (if old(self).agents@.len() == 0 {
                old(self).selected as int
            } else if old(self).selected == 0 {
                old(self).agents@.len() - 1
            } else {
                old(self).selected - 1
            }),
    {
        if self.agents.len() == 0 {
            return ;
        }
        if self.selected == 0 {
            self.selected = self.agents.len() - 1;
        } else {
            self.selected = self.selected - 1;
        }
    }

    /// Move the selection to the next agent, wrapping past the end; with no
    /// agents the selection stays put.
    pub fn select_next(&mut self)
        ensures
            final(self).grid == old(self).grid,
            final(self).agents == old(self).agents,
            final(self).selected == (if old(self).agents@.len() == 0 {
                old(self).selected as int
            } else if old(self).selected + 1 >= old(self).agents@.len() {
                0int
            } else {
                old(self).selected + 1
            }),
    {
        if self.agents.len() == 0 {
            return ;
        }
        if self.selected >= self.agents.len() - 1 {
            self.selected = 0;
        } else {
            self.selected = self.selected + 1;
        }
    }
}

} // verus!

