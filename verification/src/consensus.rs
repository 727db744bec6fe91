//! Read-only analytics: the population's plurality vote per cell, and error
//! grids against the ground truth.

use vstd::prelude::*;

use crate::agent::Agent;
use crate::grid::Grid;
use crate::grid::lemma_flat_in_range;
use crate::grid::lemma_flat_index;
use crate::kind::KIND_COUNT;
use crate::kind::ResourceKind;
use crate::kind::lemma_kind_index_bijective;
use crate::order::first_max_idx;
use crate::order::first_max_index_u64;
use crate::order::ints_of_u64;
use crate::order::is_first_max;
use crate::order::lemma_first_max_idx_is_first_max;
use crate::order::lemma_first_max_unique;

verus! {

/// Slot index of the kind an agent finds most probable at `(x, y)`.
pub open spec fn cell_plurality(a: Agent, x: int, y: int) -> int {
    first_max_idx(ints_of_u64(a.belief.cell(x, y)))
}

/// How many of the agents find slot `k` most probable at `(x, y)`.
pub open spec fn vote_count(agents: Seq<Agent>, x: int, y: int, k: int) -> int
    decreases agents.len(),
{
    if agents.len() == 0 {
        0
    } else {
        vote_count(agents.drop_last(), x, y, k) + if cell_plurality(agents.last(), x, y) == k {
            1int
        } else {
            0int
        }
    }
}

/// The tally at `(x, y)`, one count per kind slot.
pub open spec fn votes_seq(agents: Seq<Agent>, x: int, y: int) -> Seq<int> {
    Seq::new(KIND_COUNT as nat, |k: int| vote_count(agents, x, y, k))
}

/// The population's view of cell `(x, y)`: the kind with the most plurality
/// votes, the lowest-indexed kind winning ties.
pub open spec fn spec_collective_cell(agents: Seq<Agent>, x: int, y: int) -> ResourceKind {
    ResourceKind::from_index_spec(first_max_idx(votes_seq(agents, x, y)))
}

/// The mode of the agents' plurality votes at `(x, y)`.
pub fn collective_cell(agents: &Vec<Agent>, w: usize, h: usize, x: usize, y: usize) -> (r:
    ResourceKind)
    requires
        agents@.len() >= 1,
        forall|i: int|
            0 <= i < agents@.len() ==> (#[trigger] agents@[i]).wf(w as int, h as int),
        x < w,
        y < h,
    ensures
        r == spec_collective_cell(agents@, x as int, y as int),
{
    let ghost vs = votes_seq(agents@, x as int, y as int);
    let mut votes: Vec<u64> = Vec::new();
    let mut k: usize = 0;
    while k < KIND_COUNT
        invariant
            k <= KIND_COUNT,
            votes@.len() == k,
            forall|m: int| 0 <= m < k ==> votes@[m] == 0,
        decreases KIND_COUNT - k,
    {
        votes.push(0);
        k = k + 1;
    }
    let mut i: usize = 0;
    while i < agents.len()
        invariant
            i <= agents@.len(),
            agents@.len() >= 1,
            forall|j: int|
                0 <= j < agents@.len() ==> (#[trigger] agents@[j]).wf(w as int, h as int),
            x < w,
            y < h,
            votes@.len() == KIND_COUNT,
            forall|m: int|
                0 <= m < KIND_COUNT ==> #[trigger] votes@[m] == vote_count(
                    agents@.take(i as int),
                    x as int,
                    y as int,
                    m,
                ),
            forall|m: int| 0 <= m < KIND_COUNT ==> #[trigger] votes@[m] <= i,
        decreases agents@.len() - i,
    {
        let a = &agents[i];
        proof {
            lemma_flat_in_range(x as int, y as int, w as int, h as int);
        }
        let p = a.belief.at(x, y).plurality();
        let ghost fm = first_max_idx(ints_of_u64(a.belief.cell(x as int, y as int)));
        proof {
            lemma_first_max_idx_is_first_max(ints_of_u64(a.belief.cell(x as int, y as int)));
            lemma_kind_index_bijective(p, fm);
        }
        let slot = p.index();
        let count = votes[slot];
        votes.set(slot, count + 1);
        proof {
            assert(agents@.take(i + 1).drop_last() =~= agents@.take(i as int));
            assert(agents@.take(i + 1).last() == agents@[i as int]);
            assert forall|m: int| 0 <= m < KIND_COUNT implies #[trigger] votes@[m]
                == vote_count(agents@.take(i + 1), x as int, y as int, m) by {
                assert(cell_plurality(agents@[i as int], x as int, y as int)
                    == p.index_spec());
            }
        }
        i = i + 1;
    }
    proof {
        assert(agents@.take(agents@.len() as int) =~= agents@);
        assert(ints_of_u64(votes@) =~= vs);
        lemma_first_max_idx_is_first_max(vs);
    }
    let best = first_max_index_u64(&votes);
    ResourceKind::from_index(best)
}

/// The collective plurality map, or nothing when there are no agents.
pub fn collective_view(agents: &Vec<Agent>, w: usize, h: usize) -> (r: Option<
    Grid<ResourceKind>,
>)
    requires
        1 <= w,
        1 <= h,
        w * h <= usize::MAX,
        forall|i: int|
            0 <= i < agents@.len() ==> (#[trigger] agents@[i]).wf(w as int, h as int),
    ensures
        (r is Some) <==> agents@.len() >= 1,
        r matches Some(g) ==> g.wf() && g.spec_width() == w && g.spec_height() == h
            && forall|x: int, y: int|
            g.in_bounds(x, y) ==> #[trigger] g.cell(x, y) == spec_collective_cell(agents@, x, y),
{
    if agents.len() == 0 {
        return None;
    }
    let mut cells: Vec<ResourceKind> = Vec::new();
    let mut x: usize = 0;
    while x < w
        invariant
            x <= w,
            1 <= w,
            1 <= h,
            agents@.len() >= 1,
            forall|i: int|
                0 <= i < agents@.len() ==> (#[trigger] agents@[i]).wf(w as int, h as int),
            cells@.len() == x * h,
            forall|a: int, b: int|
                0 <= a < x && 0 <= b < h ==> #[trigger] cells@[a * h + b]
                    == spec_collective_cell(agents@, a, b),
        decreases w - x,
    {
        let mut y: usize = 0;
        while y < h
            invariant
                x < w,
                y <= h,
                1 <= w,
                1 <= h,
                agents@.len() >= 1,
                forall|i: int|
                    0 <= i < agents@.len() ==> (#[trigger] agents@[i]).wf(w as int, h as int),
                cells@.len() == x * h + y,
                forall|a: int, b: int|
                    0 <= a < x && 0 <= b < h ==> #[trigger] cells@[a * h + b]
                        == spec_collective_cell(agents@, a, b),
                forall|b: int|
                    0 <= b < y ==> #[trigger] cells@[x as int * h + b] == spec_collective_cell(
                        agents@,
                        x as int,
                        b,
                    ),
            decreases h - y,
        {
            let c = collective_cell(agents, w, h, x, y);
            cells.push(c);
            proof {
                lemma_flat_index(x as int, y as int, h as int);
                assert forall|a: int, b: int| 0 <= a < x && 0 <= b < h implies #[trigger] cells@[a
                    * h + b] == spec_collective_cell(agents@, a, b) by {
                    lemma_flat_in_range(a, b, x as int, h as int);
                }
            }
            y = y + 1;
        }
        proof {
            assert(x as int * h + h == (x + 1) * h) by (nonlinear_arith);
            assert forall|a: int, b: int| 0 <= a < x + 1 && 0 <= b < h implies #[trigger] cells@[a
                * h + b] == spec_collective_cell(agents@, a, b) by {
                if a == x as int {
                    assert(cells@[x as int * h + b] == cells@[a * h + b]);
                }
            }
        }
        x = x + 1;
    }
    Some(Grid::from_vec(w, h, cells))
}

/// Cell-wise disagreement of a view with the ground truth.
pub fn error_grid(view: &Grid<ResourceKind>, truth: &Grid<ResourceKind>) -> (r: Grid<bool>)
    requires
        view.wf(),
        truth.wf(),
        view.spec_width() == truth.spec_width(),
        view.spec_height() == truth.spec_height(),
    ensures
        r.wf(),
        r.spec_width() == truth.spec_width(),
        r.spec_height() == truth.spec_height(),
        forall|x: int, y: int|
            r.in_bounds(x, y) ==> #[trigger] r.cell(x, y) == (view.cell(x, y) != truth.cell(
                x,
                y,
            )),
{
    let w = truth.width();
    let h = truth.height();
    let mut cells: Vec<bool> = Vec::new();
    let mut x: usize = 0;
    while x < w
        invariant
            x <= w,
            view.wf(),
            truth.wf(),
            w == truth.spec_width(),
            h == truth.spec_height(),
            view.spec_width() == w,
            view.spec_height() == h,
            cells@.len() == x * h,
            forall|a: int, b: int|
                0 <= a < x && 0 <= b < h ==> #[trigger] cells@[a * h + b] == (view.cell(a, b)
                    != truth.cell(a, b)),
        decreases w - x,
    {
        let mut y: usize = 0;
        while y < h
            invariant
                x < w,
                y <= h,
                view.wf(),
                truth.wf(),
                w == truth.spec_width(),
                h == truth.spec_height(),
                view.spec_width() == w,
                view.spec_height() == h,
                cells@.len() == x * h + y,
                forall|a: int, b: int|
                    0 <= a < x && 0 <= b < h ==> #[trigger] cells@[a * h + b] == (view.cell(a, b)
                        != truth.cell(a, b)),
                forall|b: int|
                    0 <= b < y ==> #[trigger] cells@[x as int * h + b] == (view.cell(x as int, b)
                        != truth.cell(x as int, b)),
            decreases h - y,
        {
            let differs = *view.get(x, y) != *truth.get(x, y);
            cells.push(differs);
            proof {
                lemma_flat_index(x as int, y as int, h as int);
                assert forall|a: int, b: int| 0 <= a < x && 0 <= b < h implies #[trigger] cells@[a
                    * h + b] == (view.cell(a, b) != truth.cell(a, b)) by {
                    lemma_flat_in_range(a, b, x as int, h as int);
                }
            }
            y = y + 1;
        }
        proof {
            assert(x as int * h + h == (x + 1) * h) by (nonlinear_arith);
            assert forall|a: int, b: int| 0 <= a < x + 1 && 0 <= b < h implies #[trigger] cells@[a
                * h + b] == (view.cell(a, b) != truth.cell(a, b)) by {
                if a == x as int {
                    assert(cells@[x as int * h + b] == cells@[a * h + b]);
                }
            }
        }
        x = x + 1;
    }
    proof {
        lemma_flat_in_range(0, 0, w as int, h as int);
    }
    Grid::from_vec(w, h, cells)
}

/// One agent's per-cell plurality map.
pub fn plurality_view(a: &Agent, w: usize, h: usize) -> (r: Grid<ResourceKind>)
    requires
        a.wf(w as int, h as int),
        1 <= w,
        1 <= h,
    ensures
        r.wf(),
        r.spec_width() == w,
        r.spec_height() == h,
        forall|x: int, y: int|
            r.in_bounds(x, y) ==> #[trigger] r.cell(x, y) == ResourceKind::from_index_spec(
                cell_plurality(*a, x, y),
            ),
{
    let mut cells: Vec<ResourceKind> = Vec::new();
    let mut x: usize = 0;
    while x < w
        invariant
            x <= w,
            1 <= w,
            1 <= h,
            a.wf(w as int, h as int),
            cells@.len() == x * h,
            forall|p: int, q: int|
                0 <= p < x && 0 <= q < h ==> #[trigger] cells@[p * h + q]
                    == ResourceKind::from_index_spec(cell_plurality(*a, p, q)),
        decreases w - x,
    {
        let mut y: usize = 0;
        while y < h
            invariant
                x < w,
                y <= h,
                1 <= w,
                1 <= h,
                a.wf(w as int, h as int),
                cells@.len() == x * h + y,
                forall|p: int, q: int|
                    0 <= p < x && 0 <= q < h ==> #[trigger] cells@[p * h + q]
                        == ResourceKind::from_index_spec(cell_plurality(*a, p, q)),
                forall|q: int|
                    0 <= q < y ==> #[trigger] cells@[x as int * h + q]
                        == ResourceKind::from_index_spec(cell_plurality(*a, x as int, q)),
            decreases h - y,
        {
            proof {
                lemma_flat_in_range(x as int, y as int, w as int, h as int);
            }
            let p = a.belief.at(x, y).plurality();
            cells.push(p);
            proof {
                lemma_flat_index(x as int, y as int, h as int);
                assert forall|col: int, q: int| 0 <= col < x && 0 <= q < h implies #[trigger] cells@[
                    col * h + q] == ResourceKind::from_index_spec(cell_plurality(*a, col, q)) by {
                    lemma_flat_in_range(col, q, x as int, h as int);
                }
            }
            y = y + 1;
        }
        proof {
            assert(x as int * h + h == (x + 1) * h) by (nonlinear_arith);
            assert forall|col: int, q: int| 0 <= col < x + 1 && 0 <= q < h implies #[trigger] cells@[
                col * h + q] == ResourceKind::from_index_spec(cell_plurality(*a, col, q)) by {
                if col == x as int {
                    assert(cells@[x as int * h + q] == cells@[col * h + q]);
                }
            }
        }
        x = x + 1;
    }
    Grid::from_vec(w, h, cells)
}

/// With identical belief maps the collective view at a cell is exactly any
/// single agent's plurality there.
pub proof fn lemma_collective_of_identical(agents: Seq<Agent>, x: int, y: int, w: int, h: int)
    requires
        agents.len() >= 1,
        forall|i: int| 0 <= i < agents.len() ==> (#[trigger] agents[i]).wf(w, h),
        forall|i: int| 0 <= i < agents.len() ==> (#[trigger] agents[i]).belief@ == agents[0].belief@,
        forall|i: int|
            0 <= i < agents.len() ==> (#[trigger] agents[i]).belief.spec_height() == h,
        0 <= x < w,
        0 <= y < h,
    ensures
        spec_collective_cell(agents, x, y) == ResourceKind::from_index_spec(
            cell_plurality(agents[0], x, y),
        ),
{
    let lead = cell_plurality(agents[0], x, y);
    lemma_flat_in_range(x, y, w, h);
    lemma_first_max_idx_is_first_max(ints_of_u64(agents[0].belief.cell(x, y)));
    assert(0 <= lead < KIND_COUNT);
    lemma_identical_votes(agents, x, y, lead);
    let vs = votes_seq(agents, x, y);
    assert(vs[lead] == agents.len());
    assert forall|k: int| 0 <= k < KIND_COUNT && k != lead implies vs[k] == 0 by {
        lemma_identical_votes(agents, x, y, k);
    }
    assert(is_first_max(vs, lead));
    lemma_first_max_idx_is_first_max(vs);
    lemma_first_max_unique(vs, lead, first_max_idx(vs));
}

/// With identical belief maps every agent casts the same vote.
proof fn lemma_identical_votes(agents: Seq<Agent>, x: int, y: int, k: int)
    requires
        forall|i: int| 0 <= i < agents.len() ==> (#[trigger] agents[i]).belief@ == agents[0].belief@,
        forall|i: int|
            0 <= i < agents.len() ==> (#[trigger] agents[i]).belief.spec_height()
                == agents[0].belief.spec_height(),
    ensures
        vote_count(agents, x, y, k) == if agents.len() >= 1 && cell_plurality(agents[0], x, y)
            == k {
            agents.len() as int
        } else {
            0
        },
    decreases agents.len(),
{
    if agents.len() > 0 {
        let pre = agents.drop_last();
        assert forall|i: int| 0 <= i < pre.len() implies (#[trigger] pre[i]).belief@ == pre[0].belief@
            && pre[i].belief.spec_height() == pre[0].belief.spec_height() by {
            assert(pre[i] == agents[i]);
        }
        lemma_identical_votes(pre, x, y, k);
        assert(agents.last().belief@ == agents[0].belief@);
        assert(cell_plurality(agents.last(), x, y) == cell_plurality(agents[0], x, y));
        if pre.len() > 0 {
            assert(pre[0] == agents[0]);
            assert(cell_plurality(pre[0], x, y) == cell_plurality(agents[0], x, y));
        }
    }
}

} // verus!
