//! An agent: a position, hunger and thirst counters, and a belief map. The
//! movement policy scores every cell by need-weighted belief mass, spreads
//! the score by a convolution, discounts it by distance, and heads for the
//! best cell.

use vstd::prelude::*;

use crate::belief::BeliefMap;
use crate::belief::pos_dsq;
use crate::dist::MAX_DIM;
use crate::dist::discount;
use crate::dist::spec_discount;
use crate::grid::ArrayPaddingKind;
use crate::grid::Grid;
use crate::grid::lemma_flat_in_range;
use crate::kind::ResourceKind;
use crate::order::first_max_idx;
use crate::order::first_max_index_i64;
use crate::order::ints_of_i64;
use crate::order::is_first_max;
use crate::prob::ProbabilityVector;
use crate::prob::SCALE;
use crate::prob::is_distribution;
use crate::prob::lemma_distribution_entry_bound;
use crate::prob::lemma_sum5;

verus! {

/// Ticks of hunger an agent survives.
pub const MAX_HUNGER: u16 = 100;

/// Ticks of thirst an agent survives.
pub const MAX_THIRST: u16 = 100;

/// Hunger relieved by (and required to) consume one food cell.
pub const HUNGER_PER_FOOD: u16 = 1;

/// Thirst relieved by (and required to) consume one water cell.
pub const THIRST_PER_WATER: u16 = 1;

/// Hunger and thirst counters, bounded by the survival maxima.
#[derive(Clone, Copy, PartialEq, Eq, Structural, Debug)]
pub struct Needs {
    pub hunger: u16,
    pub thirst: u16,
}

impl Needs {
    /// The agent survives while both needs stay below their maxima.
    pub open spec fn met_spec(self) -> bool {
        self.hunger < MAX_HUNGER && self.thirst < MAX_THIRST
    }

    pub fn met(&self) -> (r: bool)
        ensures
            r == self.met_spec(),
    {
        self.hunger < MAX_HUNGER && self.thirst < MAX_THIRST
    }
}

/// One mobile agent.
pub struct Agent {
    pub x: usize,
    pub y: usize,
    pub needs: Needs,
    pub belief: BeliefMap,
}

impl Agent {
    /// A live agent of a `w` by `h` world: in bounds, needs met, belief map
    /// of the world's dimensions.
    pub open spec fn wf(self, w: int, h: int) -> bool {
        &&& 0 <= self.x < w
        &&& 0 <= self.y < h
        &&& self.needs.met_spec()
        &&& self.belief.wf()
        &&& self.belief.spec_width() == w
        &&& self.belief.spec_height() == h
    }
}

/// Need-weighted fraction: `hunger / MAX_HUNGER` in fixed point.
pub open spec fn spec_hunger_pct(hunger: u16) -> int {
    (hunger as int) * (SCALE as int) / (MAX_HUNGER as int)
}

/// Need-weighted fraction: `thirst / MAX_THIRST` in fixed point.
pub open spec fn spec_thirst_pct(thirst: u16) -> int {
    (thirst as int) * (SCALE as int) / (MAX_THIRST as int)
}

/// Raw favorability of one belief cell: food mass weighted by hunger plus
/// water mass weighted by thirst, minus the full specter mass.
pub open spec fn spec_base_score(cell: Seq<u64>, needs: Needs) -> int {
    ((cell[1] as int) * spec_hunger_pct(needs.hunger) + (cell[2] as int) * spec_thirst_pct(
        needs.thirst,
    )) / (SCALE as int) - cell[4]
}

pub proof fn lemma_base_score_bounds(cell: Seq<u64>, needs: Needs)
    requires
        is_distribution(cell),
        needs.hunger <= MAX_HUNGER,
        needs.thirst <= MAX_THIRST,
    ensures
        -(SCALE as int) <= spec_base_score(cell, needs) <= SCALE,
        0 <= spec_hunger_pct(needs.hunger) <= SCALE,
        0 <= spec_thirst_pct(needs.thirst) <= SCALE,
{
    let hp = spec_hunger_pct(needs.hunger);
    let tp = spec_thirst_pct(needs.thirst);
    assert(0 <= hp <= SCALE) by (nonlinear_arith)
        requires
            hp == (needs.hunger as int) * (SCALE as int) / (MAX_HUNGER as int),
            0 <= needs.hunger <= MAX_HUNGER,
            MAX_HUNGER >= 1,
    ;
    assert(0 <= tp <= SCALE) by (nonlinear_arith)
        requires
            tp == (needs.thirst as int) * (SCALE as int) / (MAX_THIRST as int),
            0 <= needs.thirst <= MAX_THIRST,
            MAX_THIRST >= 1,
    ;
    lemma_sum5(cell);
    lemma_distribution_entry_bound(cell, 4);
    let num = (cell[1] as int) * hp + (cell[2] as int) * tp;
    assert(0 <= num <= (SCALE as int) * (SCALE as int)) by (nonlinear_arith)
        requires
            num == (cell[1] as int) * hp + (cell[2] as int) * tp,
            0 <= hp <= SCALE,
            0 <= tp <= SCALE,
            cell[1] >= 0,
            cell[2] >= 0,
            cell[1] + cell[2] <= SCALE,
    ;
    assert(0 <= num / (SCALE as int) <= SCALE) by (nonlinear_arith)
        requires 0 <= num <= (SCALE as int) * (SCALE as int);
}

/// Raw favorability of one belief cell, executable.
pub fn base_score(p: &ProbabilityVector, needs: Needs) -> (r: i64)
    requires
        p.wf(),
        needs.hunger <= MAX_HUNGER,
        needs.thirst <= MAX_THIRST,
    ensures
        r as int == spec_base_score(p@, needs),
        -(SCALE as int) <= r as int <= SCALE,
{
    proof {
        lemma_base_score_bounds(p@, needs);
        lemma_sum5(p@);
    }
    let hp: u64 = (needs.hunger as u64) * SCALE / (MAX_HUNGER as u64);
    let tp: u64 = (needs.thirst as u64) * SCALE / (MAX_THIRST as u64);
    let food = p.get(ResourceKind::Food);
    let water = p.get(ResourceKind::Water);
    let specter = p.get(ResourceKind::Specter);
    proof {
        lemma_distribution_entry_bound(p@, 1);
        lemma_distribution_entry_bound(p@, 2);
        lemma_distribution_entry_bound(p@, 4);
        assert(food * hp + water * tp == (food as int) * (hp as int) + (water as int) * (
        tp as int));
    }
    let pos: u64 = (food * hp + water * tp) / SCALE;
    pos as i64 - specter as i64
}

/// Convolution kernel: heavy weight on the center of the 5x5 window, unit
/// weight elsewhere.
pub open spec fn kernel_weight(i: int, j: int) -> int {
    if i == 2 && j == 2 {
        100
    } else {
        1
    }
}

/// The base score of padded position `(x, y)`: the cell's own score two
/// steps in from the border, zero on the border.
pub open spec fn spec_padded_base(a: Agent, x: int, y: int) -> int {
    let w = a.belief.spec_width();
    let h = a.belief.spec_height();
    if 2 <= x < w + 2 && 2 <= y < h + 2 {
        spec_base_score(a.belief.cell(x - 2, y - 2), a.needs)
    } else {
        0
    }
}

/// Partial convolution sum over the first `k` of the 25 kernel positions,
/// for output cell `(x, y)` (positions run row-major over the kernel).
pub open spec fn spec_conv_partial(a: Agent, x: int, y: int, k: nat) -> int
    decreases k,
{
    if k == 0 {
        0
    } else {
        let i = ((k - 1) as int) / 5;
        let j = ((k - 1) as int) % 5;
        spec_conv_partial(a, x, y, (k - 1) as nat) + kernel_weight(i, j) * spec_padded_base(
            a,
            x + i,
            y + j,
        )
    }
}

/// Favorability spread over neighborhoods: the 5x5 kernel applied to the
/// zero-padded base scores.
pub open spec fn spec_conv(a: Agent, x: int, y: int) -> int {
    spec_conv_partial(a, x, y, 25)
}

pub proof fn lemma_padded_base_bounds(a: Agent, x: int, y: int)
    requires
        a.belief.wf(),
        a.needs.hunger <= MAX_HUNGER,
        a.needs.thirst <= MAX_THIRST,
    ensures
        -(SCALE as int) <= spec_padded_base(a, x, y) <= SCALE,
{
    let w = a.belief.spec_width();
    let h = a.belief.spec_height();
    if 2 <= x < w + 2 && 2 <= y < h + 2 {
        lemma_flat_in_range(x - 2, y - 2, w, h);
        lemma_base_score_bounds(a.belief.cell(x - 2, y - 2), a.needs);
    }
}

/// A convolved score scaled by the distance discount, rounding toward zero.
pub open spec fn spec_discounted(c: int, d: int) -> int {
    if c >= 0 {
        c * d / (SCALE as int)
    } else {
        -((-c) * d / (SCALE as int))
    }
}

/// Discounted favorability of cell `(x, y)` for this agent: convolved score
/// times the hyperbolic distance discount.
pub open spec fn spec_favorability(a: Agent, x: int, y: int) -> int {
    spec_discounted(spec_conv(a, x, y), spec_discount(pos_dsq(a.x as int, a.y as int, x, y)))
}

/// The flattened (row-major) favorability field.
pub open spec fn spec_fav_seq(a: Agent, w: int, h: int) -> Seq<int> {
    Seq::new((w * h) as nat, |k: int| spec_favorability(a, k / h, k % h))
}

impl Agent {
    /// The discounted favorability of every cell, as a grid.
    pub fn favorability_map(&self) -> (r: Grid<i64>)
        requires
            self.belief.wf(),
            self.needs.hunger <= MAX_HUNGER,
            self.needs.thirst <= MAX_THIRST,
            self.belief.spec_width() <= MAX_DIM,
            self.belief.spec_height() <= MAX_DIM,
            0 <= self.x < self.belief.spec_width(),
            0 <= self.y < self.belief.spec_height(),
        ensures
            r.wf(),
            r.spec_width() == self.belief.spec_width(),
            r.spec_height() == self.belief.spec_height(),
            forall|x: int, y: int|
                r.in_bounds(x, y) ==> #[trigger] r.cell(x, y) == spec_favorability(*self, x, y),
    {
        let width = self.belief.width();
        let height = self.belief.height();
        proof {
            assert(width * height <= usize::MAX) by (nonlinear_arith)
                requires 1 <= width <= 3_000, 1 <= height <= 3_000;
            assert((width + 4) * (height + 4) <= usize::MAX) by (nonlinear_arith)
                requires 1 <= width <= 3_000, 1 <= height <= 3_000;
        }
        // Base scores, one per cell.
        let n: usize = width * height;
        let mut base: Vec<i64> = Vec::new();
        let mut i: usize = 0;
        while i < n
            invariant
                i <= n,
                self.belief.wf(),
                self.needs.hunger <= MAX_HUNGER,
                self.needs.thirst <= MAX_THIRST,
                width == self.belief.spec_width(),
                height == self.belief.spec_height(),
                n == width * height,
                base@.len() == i,
                forall|j: int|
                    0 <= j < i ==> #[trigger] base@[j] as int == spec_base_score(
                        self.belief@[j],
                        self.needs,
                    ),
                forall|j: int|
                    0 <= j < i ==> -(SCALE as int) <= #[trigger] base@[j] as int <= SCALE,
            decreases n - i,
        {
            let x = i / height;
            let y = i % height;
            proof {
                assert((i / height) * height + (i % height) == i as int) by (nonlinear_arith)
                    requires height >= 1, i >= 0;
                assert(i / height < width) by (nonlinear_arith)
                    requires height >= 1, i < width * height;
                assert(0 <= i % height < height) by (nonlinear_arith)
                    requires height >= 1, i >= 0;
            }
            let p = self.belief.at(x, y);
            base.push(base_score(p, self.needs));
            i = i + 1;
        }
        let base_grid = Grid::from_vec(width, height, base);
        let padded = base_grid.pad(2, 2, ArrayPaddingKind::Constant(0i64));
        proof {
            assert forall|x: int, y: int| padded.in_bounds(x, y) implies #[trigger] padded.cell(
                x,
                y,
            ) == spec_padded_base(*self, x, y) && -(SCALE as int) <= padded.cell(x, y)
                <= SCALE by {
                if 2 <= x < width + 2 && 2 <= y < height + 2 {
                    lemma_flat_in_range(x - 2, y - 2, width as int, height as int);
                }
                lemma_padded_base_bounds(*self, x, y);
            }
        }
        // Convolve and discount.
        let mut out: Vec<i64> = Vec::new();
        let mut x: usize = 0;
        while x < width
            invariant
                x <= width,
                self.belief.wf(),
                self.needs.hunger <= MAX_HUNGER,
                self.needs.thirst <= MAX_THIRST,
                0 <= self.x < width,
                0 <= self.y < height,
                width == self.belief.spec_width(),
                height == self.belief.spec_height(),
                width <= MAX_DIM,
                height <= MAX_DIM,
                padded.wf(),
                padded.spec_width() == width + 4,
                padded.spec_height() == height + 4,
                forall|a: int, b: int|
                    padded.in_bounds(a, b) ==> #[trigger] padded.cell(a, b)
                        == spec_padded_base(*self, a, b) && -(SCALE as int) <= padded.cell(a, b)
                        <= SCALE,
                out@.len() == x * height,
                forall|k: int|
                    0 <= k < x * height ==> #[trigger] out@[k] as int == spec_favorability(
                        *self,
                        k / (height as int),
                        k % (height as int),
                    ),
            decreases width - x,
        {
            let mut y: usize = 0;
            while y < height
                invariant
                    x < width,
                    y <= height,
                    self.belief.wf(),
                    self.needs.hunger <= MAX_HUNGER,
                    self.needs.thirst <= MAX_THIRST,
                    0 <= self.x < width,
                    0 <= self.y < height,
                    width == self.belief.spec_width(),
                    height == self.belief.spec_height(),
                    width <= MAX_DIM,
                    height <= MAX_DIM,
                    padded.wf(),
                    padded.spec_width() == width + 4,
                    padded.spec_height() == height + 4,
                    forall|a: int, b: int|
                        padded.in_bounds(a, b) ==> #[trigger] padded.cell(a, b)
                            == spec_padded_base(*self, a, b) && -(SCALE as int) <= padded.cell(
                            a,
                            b,
                        ) <= SCALE,
                    out@.len() == x * height + y,
                    forall|k: int|
                        0 <= k < x * height + y ==> #[trigger] out@[k] as int
                            == spec_favorability(*self, k / (height as int), k % (height as int)),
                decreases height - y,
            {
                let mut acc: i64 = 0;
                let mut k: usize = 0;
                while k < 25
                    invariant
                        k <= 25,
                        x < width,
                        y < height,
                        self.belief.wf(),
                        self.needs.hunger <= MAX_HUNGER,
                        self.needs.thirst <= MAX_THIRST,
                        width == self.belief.spec_width(),
                        height == self.belief.spec_height(),
                        width <= MAX_DIM,
                        height <= MAX_DIM,
                        padded.wf(),
                        padded.spec_width() == width + 4,
                        padded.spec_height() == height + 4,
                        forall|a: int, b: int|
                            padded.in_bounds(a, b) ==> #[trigger] padded.cell(a, b)
                                == spec_padded_base(*self, a, b) && -(SCALE as int)
                                <= padded.cell(a, b) <= SCALE,
                        acc as int == spec_conv_partial(*self, x as int, y as int, k as nat),
                        -(k * 100 * (SCALE as int)) <= acc as int <= k * 100 * (SCALE as int),
                    decreases 25 - k,
                {
                    let ki: usize = k / 5;
                    let kj: usize = k % 5;
                    proof {
                        assert(k / 5 < 5 && k % 5 < 5) by (nonlinear_arith)
                            requires k < 25usize;
                    }
                    let w: i64 = if ki == 2 && kj == 2 {
                        100
                    } else {
                        1
                    };
                    let cell = *padded.get(x + ki, y + kj);
                    proof {
                        assert(-(100 * (SCALE as int)) <= (w as int) * (cell as int) <= 100 * (
                        SCALE as int)) by (nonlinear_arith)
                            requires
                                -(SCALE as int) <= cell as int <= SCALE,
                                1 <= w as int <= 100,
                        ;
                        assert((k + 1) * 100 * (SCALE as int) == k * 100 * (SCALE as int) + 100
                            * (SCALE as int)) by (nonlinear_arith);
                    }
                    acc = acc + w * cell;
                    k = k + 1;
                }
                let dx: u64 = if x >= self.x {
                    (x - self.x) as u64
                } else {
                    (self.x - x) as u64
                };
                let dy: u64 = if y >= self.y {
                    (y - self.y) as u64
                } else {
                    (self.y - y) as u64
                };
                proof {
                    assert(dx < 3_000 && dy < 3_000);
                    assert(dx * dx + dy * dy < 18_000_000) by (nonlinear_arith)
                        requires dx < 3_000u64, dy < 3_000u64;
                    assert(MAX_DIM * MAX_DIM * 2 == 18_000_000) by (nonlinear_arith);
                    assert(dx * dx + dy * dy == pos_dsq(
                        self.x as int,
                        self.y as int,
                        x as int,
                        y as int,
                    )) by (nonlinear_arith)
                        requires
                            dx == if x >= self.x { x - self.x } else { self.x - x },
                            dy == if y >= self.y { y - self.y } else { self.y - y },
                            pos_dsq(self.x as int, self.y as int, x as int, y as int) == (x
                                - self.x) * (x - self.x) + (y - self.y) * (y - self.y),
                    ;
                }
                let disc = discount(dx * dx + dy * dy);
                let score: i64 = if acc >= 0 {
                    proof {
                        assert((acc as u64) * disc <= 2_500_000_000 * 1_000_000) by (
                        nonlinear_arith)
                            requires
                                acc as u64 <= 2_500_000_000u64,
                                disc <= 1_000_000u64,
                        ;
                    }
                    let prod: u64 = (acc as u64) * disc;
                    let scaled: u64 = prod / SCALE;
                    proof {
                        assert(scaled <= 2_500_000_000) by (nonlinear_arith)
                            requires
                                scaled == prod / SCALE,
                                prod <= 2_500_000_000u64 * 1_000_000,
                                SCALE == 1_000_000u64,
                        ;
                    }
                    scaled as i64
                } else {
                    let neg: u64 = (-acc) as u64;
                    proof {
                        assert(neg * disc <= 2_500_000_000 * 1_000_000) by (nonlinear_arith)
                            requires neg <= 2_500_000_000u64, disc <= 1_000_000u64;
                    }
                    let prod: u64 = neg * disc;
                    let scaled: u64 = prod / SCALE;
                    proof {
                        assert(scaled <= 2_500_000_000) by (nonlinear_arith)
                            requires
                                scaled == prod / SCALE,
                                prod <= 2_500_000_000u64 * 1_000_000,
                                SCALE == 1_000_000u64,
                        ;
                    }
                    -(scaled as i64)
                };
                out.push(score);
                proof {
                    crate::grid::lemma_flat_index(x as int, y as int, height as int);
                    assert forall|k2: int|
                        0 <= k2 < x * height + y + 1 implies (#[trigger] out@[k2]) as int
                        == spec_favorability(*self, k2 / (height as int), k2 % (height as int)) by {
                        if k2 == x * height + y {
                            assert(k2 / (height as int) == x as int && k2 % (height as int) == y as int) by (
                            nonlinear_arith)
                                requires
                                    k2 == x * height + y,
                                    0 <= y < height,
                                    0 <= x,
                            ;
                        }
                    }
                }
                y = y + 1;
            }
            proof {
                assert(x as int * height + height == (x + 1) * height) by (nonlinear_arith);
            }
            x = x + 1;
        }
        let r = Grid::from_vec(width, height, out);
        proof {
            assert forall|x: int, y: int| r.in_bounds(x, y) implies #[trigger] r.cell(x, y)
                == spec_favorability(*self, x, y) by {
                lemma_flat_in_range(x, y, width as int, height as int);
                assert((x * height + y) / (height as int) == x && (x * height + y) % (
                height as int) == y) by (nonlinear_arith)
                    requires 0 <= y < height, 0 <= x;
            }
        }
        r
    }

    /// The cell this agent heads for: the first maximum (row-major) of the
    /// discounted favorability field.
    pub fn move_target(&self) -> (r: (usize, usize))
        requires
            self.belief.wf(),
            self.needs.hunger <= MAX_HUNGER,
            self.needs.thirst <= MAX_THIRST,
            self.belief.spec_width() <= MAX_DIM,
            self.belief.spec_height() <= MAX_DIM,
            0 <= self.x < self.belief.spec_width(),
            0 <= self.y < self.belief.spec_height(),
        ensures
            r.0 < self.belief.spec_width(),
            r.1 < self.belief.spec_height(),
            r.0 * self.belief.spec_height() + r.1 == first_max_idx(
                spec_fav_seq(*self, self.belief.spec_width(), self.belief.spec_height()),
            ),
            is_first_max(
                spec_fav_seq(*self, self.belief.spec_width(), self.belief.spec_height()),
                r.0 * self.belief.spec_height() + r.1,
            ),
    {
        let width = self.belief.width();
        let height = self.belief.height();
        let fav = self.favorability_map();
        let cells = fav.as_vec();
        let ghost fs = spec_fav_seq(*self, width as int, height as int);
        proof {
            assert(width * height >= 1) by (nonlinear_arith)
                requires width >= 1, height >= 1;
            assert forall|k: int| 0 <= k < fav@.len() implies ints_of_i64(fav@)[k] == fs[k] by {
                assert(0 <= k % (height as int) < height && 0 <= k / (height as int)) by (nonlinear_arith)
                    requires height >= 1, k >= 0;
                assert(k / (height as int) < width) by (nonlinear_arith)
                    requires height >= 1, 0 <= k < width * height;
                assert((k / (height as int)) * height + (k % (height as int)) == k) by (nonlinear_arith)
                    requires height >= 1, k >= 0;
                assert(fav.cell(k / (height as int), k % (height as int)) == fav@[k]);
            }
            assert(ints_of_i64(fav@) =~= fs);
        }
        let flat = first_max_index_i64(cells);
        let rx = flat / height;
        let ry = flat % height;
        proof {
            assert(rx * height + ry == flat && rx < width && 0 <= ry < height) by (
            nonlinear_arith)
                requires
                    rx == flat / height,
                    ry == flat % height,
                    height >= 1,
                    0 <= flat < width * height,
            ;
        }
        (rx, ry)
    }
}

} // verus!
