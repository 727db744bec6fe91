//! One agent's belief about the whole grid: a field of probability vectors,
//! updated by decay, by local sensing, and by gossip blending.

use vstd::prelude::*;

use crate::dist::MAX_DIM;
use crate::dist::certainty;
use crate::dist::spec_certainty;
use crate::grid::Grid;
use crate::grid::lemma_flat_in_range;
use crate::grid::lemma_flat_index;
use crate::grid::lemma_flat_injective;
use crate::kind::ResourceKind;
use crate::prob::ProbabilityVector;
use crate::prob::SCALE;
use crate::prob::is_distribution;
use crate::prob::spec_blend;
use crate::prob::spec_decay;
use crate::prob::spec_probable;

verus! {

/// Squared Euclidean offset between two positions.
pub open spec fn pos_dsq(px: int, py: int, x: int, y: int) -> int {
    (x - px) * (x - px) + (y - py) * (y - py)
}

/// A cell after one sensing pass: blended toward `probable(k, certainty)`
/// with trust `certainty` squared, certainty falling linearly with distance.
pub open spec fn perceived_cell(cell: Seq<u64>, k: ResourceKind, dsq: int, range: u64) -> Seq<
    u64,
> {
    spec_blend(
        cell,
        spec_probable(k, spec_certainty(dsq, range) as u64),
        (spec_certainty(dsq, range) * spec_certainty(dsq, range) / (SCALE as int)) as u64,
    )
}

/// Both maps blended cell-wise, each toward the other.
pub open spec fn spec_blend_map(a: Seq<Seq<u64>>, b: Seq<Seq<u64>>, t: u64) -> Seq<Seq<u64>> {
    Seq::new(a.len(), |i: int| spec_blend(a[i], b[i], t))
}

/// One gossip exchange: each side blends toward the other's pre-exchange
/// snapshot.
pub open spec fn spec_gossip(a: Seq<Seq<u64>>, b: Seq<Seq<u64>>, t: u64) -> (
    Seq<Seq<u64>>,
    Seq<Seq<u64>>,
) {
    (spec_blend_map(a, b, t), spec_blend_map(b, a, t))
}

/// Gossip is order-independent: since both updates read only the
/// pre-exchange snapshots, processing the pair as (a, b) or as (b, a)
/// leaves each side with the same map.
pub proof fn lemma_gossip_order_independent(a: Seq<Seq<u64>>, b: Seq<Seq<u64>>, t: u64)
    ensures
        spec_gossip(a, b, t).0 == spec_gossip(b, a, t).1,
        spec_gossip(a, b, t).1 == spec_gossip(b, a, t).0,
{
}

/// The sensing window around `(px, py)`: a square of half-width `range`
/// clipped to the grid, the high edges exclusive.
pub open spec fn in_window(
    px: int,
    py: int,
    range: int,
    w: int,
    h: int,
    x: int,
    y: int,
) -> bool {
    &&& (if px >= range {
        px - range
    } else {
        0
    }) <= x < (if px + range < w {
        px + range
    } else {
        w
    })
    &&& (if py >= range {
        py - range
    } else {
        0
    }) <= y < (if py + range < h {
        py + range
    } else {
        h
    })
}

/// A per-agent grid of beliefs, one probability vector per cell.
pub struct BeliefMap {
    grid: Grid<ProbabilityVector>,
}

impl View for BeliefMap {
    type V = Seq<Seq<u64>>;

    closed spec fn view(&self) -> Seq<Seq<u64>> {
        self.grid@.map_values(|p: ProbabilityVector| p@)
    }
}

impl BeliefMap {
    pub closed spec fn spec_width(self) -> int {
        self.grid.spec_width()
    }

    pub closed spec fn spec_height(self) -> int {
        self.grid.spec_height()
    }

    pub open spec fn wf(self) -> bool {
        &&& self.spec_width() >= 1
        &&& self.spec_height() >= 1
        &&& self@.len() == self.spec_width() * self.spec_height()
        &&& forall|i: int| 0 <= i < self@.len() ==> is_distribution(#[trigger] self@[i])
    }

    /// The inner grid is well-formed exactly when the map is (visible to
    /// this module's proofs).
    proof fn lemma_grid_wf(self)
        requires
            self.wf(),
        ensures
            self.grid.wf(),
            self.grid@.len() == self@.len(),
            forall|i: int| 0 <= i < self@.len() ==> (#[trigger] self.grid@[i])@ == self@[i],
    {
    }

    pub open spec fn in_bounds(self, x: int, y: int) -> bool {
        0 <= x < self.spec_width() && 0 <= y < self.spec_height()
    }

    /// The belief at position `(x, y)`.
    pub open spec fn cell(self, x: int, y: int) -> Seq<u64> {
        self@[x * self.spec_height() + y]
    }

    pub fn width(&self) -> (r: usize)
        ensures
            r == self.spec_width(),
    {
        self.grid.width()
    }

    pub fn height(&self) -> (r: usize)
        ensures
            r == self.spec_height(),
    {
        self.grid.height()
    }

    /// Borrow the belief at position `(x, y)`.
    pub fn at(&self, x: usize, y: usize) -> (r: &ProbabilityVector)
        requires
            self.wf(),
            self.in_bounds(x as int, y as int),
        ensures
            r@ == self.cell(x as int, y as int),
            r.wf(),
    {
        let r = self.grid.get(x, y);
        proof {
            lemma_flat_index(x as int, y as int, self.spec_height());
            lemma_flat_in_range(x as int, y as int, self.spec_width(), self.spec_height());
        }
        r
    }

    /// Replace the belief at position `(x, y)`.
    pub fn put(&mut self, x: usize, y: usize, p: ProbabilityVector)
        requires
            old(self).wf(),
            old(self).in_bounds(x as int, y as int),
            p.wf(),
        ensures
            final(self).wf(),
            final(self).spec_width() == old(self).spec_width(),
            final(self).spec_height() == old(self).spec_height(),
            final(self)@ == old(self)@.update(
                x as int * old(self).spec_height() + y as int,
                p@,
            ),
    {
        proof {
            lemma_flat_index(x as int, y as int, self.spec_height());
            lemma_flat_in_range(x as int, y as int, self.spec_width(), self.spec_height());
        }
        self.grid.set(x, y, p);
        proof {
            assert(self@ =~= old(self)@.update(
                x as int * old(self).spec_height() + y as int,
                p@,
            ));
        }
    }

    /// Assemble a belief map from row-major cells.
    pub fn from_cells(width: usize, height: usize, cells: Vec<ProbabilityVector>) -> (r:
        BeliefMap)
        requires
            width >= 1,
            height >= 1,
            cells@.len() == width * height,
            forall|i: int| 0 <= i < cells@.len() ==> (#[trigger] cells@[i]).wf(),
        ensures
            r.wf(),
            r.spec_width() == width,
            r.spec_height() == height,
            forall|i: int| 0 <= i < r@.len() ==> r@[i] == cells@[i]@,
    {
        let r = BeliefMap { grid: Grid::from_vec(width, height, cells) };
        r
    }

    /// A fresh random belief map: every cell an independent random belief.
    pub fn generate(rng: &mut rand::rngs::StdRng, width: usize, height: usize) -> (r:
        BeliefMap)
        requires
            1 <= width <= MAX_DIM,
            1 <= height <= MAX_DIM,
        ensures
            r.wf(),
            r.spec_width() == width,
            r.spec_height() == height,
    {
        proof {
            assert(width * height <= usize::MAX) by (nonlinear_arith)
                requires 1 <= width <= 3_000, 1 <= height <= 3_000;
            assert(width * height >= 1) by (nonlinear_arith)
                requires width >= 1, height >= 1;
        }
        let n: usize = width * height;
        let mut cells: Vec<ProbabilityVector> = Vec::new();
        let mut i: usize = 0;
        while i < n
            invariant
                i <= n,
                cells@.len() == i,
                forall|j: int| 0 <= j < i ==> (#[trigger] cells@[j]).wf(),
            decreases n - i,
        {
            cells.push(ProbabilityVector::uniform_random(rng));
            i = i + 1;
        }
        BeliefMap::from_cells(width, height, cells)
    }

    /// An identical copy of this belief map.
    pub fn snapshot(&self) -> (r: BeliefMap)
        requires
            self.wf(),
        ensures
            r.wf(),
            r@ == self@,
            r.spec_width() == self.spec_width(),
            r.spec_height() == self.spec_height(),
    {
        let width = self.grid.width();
        let height = self.grid.height();
        let n = self.grid.len();
        let mut cells: Vec<ProbabilityVector> = Vec::new();
        let mut i: usize = 0;
        while i < n
            invariant
                self.wf(),
                i <= n,
                n == self@.len(),
                width == self.spec_width(),
                height == self.spec_height(),
                cells@.len() == i,
                forall|j: int| 0 <= j < i ==> (#[trigger] cells@[j])@ == self@[j],
                forall|j: int| 0 <= j < i ==> (#[trigger] cells@[j]).wf(),
            decreases n - i,
        {
            let x = i / height;
            let y = i % height;
            proof {
                self.lemma_grid_wf();
                assert((i / height) * height + (i % height) == i as int) by (nonlinear_arith)
                    requires height >= 1, i >= 0;
                assert(i / height < width) by (nonlinear_arith)
                    requires height >= 1, i < width * height;
                assert(0 <= i % height < height) by (nonlinear_arith)
                    requires height >= 1, i >= 0;
            }
            let p = self.grid.get(x, y);
            cells.push(p.duplicate());
            i = i + 1;
        }
        let r = BeliefMap::from_cells(width, height, cells);
        proof {
            assert(r@ =~= self@);
        }
        r
    }

    /// Decay every cell toward uniform with the given rate.
    pub fn decay_all(&mut self, rate: u64)
        requires
            old(self).wf(),
            rate <= SCALE,
        ensures
            final(self).wf(),
            final(self).spec_width() == old(self).spec_width(),
            final(self).spec_height() == old(self).spec_height(),
            final(self)@.len() == old(self)@.len(),
            forall|i: int|
                0 <= i < old(self)@.len() ==> final(self)@[i] == spec_decay(
                    #[trigger] old(self)@[i],
                    rate,
                ),
    {
        let ghost m0 = self@;
        let width = self.grid.width();
        let height = self.grid.height();
        let n = self.grid.len();
        let mut i: usize = 0;
        while i < n
            invariant
                self.wf(),
                rate <= SCALE,
                i <= n,
                n == m0.len(),
                width == self.spec_width(),
                height == self.spec_height(),
                self@.len() == m0.len(),
                forall|j: int| i <= j < m0.len() ==> self@[j] == m0[j],
                forall|j: int| 0 <= j < i ==> self@[j] == spec_decay(#[trigger] m0[j], rate),
            decreases n - i,
        {
            let x = i / height;
            let y = i % height;
            proof {
                self.lemma_grid_wf();
                assert((i / height) * height + (i % height) == i as int) by (nonlinear_arith)
                    requires height >= 1, i >= 0;
                assert(i / height < width) by (nonlinear_arith)
                    requires height >= 1, i < width * height;
                assert(0 <= i % height < height) by (nonlinear_arith)
                    requires height >= 1, i >= 0;
            }
            let mut p = self.grid.get(x, y).duplicate();
            proof {
                assert(p@ == m0[i as int]);
            }
            p.decay(rate);
            self.put(x, y, p);
            i = i + 1;
        }
    }

    /// This map blended cell-wise toward `other` with the given trust,
    /// reading only the two pre-exchange maps.
    pub fn blended_towards(&self, other: &BeliefMap, trust: u64) -> (r: BeliefMap)
        requires
            self.wf(),
            other.wf(),
            other.spec_width() == self.spec_width(),
            other.spec_height() == self.spec_height(),
            trust <= SCALE,
        ensures
            r.wf(),
            r.spec_width() == self.spec_width(),
            r.spec_height() == self.spec_height(),
            r@ == spec_blend_map(self@, other@, trust),
    {
        let width = self.width();
        let height = self.height();
        let n = self.grid.len();
        let mut cells: Vec<ProbabilityVector> = Vec::new();
        let mut i: usize = 0;
        while i < n
            invariant
                self.wf(),
                other.wf(),
                other.spec_width() == self.spec_width(),
                other.spec_height() == self.spec_height(),
                trust <= SCALE,
                i <= n,
                n == self@.len(),
                other@.len() == self@.len(),
                width == self.spec_width(),
                height == self.spec_height(),
                cells@.len() == i,
                forall|j: int| 0 <= j < i ==> (#[trigger] cells@[j])@ == spec_blend(
                    self@[j],
                    other@[j],
                    trust,
                ),
                forall|j: int| 0 <= j < i ==> (#[trigger] cells@[j]).wf(),
            decreases n - i,
        {
            let x = i / height;
            let y = i % height;
            proof {
                self.lemma_grid_wf();
                other.lemma_grid_wf();
                assert((i / height) * height + (i % height) == i as int) by (nonlinear_arith)
                    requires height >= 1, i >= 0;
                assert(i / height < width) by (nonlinear_arith)
                    requires height >= 1, i < width * height;
                assert(0 <= i % height < height) by (nonlinear_arith)
                    requires height >= 1, i >= 0;
            }
            let mut p = self.grid.get(x, y).duplicate();
            let o = other.grid.get(x, y);
            proof {
                assert(is_distribution(p@));
                assert(is_distribution(o@));
            }
            p.blend_towards(o, trust);
            cells.push(p);
            i = i + 1;
        }
        let r = BeliefMap::from_cells(width, height, cells);
        proof {
            assert(r@ =~= spec_blend_map(self@, other@, trust));
        }
        r
    }

    /// One sensing pass: every cell of the clipped window around `(px, py)`
    /// blends toward `probable(true kind, certainty)` with trust
    /// `certainty` squared; cells outside the window are untouched.
    pub fn perceive(
        &mut self,
        truth: &Grid<ResourceKind>,
        px: usize,
        py: usize,
        range: usize,
    )
        requires
            old(self).wf(),
            truth.wf(),
            truth.spec_width() == old(self).spec_width(),
            truth.spec_height() == old(self).spec_height(),
            old(self).in_bounds(px as int, py as int),
            1 <= range <= MAX_DIM,
            old(self).spec_width() <= MAX_DIM,
            old(self).spec_height() <= MAX_DIM,
        ensures
            final(self).wf(),
            final(self).spec_width() == old(self).spec_width(),
            final(self).spec_height() == old(self).spec_height(),
            forall|a: int, b: int|
                old(self).in_bounds(a, b) ==> #[trigger] final(self).cell(a, b) == (
                if in_window(
                    px as int,
                    py as int,
                    range as int,
                    old(self).spec_width(),
                    old(self).spec_height(),
                    a,
                    b,
                ) {
                    perceived_cell(
                        old(self).cell(a, b),
                        truth.cell(a, b),
                        pos_dsq(px as int, py as int, a, b),
                        range as u64,
                    )
                } else {
                    old(self).cell(a, b)
                }),
    {
        let ghost m0 = *self;
        let width = self.width();
        let height = self.height();
        let min_x: usize = if px >= range {
            px - range
        } else {
            0
        };
        let max_x: usize = if px + range < width {
            px + range
        } else {
            width
        };
        let min_y: usize = if py >= range {
            py - range
        } else {
            0
        };
        let max_y: usize = if py + range < height {
            py + range
        } else {
            height
        };
        let mut x: usize = min_x;
        while x < max_x
            invariant
                min_x <= x <= max_x,
                self.wf(),
                m0.wf(),
                truth.wf(),
                truth.spec_width() == m0.spec_width(),
                truth.spec_height() == m0.spec_height(),
                self.spec_width() == m0.spec_width(),
                self.spec_height() == m0.spec_height(),
                width == m0.spec_width(),
                height == m0.spec_height(),
                m0.in_bounds(px as int, py as int),
                1 <= range <= MAX_DIM,
                width <= MAX_DIM,
                height <= MAX_DIM,
                min_x as int == (if px >= range { px - range } else { 0int }),
                max_x as int == (if px + range < width { px + range } else { width as int }),
                min_y as int == (if py >= range { py - range } else { 0int }),
                max_y as int == (if py + range < height { py + range } else { height as int }),
                forall|a: int, b: int|
                    m0.in_bounds(a, b) ==> #[trigger] self.cell(a, b) == (
                    if in_window(
                        px as int,
                        py as int,
                        range as int,
                        width as int,
                        height as int,
                        a,
                        b,
                    ) && a < x {
                        perceived_cell(
                            m0.cell(a, b),
                            truth.cell(a, b),
                            pos_dsq(px as int, py as int, a, b),
                            range as u64,
                        )
                    } else {
                        m0.cell(a, b)
                    }),
            decreases max_x - x,
        {
            let mut y: usize = min_y;
            while y < max_y
                invariant
                    min_x <= x < max_x,
                    min_y <= y <= max_y,
                    self.wf(),
                    m0.wf(),
                    truth.wf(),
                    truth.spec_width() == m0.spec_width(),
                    truth.spec_height() == m0.spec_height(),
                    self.spec_width() == m0.spec_width(),
                    self.spec_height() == m0.spec_height(),
                    width == m0.spec_width(),
                    height == m0.spec_height(),
                    m0.in_bounds(px as int, py as int),
                    1 <= range <= MAX_DIM,
                    width <= MAX_DIM,
                    height <= MAX_DIM,
                    min_x as int == (if px >= range { px - range } else { 0int }),
                    max_x as int == (if px + range < width { px + range } else { width as int }),
                    min_y as int == (if py >= range { py - range } else { 0int }),
                    max_y as int == (if py + range < height { py + range } else { height as int }),
                    forall|a: int, b: int|
                        m0.in_bounds(a, b) ==> #[trigger] self.cell(a, b) == (
                        if in_window(
                            px as int,
                            py as int,
                            range as int,
                            width as int,
                            height as int,
                            a,
                            b,
                        ) && (a < x || (a == x && b < y)) {
                            perceived_cell(
                                m0.cell(a, b),
                                truth.cell(a, b),
                                pos_dsq(px as int, py as int, a, b),
                                range as u64,
                            )
                        } else {
                            m0.cell(a, b)
                        }),
                decreases max_y - y,
            {
                let dx: u64 = if x >= px {
                    (x - px) as u64
                } else {
                    (px - x) as u64
                };
                let dy: u64 = if y >= py {
                    (y - py) as u64
                } else {
                    (py - y) as u64
                };
                proof {
                    assert(dx <= 3_000 && dy <= 3_000);
                    assert(dx * dx + dy * dy <= 18_000_000) by (nonlinear_arith)
                        requires dx <= 3_000u64, dy <= 3_000u64;
                    assert(dx * dx + dy * dy == pos_dsq(px as int, py as int, x as int, y as int))
                        by (nonlinear_arith)
                        requires
                            dx == if x >= px { x - px } else { px - x },
                            dy == if y >= py { y - py } else { py - y },
                            pos_dsq(px as int, py as int, x as int, y as int) == (x - px) * (x
                                - px) + (y - py) * (y - py),
                    ;
                    assert(range * SCALE <= u64::MAX) by (nonlinear_arith)
                        requires range <= 3_000, SCALE == 1_000_000u64;
                    assert(MAX_DIM * MAX_DIM * 2 == 18_000_000) by (nonlinear_arith);
                }
                let dsq = dx * dx + dy * dy;
                let c = certainty(dsq, range as u64);
                proof {
                    crate::dist::lemma_certainty_bounds(dsq as int, range as u64);
                    assert(c * c / (SCALE as int) <= SCALE) by (nonlinear_arith)
                        requires c <= SCALE, SCALE == 1_000_000u64;
                }
                let t = c * c / SCALE;
                let k = *truth.get(x, y);
                let target = ProbabilityVector::probable(k, c);
                let mut p = self.at(x, y).duplicate();
                proof {
                    assert(is_distribution(p@));
                }
                p.blend_towards(&target, t);
                let ghost before = *self;
                self.put(x, y, p);
                proof {
                    assert forall|a: int, b: int| m0.in_bounds(a, b) implies #[trigger] self
                        .cell(a, b) == (if in_window(
                        px as int,
                        py as int,
                        range as int,
                        width as int,
                        height as int,
                        a,
                        b,
                    ) && (a < x || (a == x && b < y + 1)) {
                        perceived_cell(
                            m0.cell(a, b),
                            truth.cell(a, b),
                            pos_dsq(px as int, py as int, a, b),
                            range as u64,
                        )
                    } else {
                        m0.cell(a, b)
                    }) by {
                        if a == x as int && b == y as int {
                            let ghost sc = spec_certainty(dsq as int, range as u64);
                            lemma_flat_in_range(a, b, width as int, height as int);
                            assert(self.cell(a, b) == p@);
                            assert(before.cell(a, b) == m0.cell(a, b));
                            assert(c == sc as u64);
                            assert(t == (sc * sc / (SCALE as int)) as u64);
                            assert(dsq as int == pos_dsq(px as int, py as int, a, b));
                            assert(p@ == spec_blend(m0.cell(a, b), spec_probable(k, c), t));
                            assert(in_window(
                                px as int,
                                py as int,
                                range as int,
                                width as int,
                                height as int,
                                a,
                                b,
                            ));
                        } else {
                            lemma_flat_injective(a, b, x as int, y as int, height as int);
                            lemma_flat_in_range(a, b, width as int, height as int);
                            lemma_flat_in_range(x as int, y as int, width as int, height as int);
                            assert(self.cell(a, b) == before.cell(a, b));
                        }
                    }
                }
                y = y + 1;
            }
            x = x + 1;
        }
    }
}

} // verus!
