//! A rectangular grid stored row-major (`x` outer, `y` inner), with the
//! edge-padding used by the neighborhood and convolution passes.

use vstd::prelude::*;

verus! {

/// How cells outside the source grid are filled when padding.
pub enum ArrayPaddingKind<T: Clone> {
    /// Every outside cell takes this value.
    Constant(T),
    /// Every outside cell takes the value of the nearest source cell.
    Clamp,
}

/// `v` clamped into `[lo, hi]`.
pub open spec fn spec_clamp(v: int, lo: int, hi: int) -> int {
    if v < lo {
        lo
    } else if v > hi {
        hi
    } else {
        v
    }
}

/// Row-major index arithmetic: position `(x, y)` of a grid of height `h`
/// lives at flat index `x * h + y`.
pub proof fn lemma_flat_index(x: int, y: int, h: int)
    requires
        0 <= y < h,
        0 <= x,
    ensures
        (x * h + y) / h == x,
        0 <= x * h + y,
{
    assert((x * h + y) / h == x) by (nonlinear_arith)
        requires 0 <= y < h, 0 <= x;
    assert(0 <= x * h + y) by (nonlinear_arith)
        requires 0 <= y, 0 <= x, h >= 1;
}

/// A position inside a `w` by `h` grid has its flat index below `w * h`.
pub proof fn lemma_flat_in_range(x: int, y: int, w: int, h: int)
    requires
        0 <= y < h,
        0 <= x < w,
    ensures
        0 <= x * h + y < w * h,
{
    assert(0 <= x * h + y < w * h) by (nonlinear_arith)
        requires 0 <= y < h, 0 <= x < w;
}

/// Distinct in-bounds positions have distinct flat indices.
pub proof fn lemma_flat_injective(x1: int, y1: int, x2: int, y2: int, h: int)
    requires
        0 <= y1 < h,
        0 <= y2 < h,
        0 <= x1,
        0 <= x2,
        (x1, y1) != (x2, y2),
    ensures
        x1 * h + y1 != x2 * h + y2,
{
    assert(x1 * h + y1 != x2 * h + y2) by (nonlinear_arith)
        requires
            0 <= y1 < h,
            0 <= y2 < h,
            0 <= x1,
            0 <= x2,
            x1 != x2 || y1 != y2,
    ;
}

/// A `width` by `height` field of cells.
pub struct Grid<T> {
    width: usize,
    height: usize,
    cells: Vec<T>,
}

impl<T> View for Grid<T> {
    type V = Seq<T>;

    closed spec fn view(&self) -> Seq<T> {
        self.cells@
    }
}

impl<T> Grid<T> {
    pub closed spec fn spec_width(self) -> int {
        self.width as int
    }

    pub closed spec fn spec_height(self) -> int {
        self.height as int
    }

    pub open spec fn wf(self) -> bool {
        &&& self@.len() == self.spec_width() * self.spec_height()
        &&& self.spec_width() >= 1
        &&& self.spec_height() >= 1
    }

    pub open spec fn in_bounds(self, x: int, y: int) -> bool {
        0 <= x < self.spec_width() && 0 <= y < self.spec_height()
    }

    /// Flat index of position `(x, y)`.
    pub open spec fn idx(self, x: int, y: int) -> int {
        x * self.spec_height() + y
    }

    /// The cell at position `(x, y)`.
    pub open spec fn cell(self, x: int, y: int) -> T {
        self@[self.idx(x, y)]
    }

    pub fn width(&self) -> (r: usize)
        ensures
            r == self.spec_width(),
    {
        self.width
    }

    /// Number of cells.
    pub fn len(&self) -> (n: usize)
        ensures
            n == self@.len(),
    {
        self.cells.len()
    }

    /// The cells in row-major order.
    pub fn as_vec(&self) -> (r: &Vec<T>)
        ensures
            r@ == self@,
    {
        &self.cells
    }

    pub fn height(&self) -> (r: usize)
        ensures
            r == self.spec_height(),
    {
        self.height
    }

    /// Assemble a grid from row-major cells.
    pub fn from_vec(width: usize, height: usize, cells: Vec<T>) -> (r: Grid<T>)
        requires
            width >= 1,
            height >= 1,
            cells@.len() == width * height,
        ensures
            r.wf(),
            r.spec_width() == width,
            r.spec_height() == height,
            r@ == cells@,
    {
        Grid { width, height, cells }
    }

    pub fn get(&self, x: usize, y: usize) -> (r: &T)
        requires
            self.wf(),
            self.in_bounds(x as int, y as int),
        ensures
            *r == self.cell(x as int, y as int),
    {
        let n = self.cells.len();
        proof {
            lemma_flat_index(x as int, y as int, self.spec_height());
            lemma_flat_in_range(x as int, y as int, self.spec_width(), self.spec_height());
        }
        &self.cells[x * self.height + y]
    }

    pub fn set(&mut self, x: usize, y: usize, v: T)
        requires
            old(self).wf(),
            old(self).in_bounds(x as int, y as int),
        ensures
            final(self).wf(),
            final(self).spec_width() == old(self).spec_width(),
            final(self).spec_height() == old(self).spec_height(),
            final(self)@ == old(self)@.update(old(self).idx(x as int, y as int), v),
    {
        let n = self.cells.len();
        proof {
            lemma_flat_index(x as int, y as int, self.spec_height());
            lemma_flat_in_range(x as int, y as int, self.spec_width(), self.spec_height());
        }
        self.cells.set(x * self.height + y, v);
    }
}

impl<T: Copy> Grid<T> {
    /// A grid with every cell holding `v`.
    pub fn filled(width: usize, height: usize, v: T) -> (r: Grid<T>)
        requires
            width >= 1,
            height >= 1,
            width * height <= usize::MAX,
        ensures
            r.wf(),
            r.spec_width() == width,
            r.spec_height() == height,
            forall|i: int| 0 <= i < r@.len() ==> r@[i] == v,
    {
        proof {
            assert(width * height >= 1) by (nonlinear_arith)
                requires width >= 1, height >= 1;
        }
        let n: usize = width * height;
        let mut cells: Vec<T> = Vec::new();
        let mut i: usize = 0;
        while i < n
            invariant
                i <= n,
                cells@.len() == i,
                forall|j: int| 0 <= j < i ==> cells@[j] == v,
            decreases n - i,
        {
            cells.push(v);
            i = i + 1;
        }
        Grid { width, height, cells }
    }
}

impl<T: Copy + Clone> Grid<T> {
    /// Value of cell `(x, y)` of this grid padded by `(px, py)`: inside the
    /// shifted source its own cell, outside it the padding rule's value.
    pub open spec fn pad_cell(
        self,
        px: int,
        py: int,
        kind: ArrayPaddingKind<T>,
        x: int,
        y: int,
    ) -> T {
        if px <= x < px + self.spec_width() && py <= y < py + self.spec_height() {
            self.cell(x - px, y - py)
        } else {
            match kind {
                ArrayPaddingKind::Constant(t) => t,
                ArrayPaddingKind::Clamp => self.cell(
                    spec_clamp(x - px, 0, self.spec_width() - 1),
                    spec_clamp(y - py, 0, self.spec_height() - 1),
                ),
            }
        }
    }

    /// The grid extended by `px` columns on either side and `py` rows above
    /// and below, outside cells filled per `kind`.
    pub fn pad(&self, px: usize, py: usize, kind: ArrayPaddingKind<T>) -> (r: Grid<T>)
        requires
            self.wf(),
            self.spec_width() + 2 * px <= usize::MAX,
            self.spec_height() + 2 * py <= usize::MAX,
            (self.spec_width() + 2 * px) * (self.spec_height() + 2 * py) <= usize::MAX,
        ensures
            r.wf(),
            r.spec_width() == self.spec_width() + 2 * px,
            r.spec_height() == self.spec_height() + 2 * py,
            forall|x: int, y: int|
                r.in_bounds(x, y) ==> r.cell(x, y) == self.pad_cell(
                    px as int,
                    py as int,
                    kind,
                    x,
                    y,
                ),
    {
        let wp: usize = self.width + 2 * px;
        let hp: usize = self.height + 2 * py;
        let mut cells: Vec<T> = Vec::new();
        let mut x: usize = 0;
        while x < wp
            invariant
                self.wf(),
                x <= wp,
                wp == self.spec_width() + 2 * px,
                hp == self.spec_height() + 2 * py,
                wp * hp <= usize::MAX,
                cells@.len() == x * hp,
                forall|a: int, b: int|
                    0 <= a < x && 0 <= b < hp ==> #[trigger] cells@[a * hp + b]
                        == self.pad_cell(px as int, py as int, kind, a, b),
            decreases wp - x,
        {
            let mut y: usize = 0;
            while y < hp
                invariant
                    self.wf(),
                    x < wp,
                    y <= hp,
                    wp == self.spec_width() + 2 * px,
                    hp == self.spec_height() + 2 * py,
                    wp * hp <= usize::MAX,
                    cells@.len() == x * hp + y,
                    forall|a: int, b: int|
                        0 <= a < x && 0 <= b < hp ==> #[trigger] cells@[a * hp + b]
                            == self.pad_cell(px as int, py as int, kind, a, b),
                    forall|b: int|
                        0 <= b < y ==> #[trigger] cells@[x as int * hp + b] == self.pad_cell(
                            px as int,
                            py as int,
                            kind,
                            x as int,
                            b,
                        ),
                decreases hp - y,
            {
                proof {
                    lemma_flat_index(x as int, y as int, hp as int);
                    lemma_flat_in_range(x as int, y as int, wp as int, hp as int);
                }
                let v: T = if x >= px && x < px + self.width && y >= py && y < py
                    + self.height {
                    *self.get(x - px, y - py)
                } else {
                    match &kind {
                        ArrayPaddingKind::Constant(t) => *t,
                        ArrayPaddingKind::Clamp => {
                            let cx: usize = if x < px {
                                0
                            } else if x - px > self.width - 1 {
                                self.width - 1
                            } else {
                                x - px
                            };
                            let cy: usize = if y < py {
                                0
                            } else if y - py > self.height - 1 {
                                self.height - 1
                            } else {
                                y - py
                            };
                            *self.get(cx, cy)
                        },
                    }
                };
                cells.push(v);
                proof {
                    assert forall|a: int, b: int| 0 <= a < x && 0 <= b < hp implies #[trigger] cells@[a
                        * hp + b] == self.pad_cell(px as int, py as int, kind, a, b) by {
                        lemma_flat_in_range(a, b, x as int, hp as int);
                    }
                }
                y = y + 1;
            }
            proof {
                assert(x as int * hp + hp == (x + 1) * hp) by (nonlinear_arith);
                assert forall|a: int, b: int| 0 <= a < x + 1 && 0 <= b < hp implies #[trigger] cells@[a
                    * hp + b] == self.pad_cell(px as int, py as int, kind, a, b) by {
                    if a == x as int {
                        assert(cells@[x as int * hp + b] == self.pad_cell(
                            px as int,
                            py as int,
                            kind,
                            x as int,
                            b,
                        ));
                    }
                }
            }
            x = x + 1;
        }
        proof {
            assert forall|a: int, b: int| 0 <= a < wp && 0 <= b < hp implies #[trigger] cells@[a
                * hp + b] == self.pad_cell(px as int, py as int, kind, a, b) by {}
        }
        Grid { width: wp, height: hp, cells }
    }
}

} // verus!
