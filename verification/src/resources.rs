//! The ground-truth resource field: generated from the biome layout, then
//! drifted each tick by a long-tailed stochastic rule over 3x3 neighborhoods.

use vstd::prelude::*;

use crate::biome::BiomeField;
use crate::dist::MAX_DIM;
use crate::grid::ArrayPaddingKind;
use crate::grid::Grid;
use crate::grid::lemma_flat_in_range;
use crate::grid::lemma_flat_index;
use crate::kind::KIND_COUNT;
use crate::kind::ResourceKind;
use crate::rng::rand_below;

verus! {

/// Every cell's kind was drawable in its nearest biome: its weight there is
/// positive.
pub open spec fn cells_match_biomes(g: Grid<ResourceKind>, biomes: BiomeField) -> bool {
    forall|x: int, y: int|
        g.in_bounds(x, y) ==> biomes.nearest_biome(x, y).spec_weight(
            (#[trigger] g.cell(x, y)).index_spec(),
        ) > 0
}

/// Sample the initial resource field: each cell draws from the weighted
/// distribution of its nearest biome.
pub fn generate_resources(
    rng: &mut rand::rngs::StdRng,
    biomes: &BiomeField,
    width: usize,
    height: usize,
) -> (r: Grid<ResourceKind>)
    requires
        biomes.wf(),
        1 <= width <= MAX_DIM,
        1 <= height <= MAX_DIM,
    ensures
        r.wf(),
        r.spec_width() == width,
        r.spec_height() == height,
        cells_match_biomes(r, *biomes),
{
    let mut cells: Vec<ResourceKind> = Vec::new();
    let mut x: usize = 0;
    while x < width
        invariant
            x <= width,
            biomes.wf(),
            1 <= width <= MAX_DIM,
            1 <= height <= MAX_DIM,
            cells@.len() == x * height,
            forall|a: int, b: int|
                0 <= a < x && 0 <= b < height ==> biomes.nearest_biome(a, b).spec_weight(
                    (#[trigger] cells@[a * height + b]).index_spec(),
                ) > 0,
        decreases width - x,
    {
        let mut y: usize = 0;
        while y < height
            invariant
                x < width,
                y <= height,
                biomes.wf(),
                1 <= width <= MAX_DIM,
                1 <= height <= MAX_DIM,
                cells@.len() == x * height + y,
                forall|a: int, b: int|
                    0 <= a < x && 0 <= b < height ==> biomes.nearest_biome(a, b).spec_weight(
                        (#[trigger] cells@[a * height + b]).index_spec(),
                    ) > 0,
                forall|b: int|
                    0 <= b < y ==> biomes.nearest_biome(x as int, b).spec_weight(
                        (#[trigger] cells@[x as int * height + b]).index_spec(),
                    ) > 0,
            decreases height - y,
        {
            let k = biomes.get_biome(x, y).gen_resource(rng);
            cells.push(k);
            proof {
                lemma_flat_index(x as int, y as int, height as int);
                assert forall|a: int, b: int| 0 <= a < x && 0 <= b < height implies biomes
                    .nearest_biome(a, b).spec_weight(
                    (#[trigger] cells@[a * height + b]).index_spec(),
                ) > 0 by {
                    lemma_flat_in_range(a, b, x as int, height as int);
                }
            }
            y = y + 1;
        }
        proof {
            assert(x as int * height + height == (x + 1) * height) by (nonlinear_arith);
            assert forall|a: int, b: int| 0 <= a < x + 1 && 0 <= b < height implies biomes
                .nearest_biome(a, b).spec_weight(
                (#[trigger] cells@[a * height + b]).index_spec(),
            ) > 0 by {
                if a == x as int {
                    assert(cells@[x as int * height + b] == cells@[a * height + b]);
                }
            }
        }
        x = x + 1;
    }
    proof {
        assert(width * height >= 1) by (nonlinear_arith)
            requires width >= 1, height >= 1;
    }
    let g = Grid::from_vec(width, height, cells);
    proof {
        assert forall|x: int, y: int| g.in_bounds(x, y) implies biomes.nearest_biome(x, y)
            .spec_weight((#[trigger] g.cell(x, y)).index_spec()) > 0 by {}
    }
    g
}

/// The drift policy for one cell, deterministic in the drawn numbers: at
/// `roll <= 999_899` the cell keeps its current value (the center of its
/// clamped 3x3 window in the snapshot); at `roll <= 999_989` it adopts the
/// window cell chosen by `pick`; at `roll <= 999_998` it resamples from its
/// nearest biome's weighted distribution (a kind of positive weight there);
/// at `roll == 999_999` it takes the uniformly drawn kind `wild`.
///
/// `snapshot` is the pre-tick field padded by one clamped ring, so the
/// window of cell `(x, y)` sits at `(x .. x+2, y .. y+2)` with its center
/// at `(x+1, y+1)`.
pub fn drift_cell(
    rng: &mut rand::rngs::StdRng,
    biomes: &BiomeField,
    snapshot: &Grid<ResourceKind>,
    x: usize,
    y: usize,
    roll: u64,
    pick: u64,
    wild: u64,
) -> (k: ResourceKind)
    requires
        snapshot.wf(),
        biomes.wf(),
        x + 2 < snapshot.spec_width(),
        y + 2 < snapshot.spec_height(),
        x < MAX_DIM,
        y < MAX_DIM,
        roll < 1_000_000,
        pick < 9,
        wild < KIND_COUNT,
    ensures
        roll <= 999_899 ==> k == snapshot.cell(x + 1, y + 1),
        999_900 <= roll <= 999_989 ==> k == snapshot.cell(
            x + (pick as int) / 3,
            y + (pick as int) % 3,
        ),
        999_990 <= roll <= 999_998 ==> biomes.nearest_biome(x as int, y as int).spec_weight(
            k.index_spec(),
        ) > 0,
        roll == 999_999 ==> k == ResourceKind::from_index_spec(wild as int),
{
    if roll <= 999_899 {
        *snapshot.get(x + 1, y + 1)
    } else if roll <= 999_989 {
        let c = pick as usize;
        proof {
            assert(c / 3 <= 2 && c % 3 <= 2) by (nonlinear_arith)
                requires c < 9usize;
            assert((pick as int) / 3 == c / 3 && (pick as int) % 3 == c % 3);
        }
        *snapshot.get(x + c / 3, y + c % 3)
    } else if roll <= 999_998 {
        biomes.get_biome(x, y).gen_resource(rng)
    } else {
        ResourceKind::from_index(wild as usize)
    }
}

/// One stochastic drift step: per cell, keep the current value with
/// overwhelming probability; rarely adopt a uniformly chosen neighbor of the
/// edge-clamped 3x3 window; more rarely resample from the cell's biome; and
/// once in a million pick a uniformly random kind. Each cell follows the
/// [`drift_cell`] policy on its drawn numbers; all reads come from a
/// snapshot of the pre-tick field.
pub fn resources_tick(
    rng: &mut rand::rngs::StdRng,
    biomes: &BiomeField,
    grid: &mut Grid<ResourceKind>,
)
    requires
        old(grid).wf(),
        biomes.wf(),
        old(grid).spec_width() <= MAX_DIM,
        old(grid).spec_height() <= MAX_DIM,
    ensures
        final(grid).wf(),
        final(grid).spec_width() == old(grid).spec_width(),
        final(grid).spec_height() == old(grid).spec_height(),
{
    proof {
        let w = grid.spec_width();
        let h = grid.spec_height();
        assert((w + 2) * (h + 2) <= usize::MAX) by (nonlinear_arith)
            requires
                1 <= w <= 3_000,
                1 <= h <= 3_000,
        ;
    }
    let snapshot = grid.pad(1, 1, ArrayPaddingKind::Clamp);
    let width = grid.width();
    let height = grid.height();
    let mut x: usize = 0;
    while x < width
        invariant
            x <= width,
            biomes.wf(),
            grid.wf(),
            snapshot.wf(),
            grid.spec_width() == width,
            grid.spec_height() == height,
            width <= MAX_DIM,
            height <= MAX_DIM,
            snapshot.spec_width() == width + 2,
            snapshot.spec_height() == height + 2,
        decreases width - x,
    {
        let mut y: usize = 0;
        while y < height
            invariant
                x < width,
                y <= height,
                biomes.wf(),
                grid.wf(),
                snapshot.wf(),
                grid.spec_width() == width,
                grid.spec_height() == height,
                width <= MAX_DIM,
                height <= MAX_DIM,
                snapshot.spec_width() == width + 2,
                snapshot.spec_height() == height + 2,
            decreases height - y,
        {
            let roll = rand_below(rng, 1_000_000);
            let pick: u64 = if 999_900 <= roll && roll <= 999_989 {
                rand_below(rng, 9)
            } else {
                0
            };
            let wild: u64 = if roll == 999_999 {
                rand_below(rng, KIND_COUNT as u64)
            } else {
                0
            };
            let k = drift_cell(rng, biomes, &snapshot, x, y, roll, pick, wild);
            grid.set(x, y, k);
            y = y + 1;
        }
        x = x + 1;
    }
}

} // verus!
