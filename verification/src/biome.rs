//! Regional biome centers: each grid cell belongs to its nearest center,
//! whose type fixes the weighted distribution its resources are drawn from.

use vstd::prelude::*;

use crate::dist::MAX_DIM;
use crate::kind::KIND_COUNT;
use crate::kind::ResourceKind;
use crate::order::first_min_idx;
use crate::order::first_min_index_u64;
use crate::order::ints_of_u64;
use crate::order::is_first_min;
use crate::prob::sum;
use crate::rng::rand_below;
use crate::rng::weighted_index_new;
use crate::rng::weighted_index_sample;

verus! {

/// Number of biome types.
pub const BIOME_COUNT: usize = 4;

/// Regional classification shaping resource generation near its center.
#[derive(Clone, Copy, PartialEq, Eq, Structural, Debug)]
pub enum Biome {
    Plains,
    Lake,
    Mountain,
    Graveyard,
}

impl Biome {
    pub open spec fn from_index_spec(i: int) -> Biome {
        if i == 0 {
            Biome::Plains
        } else if i == 1 {
            Biome::Lake
        } else if i == 2 {
            Biome::Mountain
        } else {
            Biome::Graveyard
        }
    }

    pub fn from_index(i: usize) -> (b: Biome)
        requires
            i < BIOME_COUNT,
        ensures
            b == Biome::from_index_spec(i as int),
    {
        if i == 0 {
            Biome::Plains
        } else if i == 1 {
            Biome::Lake
        } else if i == 2 {
            Biome::Mountain
        } else {
            Biome::Graveyard
        }
    }

    /// A uniformly random biome type.
    pub fn generate(rng: &mut rand::rngs::StdRng) -> Biome {
        let i = rand_below(rng, BIOME_COUNT as u64);
        Biome::from_index(i as usize)
    }

    /// Weight (in percent) of the kind at slot `i` in this biome's
    /// resource distribution.
    pub open spec fn spec_weight(self, i: int) -> u64 {
        match self {
            Biome::Plains => if i == 0 {
                20u64
            } else if i == 1 {
                75u64
            } else if i == 3 {
                5u64
            } else {
                0u64
            },
            Biome::Lake => if i == 2 {
                100u64
            } else {
                0u64
            },
            Biome::Mountain => if i == 0 || i == 1 || i == 2 {
                5u64
            } else if i == 3 {
                85u64
            } else {
                0u64
            },
            Biome::Graveyard => if i == 0 {
                90u64
            } else if i == 3 || i == 4 {
                5u64
            } else {
                0u64
            },
        }
    }

    /// The weights of this biome's resource distribution, one per kind.
    pub fn weights(&self) -> (v: Vec<u64>)
        ensures
            v@.len() == KIND_COUNT,
            forall|i: int| 0 <= i < KIND_COUNT ==> v@[i] == self.spec_weight(i),
            sum(v@) == 100,
    {
        let mut v: Vec<u64> = Vec::new();
        match self {
            Biome::Plains => {
                v.push(20);
                v.push(75);
                v.push(0);
                v.push(5);
                v.push(0);
            },
            Biome::Lake => {
                v.push(0);
                v.push(0);
                v.push(100);
                v.push(0);
                v.push(0);
            },
            Biome::Mountain => {
                v.push(5);
                v.push(5);
                v.push(5);
                v.push(85);
                v.push(0);
            },
            Biome::Graveyard => {
                v.push(90);
                v.push(0);
                v.push(0);
                v.push(5);
                v.push(5);
            },
        }
        proof {
            crate::prob::lemma_sum5(v@);
        }
        v
    }

    /// Draw a resource kind from this biome's weighted distribution; a kind
    /// of weight zero is never drawn.
    pub fn gen_resource(&self, rng: &mut rand::rngs::StdRng) -> (k: ResourceKind)
        ensures
            self.spec_weight(k.index_spec()) > 0,
    {
        let w = self.weights();
        let picker = weighted_index_new(&w);
        let i = weighted_index_sample(rng, &picker);
        ResourceKind::from_index(i)
    }
}

/// Squared Euclidean distance from `(x, y)` to a center.
pub open spec fn center_dsq(c: (usize, usize, Biome), x: int, y: int) -> int {
    (x - c.0) * (x - c.0) + (y - c.1) * (y - c.1)
}

/// The set of biome centers, placed once at generation.
pub struct BiomeField {
    centers: Vec<(usize, usize, Biome)>,
}

impl View for BiomeField {
    type V = Seq<(usize, usize, Biome)>;

    closed spec fn view(&self) -> Seq<(usize, usize, Biome)> {
        self.centers@
    }
}

impl BiomeField {
    pub open spec fn wf(self) -> bool {
        &&& self@.len() >= 1
        &&& forall|i: int|
            0 <= i < self@.len() ==> #[trigger] self@[i].0 < MAX_DIM && self@[i].1 < MAX_DIM
    }

    /// Squared distances from `(x, y)` to every center, in order.
    pub open spec fn dsq_seq(self, x: int, y: int) -> Seq<int> {
        Seq::new(self@.len(), |i: int| center_dsq(self@[i], x, y))
    }

    /// The biome of the first-encountered nearest center to `(x, y)`.
    pub open spec fn nearest_biome(self, x: int, y: int) -> Biome {
        self@[first_min_idx(self.dsq_seq(x, y))].2
    }

    /// Place `num_biomes` centers at random in-bounds positions with random
    /// types.
    pub fn generate(
        rng: &mut rand::rngs::StdRng,
        width: usize,
        height: usize,
        num_biomes: usize,
    ) -> (r: BiomeField)
        requires
            1 <= width <= MAX_DIM,
            1 <= height <= MAX_DIM,
            num_biomes >= 1,
        ensures
            r.wf(),
            r@.len() == num_biomes,
            forall|i: int|
                0 <= i < r@.len() ==> #[trigger] r@[i].0 < width && r@[i].1 < height,
    {
        let mut centers: Vec<(usize, usize, Biome)> = Vec::new();
        let mut i: usize = 0;
        while i < num_biomes
            invariant
                i <= num_biomes,
                centers@.len() == i,
                1 <= width <= MAX_DIM,
                1 <= height <= MAX_DIM,
                forall|j: int|
                    0 <= j < i ==> #[trigger] centers@[j].0 < width && centers@[j].1 < height,
            decreases num_biomes - i,
        {
            let cx = rand_below(rng, width as u64) as usize;
            let cy = rand_below(rng, height as u64) as usize;
            let b = Biome::generate(rng);
            centers.push((cx, cy, b));
            i = i + 1;
        }
        BiomeField { centers }
    }

    /// The biome of the nearest center by Euclidean distance, the
    /// first-placed center winning ties.
    pub fn get_biome(&self, x: usize, y: usize) -> (b: Biome)
        requires
            self.wf(),
            x < MAX_DIM,
            y < MAX_DIM,
        ensures
            is_first_min(self.dsq_seq(x as int, y as int), first_min_idx(
                self.dsq_seq(x as int, y as int),
            )),
            b == self.nearest_biome(x as int, y as int),
    {
        let ghost ds = self.dsq_seq(x as int, y as int);
        let mut dsqs: Vec<u64> = Vec::new();
        let mut i: usize = 0;
        while i < self.centers.len()
            invariant
                i <= self.centers@.len(),
                dsqs@.len() == i,
                self.wf(),
                x < MAX_DIM,
                y < MAX_DIM,
                ds == self.dsq_seq(x as int, y as int),
                forall|j: int| 0 <= j < i ==> dsqs@[j] as int == ds[j],
            decreases self.centers@.len() - i,
        {
            let (cx, cy, _) = self.centers[i];
            let dx: u64 = if x >= cx {
                (x - cx) as u64
            } else {
                (cx - x) as u64
            };
            let dy: u64 = if y >= cy {
                (y - cy) as u64
            } else {
                (cy - y) as u64
            };
            proof {
                let c = self@[i as int];
                assert(dx < 3_000 && dy < 3_000);
                assert(dx * dx + dy * dy < 18_000_000) by (nonlinear_arith)
                    requires dx < 3_000u64, dy < 3_000u64;
                assert(dx * dx + dy * dy == center_dsq(c, x as int, y as int))
                    by (nonlinear_arith)
                    requires
                        dx == if x >= c.0 {
                            x - c.0
                        } else {
                            c.0 - x
                        },
                        dy == if y >= c.1 {
                            y - c.1
                        } else {
                            c.1 - y
                        },
                        center_dsq(c, x as int, y as int) == (x - c.0) * (x - c.0) + (y - c.1)
                            * (y - c.1),
                ;
            }
            dsqs.push(dx * dx + dy * dy);
            i = i + 1;
        }
        proof {
            assert(ints_of_u64(dsqs@) =~= ds);
        }
        let best = first_min_index_u64(&dsqs);
        let (_, _, b) = self.centers[best];
        b
    }
}

} // verus!
