//! Seeded instance generator: four distributions of item sizes.

use rand::rngs::StdRng;
use rand::{Rng, SeedableRng};
use vstd::prelude::*;
use vstd::wrapping::u64_specs;
use crate::packing::{CAPACITY, HUNDREDTH};
use crate::validity::sizes_fit;
use crate::text::same_text;

verus! {

#[verifier::external_type_specification]
#[verifier::external_body]
pub struct ExStdRng(StdRng);

/// Distribution the instance generator draws sizes from.
#[derive(Debug, Clone, Copy, PartialEq, Eq, Structural)]
pub enum Distribution {
    /// U(0, 1] — small and large items mixed.
    UniformContinuous,
    /// U{1/100, ..., 1} — sizes in hundredths of a bin.
    UniformDiscrete100,
    /// Items only in (1/4, 1/2] — the hard case (3-Partition).
    ThreePartition,
    /// Falkenauer U{1/10, ..., 1/2} — mean 0.275, an "easy" case for FFD.
    FalkenauerU120,
}

impl Distribution {
    /// The name of the distribution.
    pub open spec fn name_text(self) -> Seq<char> {
        match self {
            Distribution::UniformContinuous => "uniforme_continua"@,
            Distribution::UniformDiscrete100 => "uniforme_discreta_100"@,
            Distribution::ThreePartition => "tres_particao"@,
            Distribution::FalkenauerU120 => "falkenauer_u120"@,
        }
    }

    /// The name of the distribution, as the command line spells it.
    pub fn name(self) -> (s: &'static str)
        ensures
            s@ == self.name_text(),
    {
        match self {
            Distribution::UniformContinuous => "uniforme_continua",
            Distribution::UniformDiscrete100 => "uniforme_discreta_100",
            Distribution::ThreePartition => "tres_particao",
            Distribution::FalkenauerU120 => "falkenauer_u120",
        }
    }

    /// Every distribution, in declaration order.
    pub fn all() -> (ds: [Distribution; 4])
        ensures
            ds@ == seq![
                Distribution::UniformContinuous,
                Distribution::UniformDiscrete100,
                Distribution::ThreePartition,
                Distribution::FalkenauerU120,
            ],
    {
        let ds = [
            Distribution::UniformContinuous,
            Distribution::UniformDiscrete100,
            Distribution::ThreePartition,
            Distribution::FalkenauerU120,
        ];
        assert(ds@ =~= seq![
            Distribution::UniformContinuous,
            Distribution::UniformDiscrete100,
            Distribution::ThreePartition,
            Distribution::FalkenauerU120,
        ]);
        ds
    }

    /// The distribution with the given name, if any.
    pub fn from_name(name: &str) -> (d: Option<Distribution>)
        ensures
            d matches Some(x) ==> name@ == x.name_text(),
            d is None ==> forall|x: Distribution| name@ != #[trigger] x.name_text(),
    {
        if same_text(name, Distribution::UniformContinuous.name()) {
            Some(Distribution::UniformContinuous)
        } else if same_text(name, Distribution::UniformDiscrete100.name()) {
            Some(Distribution::UniformDiscrete100)
        } else if same_text(name, Distribution::ThreePartition.name()) {
            Some(Distribution::ThreePartition)
        } else if same_text(name, Distribution::FalkenauerU120.name()) {
            Some(Distribution::FalkenauerU120)
        } else {
            proof {
                assert forall|x: Distribution| name@ != #[trigger] x.name_text() by {
                    match x {
                        Distribution::UniformContinuous => {},
                        Distribution::UniformDiscrete100 => {},
                        Distribution::ThreePartition => {},
                        Distribution::FalkenauerU120 => {},
                    }
                }
            }
            None
        }
    }

    /// For a distribution in hundredths of a bin: the least and the largest
    /// number of hundredths drawn.
    pub open spec fn hundredths_bounds(self) -> (int, int)
        recommends
            self != Distribution::UniformContinuous,
    {
        match self {
            Distribution::UniformDiscrete100 => (1, 100),
            Distribution::ThreePartition => (26, 50),
            Distribution::FalkenauerU120 => (10, 50),
            Distribution::UniformContinuous => (0, 0),
        }
    }

    /// The range of hundredths drawn by a distribution in hundredths.
    pub fn hundredths_range(self) -> (r: (i32, i32))
        requires
            self != Distribution::UniformContinuous,
        ensures
            r.0 == self.hundredths_bounds().0,
            r.1 == self.hundredths_bounds().1,
    {
        match self {
            Distribution::UniformDiscrete100 => (1, 100),
            // 26..=50 hundredths => sizes in (0.25, 0.50]
            Distribution::ThreePartition => (26, 50),
            // U{1/10, ..., 1/2} — mean 0.275
            Distribution::FalkenauerU120 => (10, 50),
            Distribution::UniformContinuous => (0, 0),
        }
    }

    /// The sizes the distribution can produce.
    pub open spec fn in_support(self, s: int) -> bool {
        match self {
            Distribution::UniformContinuous => s % 100 == 0 && 0 < s <= CAPACITY,
            _ => in_hundredths(s, self.hundredths_bounds().0, self.hundredths_bounds().1),
        }
    }
}

/// `s` is a whole number of hundredths of a bin, between `lo` and `hi`.
pub open spec fn in_hundredths(s: int, lo: int, hi: int) -> bool {
    s % (HUNDREDTH as int) == 0 && lo * HUNDREDTH <= s <= hi * HUNDREDTH
}

/// Each distribution has its own name.
pub proof fn law_names_identify(d1: Distribution, d2: Distribution)
    ensures
        d1.name_text() == d2.name_text() ==> d1 == d2,
{
    reveal_strlit("uniforme_continua");
    reveal_strlit("uniforme_discreta_100");
    reveal_strlit("tres_particao");
    reveal_strlit("falkenauer_u120");
    if d1.name_text() == d2.name_text() && d1 != d2 {
        assert(d1.name_text().len() == d2.name_text().len());
        assert(d1.name_text()[0] == d2.name_text()[0]);
    }
}

/// The splitmix64 bit mixer.
pub open spec fn splitmix64_spec(x: u64) -> u64 {
    let x1 = u64_specs::wrapping_add(x, 0x9E3779B97F4A7C15u64);
    let z1 = u64_specs::wrapping_mul(x1 ^ (x1 >> 30u64), 0xBF58476D1CE4E5B9u64);
    let z2 = u64_specs::wrapping_mul(z1 ^ (z1 >> 27u64), 0x94D049BB133111EBu64);
    z2 ^ (z2 >> 31u64)
}

/// Bit mixer (splitmix64) — deterministic and independent of the version
/// of the random-number crate.
pub fn splitmix64(x: u64) -> (z: u64)
    ensures
        z == splitmix64_spec(x),
{
    let x = x.wrapping_add(0x9E3779B97F4A7C15);
    let mut z = x;
    z = (z ^ (z >> 30)).wrapping_mul(0xBF58476D1CE4E5B9);
    z = (z ^ (z >> 27)).wrapping_mul(0x94D049BB133111EB);
    z ^ (z >> 31)
}

/// The seed of the random generator for an instance of `n` items: `seed`
/// mixed with `n`, so that instances of different sizes are uncorrelated.
pub fn generator_seed(n: usize, seed: u64) -> (mixed: u64)
    ensures
        mixed == splitmix64_spec(seed ^ u64_specs::wrapping_mul(n as u64, 0x9E3779B97F4A7C15u64)),
{
    splitmix64(seed ^ (n as u64).wrapping_mul(0x9E3779B97F4A7C15))
}

/// The size of an item drawn uniformly in (0, 1] of a bin with a 53-bit
/// denominator, from 64 random bits: their top 53 bits plus one, in
/// 2^-53 steps of a bin.
pub fn continuous_size(bits: u64) -> (s: u64)
    ensures
        s == ((bits >> 11u64) + 1) * 100,
        Distribution::UniformContinuous.in_support(s as int),
{
    let top: u64 = bits >> 11;
    assert(top < 0x20_0000_0000_0000) by (bit_vector)
        requires
            top == bits >> 11u64,
    ;
    (top + 1) * 100
}

/// The size of an item of `k` hundredths of a bin.
pub fn hundredths_size(k: i32) -> (s: u64)
    requires
        0 <= k <= 100,
    ensures
        s == k * HUNDREDTH,
{
    (k as u64) * HUNDREDTH
}

/// `rand::rngs::StdRng::seed_from_u64` (from `SeedableRng`): a generator
/// seeded from `seed`. Nothing is stated of the generator.
#[verifier::external_body]
fn seeded_rng(seed: u64) -> StdRng {
    StdRng::seed_from_u64(seed)
}

/// `rand::Rng::gen::<u64>`: 64 random bits. Any value can come back, so
/// nothing is stated of it.
#[verifier::external_body]
fn random_bits(rng: &mut StdRng) -> u64 {
    rng.gen::<u64>()
}

/// `rand::Rng::gen_range(lo..=hi)` on `i32`: a value in `[lo, hi]`; the
/// call panics on an empty range, hence `lo <= hi`. Which value comes back
/// is not stated.
#[verifier::external_body]
fn random_in_range(rng: &mut StdRng, lo: i32, hi: i32) -> (k: i32)
    requires
        lo <= hi,
    ensures
        lo <= k <= hi,
{
    rng.gen_range(lo..=hi)
}

/// A number of hundredths drawn over the whole range of a distribution in
/// hundredths.
fn draw_hundredths(rng: &mut StdRng, dist: Distribution) -> (k: i32)
    requires
        dist != Distribution::UniformContinuous,
    ensures
        dist.hundredths_bounds().0 <= k <= dist.hundredths_bounds().1,
{
    let (lo, hi) = dist.hundredths_range();
    random_in_range(rng, lo, hi)
}

/// Generates an instance of `n` items with sizes in `(0, CAPACITY]`, drawn by
/// a generator seeded with `generator_seed(n, seed)`.
pub fn generate(n: usize, dist: Distribution, seed: u64) -> (items: Vec<u64>)
    ensures
        items@.len() == n,
        forall|i: int| 0 <= i < n ==> dist.in_support(#[trigger] items@[i] as int),
        forall|i: int| 0 <= i < n ==> 0 < #[trigger] items@[i] <= CAPACITY,
        sizes_fit(items@),
{
    let mut rng = seeded_rng(generator_seed(n, seed));
    let mut items: Vec<u64> = Vec::new();
    let mut i: usize = 0;
    while i < n
        invariant
            0 <= i <= n,
            items@.len() == i,
            forall|j: int| 0 <= j < i ==> dist.in_support(#[trigger] items@[j] as int),
        decreases n - i,
    {
        let s = match dist {
            Distribution::UniformContinuous => continuous_size(random_bits(&mut rng)),
            _ => {
                hundredths_size(draw_hundredths(&mut rng, dist))
            },
        };
        items.push(s);
        i = i + 1;
    }
    proof {
        assert forall|i: int| 0 <= i < items@.len() implies 0 < #[trigger] items@[i] <= CAPACITY by {
            assert(dist.in_support(items@[i] as int));
        }
    }
    items
}

} // verus!
