use vstd::prelude::*;

use vstd::arithmetic::div_mod::lemma_div_is_ordered_by_denominator;

use crate::error::InitializationError;
use crate::index_params::IndexParams;

verus! {

/// Bytes of an element header: the label and the element's top level, each a
/// little-endian `u32`.
pub const HEADER_SIZE: u64 = 8;

/// Bytes of one link slot: a little-endian `u64` reference to a neighbour.
pub const LINK_SLOT_SIZE: u64 = 8;

/// Bytes of one vector component: the bit pattern of an `f32`.
pub const VECTOR_ELEMENT_SIZE: u64 = 4;

/// Levels are kept while their probability is at least `1 / PROBABILITY_CUTOFF_INVERSE`.
pub const PROBABILITY_CUTOFF_INVERSE: u128 = 1_000_000_000_000;

/// `b` raised to the power `e`.
pub open spec fn power(b: int, e: nat) -> int
    decreases e,
{
    if e == 0 {
        1
    } else {
        b * power(b, (e - 1) as nat)
    }
}

/// With `mL = 1 / ln(m)`, the probability that an element's top level is
/// `level` is `exp(-level / mL) * (1 - exp(-1 / mL))`, which is exactly
/// `(m - 1) / m^(level + 1)`. A level is kept while that value is at least
/// `1e-12`.
pub open spec fn level_kept(m: int, level: nat) -> bool {
    (m - 1) * PROBABILITY_CUTOFF_INVERSE >= power(m, level + 1)
}

/// The probability of one level as an exact fraction.
#[derive(Clone, Copy, Debug, PartialEq, Eq)]
pub struct LevelProbability {
    pub numerator: u64,
    pub denominator: u128,
}

impl LevelProbability {
    /// This is the probability of `level` for link budget `m`.
    pub open spec fn is_level_of(&self, m: int, level: nat) -> bool {
        &&& self.numerator == m - 1
        &&& self.denominator == power(m, level + 1)
    }

    /// `self` is strictly smaller than `other`.
    pub open spec fn less_than(&self, other: LevelProbability) -> bool {
        self.numerator * other.denominator < other.numerator * self.denominator
    }
}

/// The probabilities of all kept levels of link budget `m`, from level 0 up.
pub open spec fn is_probability_table(m: int, table: Seq<LevelProbability>) -> bool {
    &&& forall|i: int| 0 <= i < table.len() ==> (#[trigger] table[i]).is_level_of(m, i as nat)
    &&& forall|i: int| 0 <= i < table.len() ==> #[trigger] level_kept(m, i as nat)
    &&& !level_kept(m, table.len())
}

pub(crate) proof fn lemma_power_positive(b: int, e: nat)
    requires
        b > 0,
    ensures
        power(b, e) > 0,
    decreases e,
{
    if e > 0 {
        lemma_power_positive(b, (e - 1) as nat);
        assert(b * power(b, (e - 1) as nat) > 0) by (nonlinear_arith)
            requires
                b > 0,
                power(b, (e - 1) as nat) > 0,
        ;
    }
}

pub(crate) proof fn lemma_power_strictly_increases(b: int, i: nat, j: nat)
    requires
        b > 1,
        i < j,
    ensures
        power(b, i) < power(b, j),
    decreases j,
{
    lemma_power_positive(b, (j - 1) as nat);
    if i < j - 1 {
        lemma_power_strictly_increases(b, i, (j - 1) as nat);
    }
    assert(power(b, (j - 1) as nat) < b * power(b, (j - 1) as nat)) by (nonlinear_arith)
        requires
            b > 1,
            power(b, (j - 1) as nat) > 0,
    ;
}

proof fn lemma_power_base_monotone(a: int, b: int, e: nat)
    requires
        1 <= a <= b,
    ensures
        power(a, e) <= power(b, e),
    decreases e,
{
    if e > 0 {
        lemma_power_base_monotone(a, b, (e - 1) as nat);
        lemma_power_positive(a, (e - 1) as nat);
        assert(a * power(a, (e - 1) as nat) <= b * power(b, (e - 1) as nat)) by (nonlinear_arith)
            requires
                1 <= a <= b,
                0 < power(a, (e - 1) as nat) <= power(b, (e - 1) as nat),
        ;
    }
}

/// No level from 40 up is ever kept.
proof fn lemma_levels_end(m: int, level: nat)
    requires
        m > 1,
        level >= 40,
    ensures
        !level_kept(m, level),
{
    reveal_with_fuel(power, 41);
    assert(power(2, 40) == 1_099_511_627_776);
    if level > 40 {
        lemma_power_strictly_increases(2, 40, level);
    }
    lemma_power_base_monotone(2, m, level);
    let p = power(m, level);
    assert(power(m, level + 1) == m * p);
    assert(m * p > (m - 1) * PROBABILITY_CUTOFF_INVERSE) by (nonlinear_arith)
        requires
            m > 1,
            p >= 1_099_511_627_776,
    ;
}

/// The level probabilities strictly decrease, and once a level is dropped
/// every level above it is dropped too, so the table is finite (at most 40
/// levels).
pub proof fn lemma_probabilities_decrease_and_end(
    m: int,
    table: Seq<LevelProbability>,
    i: nat,
    j: nat,
)
    requires
        m > 1,
        is_probability_table(m, table),
        i < j,
    ensures
        j < table.len() ==> table[j as int].less_than(table[i as int]),
        !level_kept(m, i) ==> !level_kept(m, j),
        table.len() <= 40,
{
    lemma_power_strictly_increases(m, i + 1, j + 1);
    if j < table.len() {
        assert(table[i as int].is_level_of(m, i));
        assert(table[j as int].is_level_of(m, j));
        let n = m - 1;
        let di = power(m, i + 1);
        let dj = power(m, j + 1);
        assert(n * di < n * dj) by (nonlinear_arith)
            requires
                n > 0,
                di < dj,
        ;
    }
    if table.len() > 40 {
        lemma_levels_end(m, 40);
        assert(table[40].is_level_of(m, 40));
    }
}

/// Computes the probability of each level, from level 0 up to the last one
/// whose probability is at least `1e-12`.
pub fn calculate_layer_probabilities(params: &IndexParams) -> (r: Result<
    Vec<LevelProbability>,
    InitializationError,
>)
    ensures
        params.m <= 1 <==> r is Err,
        r is Err ==> r == Err::<Vec<LevelProbability>, _>(InitializationError::InvalidParams),
        r matches Ok(table) ==> is_probability_table(params.m as int, table@),
        r matches Ok(table) ==> 1 <= table@.len() <= 40,
{
    if params.m <= 1 {
        return Err(InitializationError::InvalidParams);
    }
    let m = params.m as u128;
    let numerator = (params.m - 1) as u64;
    let bound: u128 = (m - 1) * PROBABILITY_CUTOFF_INVERSE;
    let mut table: Vec<LevelProbability> = Vec::new();
    let mut denominator: u128 = m;
    let mut level: usize = 0;
    proof {
        reveal_with_fuel(power, 2);
    }
    while denominator <= bound
        invariant
            m == params.m,
            1 < m <= u32::MAX,
            numerator == m - 1,
            bound == (m - 1) * PROBABILITY_CUTOFF_INVERSE,
            level == table@.len(),
            level <= 40,
            denominator == power(m as int, (level + 1) as nat),
            forall|i: int| 0 <= i < table@.len() ==> (#[trigger] table@[i]).is_level_of(m as int, i as nat),
            forall|i: int| 0 <= i < table@.len() ==> #[trigger] level_kept(m as int, i as nat),
        decreases 40 - level,
    {
        proof {
            if level >= 40 {
                lemma_levels_end(m as int, level as nat);
            }
        }
        table.push(LevelProbability { numerator, denominator });
        assert(m * denominator < 0x1_0000_0000 * 0x1_0000_0000 * PROBABILITY_CUTOFF_INVERSE)
            by (nonlinear_arith)
            requires
                denominator <= bound,
                bound == (m - 1) * PROBABILITY_CUTOFF_INVERSE,
                1 < m <= u32::MAX,
        ;
        denominator = m * denominator;
        level = level + 1;
        assert(denominator == power(m as int, (level + 1) as nat));
    }
    proof {
        if level == 0 {
            assert(power(m as int, 1) == m);
        }
    }
    Ok(table)
}

/// Link slots reserved by an element whose top level is `level`: `m0` for the
/// base level and `m` for each level above it.
pub open spec fn max_links_spec(p: IndexParams, level: nat) -> int {
    p.m0 + p.m * level
}

/// Bytes of the record of an element whose top level is `level`: the header,
/// its link slots, and one copy of the vector.
pub open spec fn bytes_per_element_spec(p: IndexParams, level: nat) -> int {
    HEADER_SIZE + max_links_spec(p, level) * LINK_SLOT_SIZE + p.dimension * VECTOR_ELEMENT_SIZE
}

/// `floor(probability(level) * max_elems)`.
pub open spec fn estimated_element_count_spec(p: IndexParams, level: nat) -> int {
    (p.max_elems * (p.m - 1)) / power(p.m as int, level + 1)
}

/// Bytes expected for all elements whose top level is `level`.
pub open spec fn estimated_size_spec(p: IndexParams, level: nat) -> int {
    estimated_element_count_spec(p, level) * bytes_per_element_spec(p, level)
}

/// Bytes expected for all elements whose top level is below `n`.
pub open spec fn total_size_spec(p: IndexParams, n: nat) -> int
    decreases n,
{
    if n == 0 {
        0
    } else {
        total_size_spec(p, (n - 1) as nat) + estimated_size_spec(p, (n - 1) as nat)
    }
}

/// Sizing of one hierarchy level.
#[derive(Clone, Copy, Debug, PartialEq, Eq)]
pub struct Layer {
    pub level: u32,
    /// Probability that an element's top level is this one.
    pub probability: LevelProbability,
    /// Link slots of an element whose top level is this one, over all of its levels.
    pub max_links_per_element: u64,
    /// Bytes of the record of an element whose top level is this one.
    pub bytes_per_element: u64,
    /// Expected number of elements whose top level is this one.
    pub estimated_element_count: u64,
    /// `estimated_element_count * bytes_per_element`.
    pub estimated_size_bytes: u128,
}

impl Layer {
    /// This is the sizing of `level` under `p`.
    pub open spec fn describes(&self, p: IndexParams, level: nat) -> bool {
        &&& self.level == level
        &&& self.probability.is_level_of(p.m as int, level)
        &&& self.max_links_per_element == max_links_spec(p, level)
        &&& self.bytes_per_element == bytes_per_element_spec(p, level)
        &&& self.estimated_element_count == estimated_element_count_spec(p, level)
        &&& self.estimated_size_bytes == estimated_size_spec(p, level)
    }

    /// Sizes `level`, whose probability is `probability`.
    pub fn new(params: &IndexParams, level: u32, probability: LevelProbability) -> (r: Layer)
        requires
            params.m > 1,
            level < 40,
            probability.is_level_of(params.m as int, level as nat),
        ensures
            r.describes(*params, level as nat),
    {
        assert(params.m * level <= 0xffff_ffff * 40) by (nonlinear_arith)
            requires
                params.m <= 0xffff_ffff,
                level < 40,
        ;
        let max_links_per_element = params.m0 as u64 + params.m as u64 * level as u64;
        let links_size_in_bytes = LINK_SLOT_SIZE * max_links_per_element;
        let data_size_bytes = VECTOR_ELEMENT_SIZE * params.dimension as u64;
        let bytes_per_element = HEADER_SIZE + links_size_in_bytes + data_size_bytes;
        proof {
            lemma_power_positive(params.m as int, (level + 1) as nat);
        }
        assert(params.max_elems * (params.m - 1) <= 0xffff_ffff * 0xffff_ffff) by (nonlinear_arith)
            requires
                params.m > 1,
                params.m <= 0xffff_ffff,
                params.max_elems <= 0xffff_ffff,
        ;
        let scaled = params.max_elems as u128 * (params.m - 1) as u128;
        let count = scaled / probability.denominator;
        assert(scaled <= 0xffff_ffff * 0xffff_ffff) by (nonlinear_arith)
            requires
                scaled == params.max_elems * (params.m - 1),
                params.m > 1,
                params.m <= 0xffff_ffff,
                params.max_elems <= 0xffff_ffff,
        ;
        proof {
            lemma_div_is_ordered_by_denominator(scaled as int, 1, probability.denominator as int);
        }
        let estimated_element_count = count as u64;
        assert(estimated_element_count * bytes_per_element <= 0xffff_ffff_ffff_ffff
            * 0xffff_ffff_ffff_ffff) by (nonlinear_arith)
            requires
                estimated_element_count <= 0xffff_ffff_ffff_ffff,
                bytes_per_element <= 0xffff_ffff_ffff_ffff,
        ;
        let estimated_size_bytes = estimated_element_count as u128 * bytes_per_element as u128;
        Layer {
            level,
            probability,
            max_links_per_element,
            bytes_per_element,
            estimated_element_count,
            estimated_size_bytes,
        }
    }
}

/// The sum of the estimated element counts of all levels above the base level.
pub open spec fn upper_levels_count(layers: Seq<Layer>) -> int
    decreases layers.len(),
{
    if layers.len() <= 1 {
        0
    } else {
        upper_levels_count(layers.drop_last()) + layers.last().estimated_element_count
    }
}

/// The sum of the estimated element counts of all levels.
pub open spec fn levels_count(layers: Seq<Layer>) -> int
    decreases layers.len(),
{
    if layers.len() == 0 {
        0
    } else {
        levels_count(layers.drop_last()) + layers.last().estimated_element_count
    }
}

/// `layers` sizes levels `0 .. layers.len()` under `p`.
pub open spec fn describes_levels(layers: Seq<Layer>, p: IndexParams) -> bool {
    forall|i: int| 0 <= i < layers.len() ==> (#[trigger] layers[i]).describes(p, i as nat)
}

proof fn lemma_upper_levels_bound(layers: Seq<Layer>, p: IndexParams)
    requires
        p.valid(),
        layers.len() >= 1,
        describes_levels(layers, p),
    ensures
        upper_levels_count(layers) * power(p.m as int, layers.len()) <= p.max_elems * (power(
            p.m as int,
            (layers.len() - 1) as nat,
        ) - 1),
    decreases layers.len(),
{
    let m = p.m as int;
    let big_n = p.max_elems as int;
    let n = layers.len();
    if n == 1 {
        assert(power(m, 0) == 1);
    } else {
        let prev = layers.drop_last();
        assert(describes_levels(prev, p)) by {
            assert forall|i: int| 0 <= i < prev.len() implies #[trigger] prev[i].describes(p, i as nat) by {
                assert(layers[i].describes(p, i as nat));
            }
        }
        lemma_upper_levels_bound(prev, p);
        assert(layers[n - 1].describes(p, (n - 1) as nat));
        let c = layers.last().estimated_element_count as int;
        let u = upper_levels_count(prev);
        let d = power(m, n);
        let dp = power(m, (n - 1) as nat);
        let dpp = power(m, (n - 2) as nat);
        lemma_power_positive(m, n);
        assert(d == m * dp);
        assert(dp == m * dpp);
        assert(c == (big_n * (m - 1)) / d);
        assert(c * d <= big_n * (m - 1)) by (nonlinear_arith)
            requires
                c == (big_n * (m - 1)) / d,
                d > 0,
        ;
        assert(u * dp <= big_n * (dpp - 1));
        assert((u + c) * d <= big_n * (dp - 1)) by (nonlinear_arith)
            requires
                c * d <= big_n * (m - 1),
                u * dp <= big_n * (dpp - 1),
                d == m * dp,
                dp == m * dpp,
                m > 1,
        ;
    }
}

proof fn lemma_levels_bound(layers: Seq<Layer>, p: IndexParams)
    requires
        p.valid(),
        describes_levels(layers, p),
    ensures
        levels_count(layers) * power(p.m as int, layers.len()) <= p.max_elems * (power(
            p.m as int,
            layers.len(),
        ) - 1),
    decreases layers.len(),
{
    let m = p.m as int;
    let big_n = p.max_elems as int;
    let n = layers.len();
    if n > 0 {
        let prev = layers.drop_last();
        assert(describes_levels(prev, p)) by {
            assert forall|i: int| 0 <= i < prev.len() implies (#[trigger] prev[i]).describes(
                p,
                i as nat,
            ) by {
                assert(layers[i].describes(p, i as nat));
            }
        }
        lemma_levels_bound(prev, p);
        assert(layers[n - 1].describes(p, (n - 1) as nat));
        let c = layers.last().estimated_element_count as int;
        let u = levels_count(prev);
        let d = power(m, n);
        let dp = power(m, (n - 1) as nat);
        lemma_power_positive(m, n);
        assert(d == m * dp);
        assert(c == (big_n * (m - 1)) / d);
        assert(c * d <= big_n * (m - 1)) by (nonlinear_arith)
            requires
                c == (big_n * (m - 1)) / d,
                d > 0,
        ;
        assert((u + c) * d <= big_n * (d - 1)) by (nonlinear_arith)
            requires
                c * d <= big_n * (m - 1),
                u * dp <= big_n * (dp - 1),
                d == m * dp,
                m > 1,
        ;
    }
}

/// Every element exists at the base level and only a shrinking fraction climbs
/// higher: the estimated element counts of all levels above the base level sum
/// to less than `max_elems`, and so do those of all levels together.
pub proof fn lemma_upper_levels_below_capacity(layers: Seq<Layer>, p: IndexParams)
    requires
        p.valid(),
        describes_levels(layers, p),
    ensures
        upper_levels_count(layers) < p.max_elems,
        levels_count(layers) < p.max_elems,
{
    lemma_levels_bound(layers, p);
    lemma_power_positive(p.m as int, layers.len());
    let t = levels_count(layers);
    let d = power(p.m as int, layers.len());
    let big_n = p.max_elems as int;
    assert(t < big_n) by (nonlinear_arith)
        requires
            t * d <= big_n * (d - 1),
            d > 0,
            big_n > 0,
    ;
    if layers.len() >= 1 {
        lemma_upper_levels_bound(layers, p);
        let m = p.m as int;
        let big_n = p.max_elems as int;
        let u = upper_levels_count(layers);
        let d = power(m, layers.len());
        let dp = power(m, (layers.len() - 1) as nat);
        lemma_power_positive(m, (layers.len() - 1) as nat);
        assert(d == m * dp);
        assert(u < big_n) by (nonlinear_arith)
            requires
                u * d <= big_n * (dp - 1),
                d == m * dp,
                dp > 0,
                m > 1,
                big_n > 0,
        ;
    }
}

/// The bytes expected for one level stay far below `2^105`.
pub(crate) proof fn lemma_layer_size_bound(layer: Layer, p: IndexParams, level: nat)
    requires
        p.valid(),
        level < 40,
        layer.describes(p, level),
    ensures
        layer.estimated_size_bytes < 0x200_0000_0000_0000_0000_0000_0000,
        layer.bytes_per_element < 0x200_0000_0000,
{
    let scaled = p.max_elems * (p.m - 1);
    let d = power(p.m as int, level + 1);
    lemma_power_positive(p.m as int, level + 1);
    lemma_div_is_ordered_by_denominator(scaled, 1, d);
    assert(scaled < 0x1_0000_0000_0000_0000) by (nonlinear_arith)
        requires
            scaled == p.max_elems * (p.m - 1),
            p.m > 1,
            p.m <= 0xffff_ffff,
            p.max_elems <= 0xffff_ffff,
    ;
    assert(p.m * level <= 0xffff_ffff * 40) by (nonlinear_arith)
        requires
            p.m <= 0xffff_ffff,
            level < 40,
    ;
    let c = layer.estimated_element_count as int;
    let b = layer.bytes_per_element as int;
    assert(c * b < 0x200_0000_0000_0000_0000_0000_0000) by (nonlinear_arith)
        requires
            0 <= c < 0x1_0000_0000_0000_0000,
            0 <= b < 0x200_0000_0000,
    ;
}

} // verus!
