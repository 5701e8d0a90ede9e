//! The fields of view that a solve is tried with.

use vstd::arithmetic::div_mod::lemma_fundamental_div_mod;
use vstd::arithmetic::power2::{lemma2_to64, lemma2_to64_rest, lemma_pow2_adds, lemma_pow2_pos, pow2};
use vstd::prelude::*;

use crate::arithmetic::{
    apart, lemma_double_of, lemma_double_of_exact, lemma_finite_is_double, lemma_rounded_error, lemma_size,
};
use crate::number::{lemma_magnitude_increases, magnitude_units, one, Double, INFINITE, LEADING};
use crate::rounding::{
    distance, double_of, law_rounding_is_nearest, lemma_level_bounds, lemma_nearest_is_double, lemma_nearest_scales,
    level, nearest_units,
};

verus! {

/// A seed `s` solves fields whose true width lies in `[0.75 * s, 1.75 * s]`: the
/// encoding of 0.75.
pub const SEED_COVERS_BELOW: u64 = 0x3fe8_0000_0000_0000;

/// The encoding of 1.75.
pub const SEED_COVERS_ABOVE: u64 = 0x3ffc_0000_0000_0000;

/// How many seeds a blind solve tries at most, however wide the database's range.
pub const MAX_BLIND_SEEDS: usize = 8;

/// The seed whose window starts at `low`.
pub open spec fn seed_from(low: Double) -> Double {
    low.over(Double { bits: SEED_COVERS_BELOW })
}

/// Where the window that starts at `low` ends.
pub open spec fn covered_from(low: Double) -> Double {
    seed_from(low).times(Double { bits: SEED_COVERS_ABOVE })
}

/// The ladder of at most `n` seeds that starts at `low`: each window starts where
/// the one before it ends, until one reaches `max`.
pub open spec fn ladder(low: Double, max: Double, n: nat) -> Seq<Double>
    decreases n,
{
    if n == 0 {
        seq![]
    } else if max.at_most(covered_from(low)) {
        seq![seed_from(low)]
    } else {
        seq![seed_from(low)] + ladder(covered_from(low), max, (n - 1) as nat)
    }
}

/// The seeds to try, in order.
pub open spec fn seeds_for(fov_estimate_deg: Option<Double>, db_min: Double, db_max: Double) -> Seq<Double> {
    match fov_estimate_deg {
        Some(fov) => seq![fov],
        None => ladder(db_min, db_max, MAX_BLIND_SEEDS as nat),
    }
}

/// The FOV seeds to try, in order, for one solve.
///
/// A known FOV yields a single seed. Blind, a geometric ladder walks across the
/// database's FOV range.
pub fn fov_seeds(fov_estimate_deg: Option<Double>, db_min_fov_deg: Double, db_max_fov_deg: Double) -> (seeds: Vec<
    Double,
>)
    ensures
        seeds@ == seeds_for(fov_estimate_deg, db_min_fov_deg, db_max_fov_deg),
{
    if let Some(fov) = fov_estimate_deg {
        return vec![fov];
    }
    let below: Double = Double { bits: SEED_COVERS_BELOW };
    let above: Double = Double { bits: SEED_COVERS_ABOVE };
    let mut seeds: Vec<Double> = Vec::new();
    let mut low: Double = db_min_fov_deg;
    let ghost all = ladder(db_min_fov_deg, db_max_fov_deg, MAX_BLIND_SEEDS as nat);
    while seeds.len() < MAX_BLIND_SEEDS
        invariant_except_break
            seeds.len() <= MAX_BLIND_SEEDS,
            all == seeds@ + ladder(low, db_max_fov_deg, (MAX_BLIND_SEEDS - seeds.len()) as nat),
        invariant
            below.bits == SEED_COVERS_BELOW,
            above.bits == SEED_COVERS_ABOVE,
        ensures
            seeds@ == all,
        decreases MAX_BLIND_SEEDS - seeds.len(),
    {
        let seed: Double = low.div(below);
        let ghost before = seeds@;
        seeds.push(seed);
        let covered_to: Double = seed.mul(above);
        assert(seeds@ == before + seq![seed]);
        if db_max_fov_deg.le(covered_to) {
            break;
        }
        assert(all == before + (seq![seed] + ladder(
            covered_to,
            db_max_fov_deg,
            (MAX_BLIND_SEEDS - seeds.len()) as nat,
        )));
        assert(all =~= seeds@ + ladder(covered_to, db_max_fov_deg, (MAX_BLIND_SEEDS - seeds.len()) as nat));
        low = covered_to;
    }
    seeds
}

/// Where the window of the seed number `i` starts.
pub open spec fn low_edge(min: Double, i: nat) -> Double
    decreases i,
{
    if i == 0 {
        min
    } else {
        covered_from(low_edge(min, (i - 1) as nat))
    }
}

proof fn lemma_low_edge_shifts(min: Double, i: nat)
    ensures
        low_edge(covered_from(min), i) == low_edge(min, i + 1),
    decreases i,
{
    if i > 0 {
        lemma_low_edge_shifts(min, (i - 1) as nat);
    } else {
        assert(low_edge(min, 0) == min);
    }
}

/// Each rung of a ladder is the seed of its window, no window but the last reaches
/// `max`, and the last one does unless the ladder has all its rungs.
proof fn lemma_ladder(low: Double, max: Double, n: nat)
    ensures
        ladder(low, max, n).len() <= n,
        n > 0 ==> ladder(low, max, n).len() > 0,
        forall|i: int|
            0 <= i < ladder(low, max, n).len() ==> ladder(low, max, n)[i] == seed_from(
                #[trigger] low_edge(low, i as nat),
            ),
        forall|i: int|
            0 < i < ladder(low, max, n).len() ==> !max.at_most(#[trigger] low_edge(low, i as nat)),
        ladder(low, max, n).len() < n ==> max.at_most(low_edge(low, ladder(low, max, n).len())),
    decreases n,
{
    let all = ladder(low, max, n);
    if n > 0 {
        let next = covered_from(low);
        assert(low_edge(low, 0) == low);
        assert(low_edge(low, 1) == next);
        if !max.at_most(next) {
            let rest = ladder(next, max, (n - 1) as nat);
            lemma_ladder(next, max, (n - 1) as nat);
            assert forall|i: int| 0 <= i < all.len() implies all[i] == seed_from(
                #[trigger] low_edge(low, i as nat),
            ) by {
                if i > 0 {
                    lemma_low_edge_shifts(low, (i - 1) as nat);
                    assert(rest[i - 1] == seed_from(low_edge(next, (i - 1) as nat)));
                }
            }
            assert forall|i: int| 0 < i < all.len() implies !max.at_most(#[trigger] low_edge(low, i as nat)) by {
                if i > 1 {
                    lemma_low_edge_shifts(low, (i - 1) as nat);
                    assert(!max.at_most(low_edge(next, (i - 1) as nat)));
                }
            }
            lemma_low_edge_shifts(low, rest.len());
        }
    }
}

/// A solve always has a seed to try, a known FOV yields exactly one, and a blind
/// ladder never has more than `MAX_BLIND_SEEDS`.
pub proof fn law_seed_count(fov_estimate_deg: Option<Double>, db_min: Double, db_max: Double)
    ensures
        1 <= seeds_for(fov_estimate_deg, db_min, db_max).len() <= MAX_BLIND_SEEDS,
        fov_estimate_deg matches Some(fov) ==> seeds_for(fov_estimate_deg, db_min, db_max) == seq![fov],
{
    lemma_ladder(db_min, db_max, MAX_BLIND_SEEDS as nat);
}

/// The two encodings stand for three and seven quarters.
proof fn lemma_quarters()
    ensures
        one() == 4 * pow2(1072),
        pow2(1072) > 0,
        ({
            let below = Double { bits: SEED_COVERS_BELOW };
            let above = Double { bits: SEED_COVERS_ABOVE };
            &&& below.finite() && !below.negative() && !below.zero() && below.size() == 3 * pow2(1072)
            &&& above.finite() && !above.negative() && !above.zero() && above.size() == 7 * pow2(1072)
        }),
{
    let b = SEED_COVERS_BELOW as int;
    let a = SEED_COVERS_ABOVE as int;
    let lead = LEADING as int;
    lemma2_to64();
    lemma2_to64_rest();
    lemma_pow2_adds(1072, 2);
    lemma_pow2_adds(51, 1021);
    lemma_pow2_adds(50, 1022);
    lemma_pow2_pos(1072);
    assert(b / lead == 1022 && b % lead == 0x8_0000_0000_0000);
    assert(a / lead == 1023 && a % lead == 0xc_0000_0000_0000);
    assert((lead + 0x8_0000_0000_0000) * pow2(1021) == 3 * (0x8_0000_0000_0000 * pow2(1021)));
    assert((lead + 0xc_0000_0000_0000) * pow2(1022) == 7 * (0x4_0000_0000_0000 * pow2(1022)));
}

/// The seed is four thirds of its window's start, and the window's end seven
/// quarters of the seed, each rounded to the nearest double.
proof fn lemma_rung(low: Double)
    requires
        low.finite(),
        !low.negative(),
    ensures
        seed_from(low) == double_of(false, nearest_units(4 * low.size(), 3)),
        seed_from(low).finite() ==> covered_from(low) == double_of(
            false,
            nearest_units(7 * seed_from(low).size(), 4),
        ),
        !seed_from(low).finite() ==> covered_from(low).infinite() && !covered_from(low).negative(),
        !seed_from(low).negative(),
        !seed_from(low).nan(),
{
    reveal(Double::over);
    reveal(Double::times);
    lemma_quarters();
    lemma_size(low);
    let k = pow2(1072) as int;
    let u = low.size();
    assert(u * one() == (4 * u) * k) by (nonlinear_arith)
        requires
            one() == 4 * k,
    ;
    lemma_nearest_scales(4 * u, 3, k);
    let seed = seed_from(low);
    lemma_nearest_is_double(4 * u, 3);
    lemma_double_of(false, nearest_units(4 * u, 3));
    lemma_double_of_exact(false, nearest_units(4 * u, 3));
    let s = seed.size();
    lemma_size(seed);
    assert(s * (7 * k) == (7 * s) * k) by (nonlinear_arith);
    lemma_nearest_scales(7 * s, 4, k);
}

/// Windows of numbers that are not negative end in numbers that are not negative.
proof fn lemma_rung_is_number(low: Double)
    requires
        !low.nan(),
        !low.negative(),
    ensures
        !covered_from(low).nan(),
        !covered_from(low).negative(),
{
    if low.finite() {
        lemma_rung(low);
        let s = seed_from(low).size();
        lemma_size(seed_from(low));
        lemma_nearest_is_double(7 * s, 4);
        lemma_double_of(false, nearest_units(7 * s, 4));
    } else {
        reveal(Double::over);
        reveal(Double::times);
        lemma_quarters();
    }
}

proof fn lemma_low_edges_are_numbers(min: Double, i: nat)
    requires
        !min.nan(),
        !min.negative(),
    ensures
        !low_edge(min, i).nan(),
        !low_edge(min, i).negative(),
    decreases i,
{
    if i > 0 {
        lemma_low_edges_are_numbers(min, (i - 1) as nat);
        lemma_rung_is_number(low_edge(min, (i - 1) as nat));
    }
}

/// Blind seeds tile the database's range: every field width from its start up to
/// the end of the last window lies in the window of some seed, and the windows
/// follow one another without a gap. The last window ends at or beyond the range,
/// unless the ladder has all the rungs it may have.
pub proof fn law_blind_seeds_tile(db_min: Double, db_max: Double, fov: Double)
    requires
        !db_min.nan(),
        !db_min.negative(),
        !db_max.nan(),
        !fov.nan(),
        db_min.units() <= fov.units(),
        fov.units() <= low_edge(db_min, seeds_for(None, db_min, db_max).len()).units(),
    ensures
        ({
            let seeds = seeds_for(None, db_min, db_max);
            &&& exists|i: int|
                0 <= i < seeds.len() && seeds[i] == seed_from(#[trigger] low_edge(db_min, i as nat)) && low_edge(
                    db_min,
                    i as nat,
                ).units() <= fov.units() <= covered_from(low_edge(db_min, i as nat)).units()
            &&& seeds.len() < MAX_BLIND_SEEDS ==> db_max.units() <= low_edge(db_min, seeds.len()).units()
        }),
{
    lemma_ladder(db_min, db_max, MAX_BLIND_SEEDS as nat);
    let seeds = seeds_for(None, db_min, db_max);
    let i = lemma_window(db_min, fov, seeds.len());
    assert(seeds[i] == seed_from(low_edge(db_min, i as nat)));
    assert(low_edge(db_min, (i + 1) as nat) == covered_from(low_edge(db_min, i as nat)));
}

/// Between the first edge and a later one there is a window for every number.
proof fn lemma_window(min: Double, fov: Double, n: nat) -> (i: int)
    requires
        n > 0,
        min.units() <= fov.units() <= low_edge(min, n).units(),
    ensures
        0 <= i < n,
        low_edge(min, i as nat).units() <= fov.units() <= low_edge(min, (i + 1) as nat).units(),
    decreases n,
{
    let last = (n - 1) as nat;
    if low_edge(min, last).units() <= fov.units() {
        n - 1
    } else {
        assert(last > 0) by {
            assert(low_edge(min, 0) == min);
        }
        lemma_window(min, fov, last)
    }
}

/// A quotient of at least 2^52 units is rounded by no more than one part in 2^53.
pub proof fn lemma_relative_error(num: int, den: int)
    requires
        0 < den,
        LEADING * den <= num,
    ensures
        pow2(53) * distance(num, den, nearest_units(num, den)) <= num,
{
    let n = num / den;
    let k = level(n);
    let g = pow2(k) as int;
    let d = distance(num, den, nearest_units(num, den));
    lemma2_to64();
    lemma2_to64_rest();
    lemma_fundamental_div_mod(num, den);
    assert(n >= LEADING && n * den <= num) by (nonlinear_arith)
        requires
            num == den * n + num % den,
            0 <= num % den < den,
            LEADING * den <= num,
            0 < den,
    ;
    lemma_level_bounds(n);
    lemma_pow2_adds(52, k);
    lemma_pow2_pos(k);
    assert(LEADING * g <= n) by {
        if k == 0 {
            assert(LEADING * 1 == LEADING);
        }
    }
    lemma_nearest_is_double(num, den);
    law_rounding_is_nearest(num, den, nearest_units(num, den));
    assert((2 * LEADING) * d <= num) by (nonlinear_arith)
        requires
            2 * d <= den * g,
            LEADING * g <= n,
            n * den <= num,
            0 < den,
            LEADING > 0,
    ;
}

/// A window ends at no less than 2.332 times its start.
proof fn lemma_window_grows(low: Double)
    requires
        low.finite(),
        !low.negative(),
        low.size() >= LEADING,
    ensures
        covered_from(low).infinite() || 1000 * covered_from(low).size() >= 2332 * low.size(),
{
    lemma_rung(low);
    let u = low.size();
    let s = nearest_units(4 * u, 3);
    lemma_nearest_is_double(4 * u, 3);
    lemma_double_of_exact(false, s);
    if seed_from(low).finite() {
        let c = nearest_units(7 * s, 4);
        lemma2_to64_rest();
        lemma_relative_error(4 * u, 3);
        assert(s >= u);
        lemma_relative_error(7 * s, 4);
        assert(1000 * c >= 2332 * u);
        lemma_nearest_is_double(7 * s, 4);
        lemma_double_of_exact(false, c);
    }
}

/// How far `i` windows reach at least, in thousandths of where the first one starts.
spec fn reach(i: nat) -> int
    decreases i,
{
    if i == 0 {
        1000
    } else {
        reach((i - 1) as nat) * 2332 / 1000
    }
}

proof fn lemma_eight_windows()
    ensures
        reach(8) == 874_558,
{
    assert(reach(0) == 1000);
    assert(reach(1) == 2332);
    assert(reach(2) == 5438);
    assert(reach(3) == 12_681);
    assert(reach(4) == 29_572);
    assert(reach(5) == 68_961);
    assert(reach(6) == 160_817);
    assert(reach(7) == 375_025);
}

/// After `i` windows the edge has come as far as it should, if it is not beyond all
/// numbers.
proof fn lemma_edges_grow(min: Double, i: nat)
    requires
        min.finite(),
        !min.negative(),
        min.size() >= LEADING,
    ensures
        reach(i) >= 1000,
        low_edge(min, i).infinite() || (low_edge(min, i).finite() && 1000 * low_edge(min, i).size() >= reach(i)
            * min.size()),
        !low_edge(min, i).negative(),
    decreases i,
{
    if i > 0 {
        let j = (i - 1) as nat;
        let low = low_edge(min, j);
        let u = min.size();
        lemma_edges_grow(min, j);
        lemma_low_edges_are_numbers(min, i);
        if low.finite() {
            let (r, t) = (reach(j), reach(i));
            let (e, f) = (low.size(), low_edge(min, i).size());
            assert(e >= u) by (nonlinear_arith)
                requires
                    1000 * e >= r * u,
                    r >= 1000,
                    u >= 0,
            ;
            lemma_window_grows(low);
            if low_edge(min, i).finite() {
                assert(1000 * f >= t * u) by (nonlinear_arith)
                    requires
                        1000 * f >= 2332 * e,
                        1000 * e >= r * u,
                        1000 * t <= r * 2332,
                        u >= 0,
                ;
            }
        } else {
            reveal(Double::over);
            reveal(Double::times);
            lemma_quarters();
        }
    }
}

/// The ladder has rungs enough: a range that spans a factor of 870 or less is
/// covered from end to end. (Eight windows span some 878.) (The start must not be subnormal.)
pub proof fn law_ladder_reaches(db_min: Double, db_max: Double)
    requires
        db_min.finite(),
        !db_min.negative(),
        db_min.size() >= LEADING,
        !db_max.nan(),
        db_max.units() <= 870 * db_min.units(),
    ensures
        db_max.units() <= low_edge(db_min, seeds_for(None, db_min, db_max).len()).units(),
{
    let n = MAX_BLIND_SEEDS as nat;
    let seeds = seeds_for(None, db_min, db_max);
    lemma_ladder(db_min, db_max, n);
    if seeds.len() == n {
        lemma_edges_grow(db_min, n);
        lemma_eight_windows();
        let edge = low_edge(db_min, n);
        lemma_size(db_min);
        lemma_size(edge);
        if edge.infinite() {
            if db_max.magnitude_bits() < INFINITE {
                lemma_magnitude_increases(db_max.magnitude_bits(), INFINITE as int);
            }
            lemma_size(db_max);
        }
    }
}

/// A seed's window is the one it is said to solve, from three to seven quarters of
/// the seed, to one part in 2^53: the window of a seed starts where the seed says,
/// and what lies in it is not too wide for the seed.
proof fn lemma_seed_solves_its_window(low: Double, fov: Double)
    requires
        low.finite(),
        !low.negative(),
        low.size() >= LEADING,
        fov.finite(),
        low.units() <= fov.units() <= covered_from(low).units(),
    ensures
        pow2(53) * (3 * seed_from(low).units() - 4 * fov.units()) <= 4 * fov.units(),
        pow2(53) * (4 * fov.units() - 7 * seed_from(low).units()) <= 7 * seed_from(low).units(),
{
    lemma_rung(low);
    lemma_size(low);
    let u = low.size();
    let seed = seed_from(low);
    let near = nearest_units(4 * u, 3);
    lemma_relative_error(4 * u, 3);
    lemma_nearest_is_double(4 * u, 3);
    lemma_double_of(false, near);
    lemma_double_of_exact(false, near);
    lemma_size(seed);
    lemma2_to64_rest();
    let big = magnitude_units(INFINITE as int);
    let f = fov.units();
    let s = seed.units();
    assert(s <= near);
    assert(f < big) by {
        lemma_size(fov);
        lemma_magnitude_increases(fov.magnitude_bits(), INFINITE as int);
    }
    if seed.finite() {
        let top = nearest_units(7 * s, 4);
        // The seed is larger than its window's start.
        assert(s >= u) by {
            lemma_finite_is_double(low);
            law_rounding_is_nearest(4 * u, 3, u);
        }
        lemma_relative_error(7 * s, 4);
        lemma_nearest_is_double(7 * s, 4);
        lemma_double_of(false, top);
        lemma_double_of_exact(false, top);
        lemma_size(covered_from(low));
        assert(f <= top);
    } else {
        assert(s == big);
    }
}

/// Every field width in the database's range lies in the window of some seed, from
/// three to seven quarters of the seed, to one part in 2^53. The range must not start
/// at a subnormal number, and must span a factor of 870 or less.
pub proof fn law_every_width_has_a_seed(db_min: Double, db_max: Double, fov: Double)
    requires
        db_min.finite(),
        !db_min.negative(),
        db_min.size() >= LEADING,
        !db_max.nan(),
        db_max.units() <= 870 * db_min.units(),
        fov.finite(),
        db_min.units() <= fov.units() <= db_max.units(),
    ensures
        exists|i: int|
            0 <= i < seeds_for(None, db_min, db_max).len() && {
                let seed = #[trigger] seeds_for(None, db_min, db_max)[i];
                &&& pow2(53) * (3 * seed.units() - 4 * fov.units()) <= 4 * fov.units()
                &&& pow2(53) * (4 * fov.units() - 7 * seed.units()) <= 7 * seed.units()
            },
{
    let seeds = seeds_for(None, db_min, db_max);
    law_ladder_reaches(db_min, db_max);
    law_blind_seeds_tile(db_min, db_max, fov);
    let i = choose|i: int|
        0 <= i < seeds.len() && seeds[i] == seed_from(#[trigger] low_edge(db_min, i as nat)) && low_edge(
            db_min,
            i as nat,
        ).units() <= fov.units() <= covered_from(low_edge(db_min, i as nat)).units();
    let low = low_edge(db_min, i as nat);
    lemma_edges_grow(db_min, i as nat);
    lemma_size(low);
    if low.infinite() {
        lemma_size(fov);
        lemma_magnitude_increases(fov.magnitude_bits(), INFINITE as int);
    }
    assert(low.size() >= LEADING) by (nonlinear_arith)
        requires
            1000 * low.size() >= reach(i as nat) * db_min.size(),
            reach(i as nat) >= 1000,
            db_min.size() >= LEADING,
    ;
    lemma_seed_solves_its_window(low, fov);
    assert(seeds[i] == seed_from(low));
}

/// A seed is four thirds of where its window starts, and its window ends at seven quarters
/// of the seed, each to one part in 2^53.
proof fn lemma_rung_error(low: Double)
    requires
        low.finite(),
        !low.negative(),
        LEADING <= low.size() <= pow2(64) * one(),
    ensures
        ({
            let (s, c) = (seed_from(low), covered_from(low));
            &&& s.finite() && c.finite()
            &&& 0x20_0000_0000_0000 * apart(3 * s.units(), 4 * low.units()) <= 4 * low.units()
            &&& 0x20_0000_0000_0000 * apart(4 * c.units(), 7 * s.units()) <= 7 * s.units()
        }),
{
    lemma_rung(low);
    lemma_size(low);
    let u = low.size();
    let top = pow2(100) * one();
    lemma2_to64_rest();
    lemma2_to64();
    lemma_pow2_adds(64, 36);
    lemma_pow2_pos(1074);
    assert(top == 0x10_0000_0000 * (pow2(64) * one())) by (nonlinear_arith)
        requires
            top == pow2(100) * one(),
            pow2(100) == pow2(64) * 0x10_0000_0000,
    ;
    lemma_rounded_error(4 * u, 3);
    let s = seed_from(low);
    lemma_size(s);
    lemma_rounded_error(7 * s.units(), 4);
}

/// A known field of view is the one that is tried. Blind, the first one to try is four
/// thirds of the narrowest in the database, and each is seven thirds of the one before,
/// to two roundings. They go on while seven quarters of the last fall short of the widest,
/// up to eight of them.
pub proof fn law_seeds_climb(fov_estimate_deg: Option<Double>, db_min: Double, db_max: Double, seeds: Vec<Double>, i: int)
    requires
        call_ensures(fov_seeds, (fov_estimate_deg, db_min, db_max), seeds),
        db_min.finite(),
        !db_min.negative(),
        LEADING <= db_min.size() <= pow2(64) * one(),
        !db_max.nan(),
        db_max.units() <= pow2(64) * one(),
    ensures
        fov_estimate_deg matches Some(fov) ==> seeds@ == seq![fov],
        fov_estimate_deg is None ==> {
            let last = seeds@[seeds.len() - 1].units();
            &&& 1 <= seeds.len() <= 8
            &&& 0x20_0000_0000_0000 * apart(3 * seeds@[0].units(), 4 * db_min.units()) <= 4 * db_min.units()
            &&& 0 <= i < seeds.len() ==> seeds@[i].finite()
            &&& 0 <= i < seeds.len() - 1 ==> {
                let (s, t) = (seeds@[i].units(), seeds@[i + 1].units());
                &&& 0x8_0000_0000_0000 * apart(3 * t, 7 * s) <= 7 * s
                &&& 0x20_0000_0000_0000 * (7 * s - 4 * db_max.units()) <= 7 * s
            }
            &&& seeds.len() < 8 ==> 0x20_0000_0000_0000 * (4 * db_max.units() - 7 * last) <= 7 * last
        },
{
    if fov_estimate_deg is None {
        let n = MAX_BLIND_SEEDS as nat;
        lemma_ladder(db_min, db_max, n);
        let end = seeds.len() as int;
        lemma_edge_error(db_min, db_max, 0);
        lemma_edge_error(db_min, db_max, end - 1);
        assert(low_edge(db_min, 0) == db_min);
        assert(seeds@[end - 1] == seed_from(low_edge(db_min, (end - 1) as nat)));
        assert(low_edge(db_min, end as nat) == covered_from(low_edge(db_min, (end - 1) as nat)));
        if 0 <= i < end {
            lemma_edge_error(db_min, db_max, i);
            assert(seeds@[i] == seed_from(low_edge(db_min, i as nat)));
        }
        if 0 <= i < end - 1 {
            lemma_edge_error(db_min, db_max, i + 1);
            assert(seeds@[i + 1] == seed_from(low_edge(db_min, (i + 1) as nat)));
            assert(low_edge(db_min, (i + 1) as nat) == covered_from(low_edge(db_min, i as nat)));
            lemma_low_edges_are_numbers(db_min, (i + 1) as nat);
        }
    }
}

proof fn lemma_edge_error(db_min: Double, db_max: Double, i: int)
    requires
        0 <= i < ladder(db_min, db_max, MAX_BLIND_SEEDS as nat).len(),
        db_min.finite(),
        !db_min.negative(),
        LEADING <= db_min.size() <= pow2(64) * one(),
        !db_max.nan(),
        db_max.units() <= pow2(64) * one(),
    ensures
        ({
            let low = low_edge(db_min, i as nat);
            let (s, c) = (seed_from(low), covered_from(low));
            &&& s.finite() && c.finite()
            &&& 0x20_0000_0000_0000 * apart(3 * s.units(), 4 * low.units()) <= 4 * low.units()
            &&& 0x20_0000_0000_0000 * apart(4 * c.units(), 7 * s.units()) <= 7 * s.units()
        }),
{
    let low = low_edge(db_min, i as nat);
    lemma_ladder(db_min, db_max, MAX_BLIND_SEEDS as nat);
    lemma_edges_grow(db_min, i as nat);
    lemma_low_edges_are_numbers(db_min, i as nat);
    lemma_size(low);
    lemma_size(db_min);
    assert(low_edge(db_min, 0) == db_min);
    if i > 0 {
        assert(!db_max.at_most(low));
        assert(low.units() < db_max.units());
    }
    if low.infinite() {
        let top = Double { bits: 0x43f0_0000_0000_0000 };
        let (m, lead) = (0x43f0_0000_0000_0000int, LEADING as int);
        lemma2_to64();
        lemma2_to64_rest();
        assert(m / lead == 1087 && m % lead == 0);
        lemma_pow2_adds(52, 1086);
        lemma_pow2_adds(64, 1074);
        assert(top.size() == pow2(64) * one());
        lemma_magnitude_increases(top.magnitude_bits(), INFINITE as int);
    }
    let (r, u) = (reach(i as nat), db_min.size());
    assert(r * u >= 1000 * u) by (nonlinear_arith)
        requires
            r >= 1000,
            u >= 0,
    ;
    lemma_rung_error(low);
}

/// A known field of view is the one that is tried, whatever the database is made for.
pub proof fn law_known_field_is_tried(fov: Double, db_min: Double, db_max: Double, seeds: Vec<Double>)
    requires
        call_ensures(fov_seeds, (Some(fov), db_min, db_max), seeds),
    ensures
        seeds@ == seq![fov],
{
}

} // verus!
