//! Statistics of the measurements that one label gathered for one metric.
use vstd::prelude::*;

use crate::wide::{Wide, HALF};

verus! {

/// The sum of the measurements.
pub open spec fn sum(nanos: Seq<u64>) -> nat
    decreases nanos.len(),
{
    if nanos.len() == 0 {
        0
    } else {
        sum(nanos.drop_last()) + nanos.last() as nat
    }
}

/// The sum of the squares of the measurements.
pub open spec fn sum_of_squares(nanos: Seq<u64>) -> nat
    decreases nanos.len(),
{
    if nanos.len() == 0 {
        0
    } else {
        sum_of_squares(nanos.drop_last()) + nanos.last() as nat * nanos.last() as nat
    }
}

/// The variance of `nanos`, times the square of the number of measurements. With `n` measurements
/// of sum `s` and sum of squares `q` the variance is `q / n - (s / n) * (s / n)`.
pub open spec fn spread(nanos: Seq<u64>) -> int {
    nanos.len() * sum_of_squares(nanos) - sum(nanos) * sum(nanos)
}

/// How far `value` is from the average of `nanos`, times the number of measurements.
pub open spec fn distance(nanos: Seq<u64>, value: u64) -> int {
    nanos.len() * value - sum(nanos)
}

/// `value` is further from the average of `nanos` than three times their standard deviation.
/// Both sides of the comparison are taken times the number of measurements and squared, which
/// leaves only whole numbers.
pub open spec fn is_outlier(nanos: Seq<u64>, value: u64) -> bool {
    distance(nanos, value) * distance(nanos, value) > 9 * spread(nanos)
}

/// The measurements among `nanos` that are outliers, in their order.
pub open spec fn outliers(nanos: Seq<u64>) -> Seq<u64> {
    nanos.filter(|value: u64| is_outlier(nanos, value))
}

/// `min` is the least of the measurements; of none, the greatest number there is.
pub open spec fn is_minimum(nanos: Seq<u64>, min: u64) -> bool {
    &&& forall|i: int| 0 <= i < nanos.len() ==> min <= nanos[i]
    &&& if nanos.len() == 0 {
        min == u64::MAX
    } else {
        nanos.contains(min)
    }
}

/// `max` is the greatest of the measurements; of none, zero.
pub open spec fn is_maximum(nanos: Seq<u64>, max: u64) -> bool {
    &&& forall|i: int| 0 <= i < nanos.len() ==> nanos[i] <= max
    &&& if nanos.len() == 0 {
        max == 0
    } else {
        nanos.contains(max)
    }
}

/// An average, as the fraction that it is.
#[derive(Clone, Copy, PartialEq, Eq, Structural, Debug)]
pub struct Average {
    /// The sum of the measurements.
    pub total: u64,
    /// The number of measurements.
    pub count: usize,
}

/// A standard deviation, as the whole numbers that it comes from: it is the square root of
/// `spread`, divided by `count`.
#[derive(Clone, Copy, Debug)]
pub struct Deviation {
    /// The variance times the square of the number of measurements.
    pub spread: Wide,
    /// The number of measurements.
    pub count: usize,
}

/// Statistics gathered for a metric. All timings are in nanoseconds.
#[derive(Debug)]
pub struct MetricStats {
    /// The average nanoseconds elapsed for each execution.
    pub average: Average,
    /// The minimum nanoseconds elapsed for each execution.
    pub min: u64,
    /// The maximum nanoseconds elapsed for each execution.
    pub max: u64,
    /// The standard deviation nanoseconds elapsed for each execution.
    pub stddev: Deviation,
    /// The list of all measurements taken, in nanoseconds.
    pub plottable_stats: Vec<u64>,
    /// The list of measurements that are considered outliers: those whose difference from the
    /// average measurement is more than three times the standard deviation.
    pub outliers: Vec<u64>,
}

impl MetricStats {
    /// These are the statistics of the measurements `nanos`.
    pub open spec fn describes(self, nanos: Seq<u64>) -> bool {
        &&& self.average.total == sum(nanos)
        &&& self.average.count == nanos.len()
        &&& is_minimum(nanos, self.min)
        &&& is_maximum(nanos, self.max)
        &&& self.stddev.spread@ == spread(nanos)
        &&& self.stddev.count == nanos.len()
        &&& self.plottable_stats@ == nanos
        &&& self.outliers@ == outliers(nanos)
    }

    /// Computes the statistics of the measurements `nanos`.
    pub fn new(nanos: Vec<u64>) -> (stats: Self)
        requires
            sum(nanos@) <= u64::MAX,
        ensures
            stats.describes(nanos@),
    {
        let mut total: u64 = 0;
        let mut squares: u128 = 0;
        let mut min: u64 = u64::MAX;
        let mut max: u64 = 0;
        let mut i: usize = 0;
        while i < nanos.len()
            invariant
                i <= nanos@.len(),
                sum(nanos@) <= u64::MAX,
                total == sum(nanos@.take(i as int)),
                squares == sum_of_squares(nanos@.take(i as int)),
                squares <= total * total,
                is_minimum(nanos@.take(i as int), min),
                is_maximum(nanos@.take(i as int), max),
            decreases nanos@.len() - i,
        {
            let value: u64 = nanos[i];
            let ghost before = nanos@.take(i as int);
            let ghost after = nanos@.take(i + 1);
            proof {
                assert(after.drop_last() =~= before);
                lemma_sum_of_prefix(nanos@, i + 1);
                assert(value as u128 * value as u128 <= u128::MAX) by (nonlinear_arith);
                assert(squares + value * value <= (total + value) * (total + value)
                    <= u64::MAX * u64::MAX) by (nonlinear_arith)
                    requires
                        squares <= total * total,
                        total + value <= u64::MAX,
                ;
                assert forall|j: int| 0 <= j < before.len() implies before[j] == after[j] by {}
                assert(after[i as int] == value);
                if before.len() > 0 {
                    let least = choose|j: int| 0 <= j < before.len() && before[j] == min;
                    let greatest = choose|j: int| 0 <= j < before.len() && before[j] == max;
                    assert(after[least] == min);
                    assert(after[greatest] == max);
                }
            }
            total += value;
            squares += value as u128 * value as u128;
            if value < min {
                min = value;
            }
            if max < value {
                max = value;
            }
            i += 1;
        }
        assert(nanos@.take(i as int) =~= nanos@);
        let average: Average = Average { total, count: nanos.len() };
        let stddev: Deviation = Deviation {
            spread: spread_of(&nanos, total, squares),
            count: nanos.len(),
        };
        let outliers: Vec<u64> = find_outliers(&nanos, &average, &stddev);
        MetricStats { average, min, max, stddev, plottable_stats: nanos, outliers }
    }

    /// How many measurements are outliers, and of how many measurements; nothing if none were
    /// taken.
    pub fn outlier_share(&self) -> (share: Option<(usize, usize)>)
        ensures
            share == (if self.plottable_stats@.len() > 0 {
                Some((self.outliers@.len() as usize, self.plottable_stats@.len() as usize))
            } else {
                None
            }),
    {
        share(self.outliers.len(), self.plottable_stats.len())
    }
}

/// How many of how many measurements are outliers; nothing if none were taken.
pub fn share(outliers: usize, measurements: usize) -> (share: Option<(usize, usize)>)
    ensures
        share == (if measurements > 0 {
            Some((outliers, measurements))
        } else {
            None
        }),
{
    if measurements > 0 {
        Some((outliers, measurements))
    } else {
        None
    }
}

/// Collects the outliers among `nanos`, whose average and standard deviation are given.
fn find_outliers(nanos: &Vec<u64>, average: &Average, stddev: &Deviation) -> (found: Vec<u64>)
    requires
        average.total == sum(nanos@),
        average.count == nanos@.len(),
        stddev.spread@ == spread(nanos@),
        stddev.spread.hi < HALF,
    ensures
        found@ == outliers(nanos@),
{
    let total: u128 = average.total as u128;
    let count: u128 = average.count as u128;
    let limit: Wide = stddev.spread.times(9);
    let mut found: Vec<u64> = Vec::new();
    let mut i: usize = 0;
    let ghost picked = |value: u64| is_outlier(nanos@, value);
    while i < nanos.len()
        invariant
            i <= nanos@.len(),
            total == sum(nanos@),
            total <= u64::MAX,
            count == nanos@.len(),
            limit@ == 9 * spread(nanos@),
            picked == (|value: u64| is_outlier(nanos@, value)),
            found@ == nanos@.take(i as int).filter(picked),
        decreases nanos@.len() - i,
    {
        let value: u64 = nanos[i];
        proof {
            assert(count * value <= u64::MAX * u64::MAX) by (nonlinear_arith)
                requires
                    count <= u64::MAX,
                    value <= u64::MAX,
            ;
            assert(nanos@.take(i + 1).drop_last() =~= nanos@.take(i as int));
            reveal_with_fuel(Seq::filter, 2);
        }
        let scaled: u128 = count * value as u128;
        let away: u128 = if scaled >= total {
            scaled - total
        } else {
            total - scaled
        };
        proof {
            let d = distance(nanos@, value);
            assert(away * away == d * d) by (nonlinear_arith)
                requires
                    away == d || away == -d,
            ;
        }
        if Wide::product(away, away).exceeds(limit) {
            found.push(value);
        }
        i += 1;
    }
    assert(nanos@.take(i as int) =~= nanos@);
    found
}

/// The variance of `nanos` times the square of their number.
fn spread_of(nanos: &Vec<u64>, total: u64, squares: u128) -> (r: Wide)
    requires
        total == sum(nanos@),
        squares == sum_of_squares(nanos@),
    ensures
        r@ == spread(nanos@),
        r.hi < HALF,
{
    let count: usize = nanos.len();
    proof {
        lemma_spread_is_not_negative(nanos@);
        assert(0 <= total * total <= u64::MAX * u64::MAX) by (nonlinear_arith)
            requires
                total <= u64::MAX,
        ;
        assert(count * squares <= u64::MAX * u128::MAX) by (nonlinear_arith)
            requires
                count <= u64::MAX,
                squares <= u128::MAX,
        ;
    }
    let product: Wide = Wide::product(count as u128, squares);
    product.minus(total as u128 * total as u128)
}

/// The sum of a part is at most the sum of the whole.
proof fn lemma_sum_of_prefix(nanos: Seq<u64>, i: int)
    requires
        0 <= i <= nanos.len(),
    ensures
        sum(nanos.take(i)) <= sum(nanos),
    decreases nanos.len(),
{
    if i == nanos.len() {
        assert(nanos.take(i) =~= nanos);
    } else {
        assert(nanos.drop_last().take(i) =~= nanos.take(i));
        lemma_sum_of_prefix(nanos.drop_last(), i);
    }
}

/// The variance of any measurements is at least zero.
pub proof fn lemma_spread_is_not_negative(nanos: Seq<u64>)
    ensures
        spread(nanos) >= 0,
    decreases nanos.len(),
{
    if nanos.len() > 0 {
        let rest = nanos.drop_last();
        lemma_spread_is_not_negative(rest);
        let (m, s, q, x) = (
            rest.len() as int,
            sum(rest) as int,
            sum_of_squares(rest) as int,
            nanos.last() as int,
        );
        assert((m + 1) * (q + x * x) - (s + x) * (s + x) >= 0) by {
            lemma_spread_grows(m, s, q, x);
        }
    }
}

/// One more measurement does not make a variance negative.
proof fn lemma_spread_grows(m: int, s: int, q: int, x: int)
    requires
        m >= 0,
        q >= 0,
        m * q - s * s >= 0,
        m == 0 ==> s == 0 && q == 0,
    ensures
        (m + 1) * (q + x * x) - (s + x) * (s + x) >= 0,
{
    // The left side is `m * q - s * s`, plus `q - 2 * s * x + m * x * x`, which is
    // `(m * x - s) * (m * x - s) / m + (m * q - s * s) / m`.
    let (a, b, c) = (x * x, s * x, m * x);
    assert((m + 1) * (q + a) == m * q + m * a + q + a) by (nonlinear_arith);
    assert((s + x) * (s + x) == s * s + 2 * b + a) by (nonlinear_arith)
        requires
            a == x * x,
            b == s * x,
    ;
    if m > 0 {
        let extra = q - 2 * b + m * a;
        assert(m * extra == m * q - 2 * (m * b) + m * (m * a)) by (nonlinear_arith)
            requires
                extra == q - 2 * b + m * a,
        ;
        assert(m * b == c * s) by (nonlinear_arith)
            requires
                b == s * x,
                c == m * x,
        ;
        assert(m * (m * a) == c * c) by (nonlinear_arith)
            requires
                a == x * x,
                c == m * x,
        ;
        assert((c - s) * (c - s) == c * c - 2 * (c * s) + s * s) by (nonlinear_arith);
        assert((c - s) * (c - s) >= 0) by (nonlinear_arith);
        assert(extra >= 0) by (nonlinear_arith)
            requires
                m > 0,
                m * extra >= 0,
        ;
    } else {
        assert(s * s == 0 && b == 0 && m * q == 0 && m * a == 0) by (nonlinear_arith)
            requires
                m == 0,
                s == 0,
                q == 0,
                b == s * x,
        ;
    }
}

/// The sum of the squares of how far the first `upto` measurements are from the average of all of
/// them, each distance taken times the number of measurements.
pub open spec fn squared_distances(nanos: Seq<u64>, upto: int) -> int
    decreases upto,
{
    if upto <= 0 {
        0
    } else {
        squared_distances(nanos, upto - 1) + distance(nanos, nanos[upto - 1]) * distance(
            nanos,
            nanos[upto - 1],
        )
    }
}

/// The variance is the average of the squares of the distances from the average. Here distances are
/// taken times the number of measurements, and the variance times its square.
pub proof fn lemma_spread_is_the_average_of_squared_distances(nanos: Seq<u64>)
    ensures
        squared_distances(nanos, nanos.len() as int) == nanos.len() * spread(nanos),
{
    let (n, s, q) = (nanos.len() as int, sum(nanos) as int, sum_of_squares(nanos) as int);
    lemma_squared_distances(nanos, n);
    assert(nanos.take(n) =~= nanos);
    assert(n * n * q - 2 * n * s * s + n * s * s == n * (n * q - s * s)) by (nonlinear_arith);
}

/// The sum of the squared distances of a part, by its sum and its sum of squares.
proof fn lemma_squared_distances(nanos: Seq<u64>, upto: int)
    requires
        0 <= upto <= nanos.len(),
    ensures
        ({
            let (n, s) = (nanos.len() as int, sum(nanos) as int);
            let part = nanos.take(upto);
            squared_distances(nanos, upto) == n * n * sum_of_squares(part) - 2 * n * s * sum(part)
                + upto * s * s
        }),
    decreases upto,
{
    let (n, s) = (nanos.len() as int, sum(nanos) as int);
    if upto > 0 {
        lemma_squared_distances(nanos, upto - 1);
        let part = nanos.take(upto);
        let before = nanos.take(upto - 1);
        assert(part.drop_last() =~= before);
        let x = nanos[upto - 1] as int;
        let (q, t) = (sum_of_squares(before) as int, sum(before) as int);
        let d = n * x - s;
        let (y, z) = (n * x, s * s);
        assert(d * d == y * y - 2 * (y * s) + z) by (nonlinear_arith)
            requires
                d == y - s,
                z == s * s,
        ;
        assert(y * y == n * n * (x * x)) by (nonlinear_arith)
            requires
                y == n * x,
        ;
        assert(2 * (y * s) == 2 * n * s * x) by (nonlinear_arith)
            requires
                y == n * x,
        ;
        assert(n * n * (q + x * x) == n * n * q + n * n * (x * x)) by (nonlinear_arith);
        assert(2 * n * s * (t + x) == 2 * n * s * t + 2 * n * s * x) by (nonlinear_arith);
        assert(upto * s * s == (upto - 1) * s * s + s * s) by (nonlinear_arith);
    } else {
        assert(nanos.take(0) =~= Seq::<u64>::empty());
        assert(n * n * 0 - 2 * n * s * 0 + 0 * s * s == 0) by (nonlinear_arith);
    }
}

/// Taking one measurement out lowers both sums by what it contributed.
proof fn lemma_sums_without(nanos: Seq<u64>, k: int)
    requires
        0 <= k < nanos.len(),
    ensures
        sum(nanos) == sum(nanos.remove(k)) + nanos[k],
        sum_of_squares(nanos) == sum_of_squares(nanos.remove(k)) + nanos[k] * nanos[k],
    decreases nanos.len(),
{
    if k == nanos.len() - 1 {
        assert(nanos.remove(k) =~= nanos.drop_last());
    } else {
        lemma_sums_without(nanos.drop_last(), k);
        assert(nanos.remove(k).drop_last() =~= nanos.drop_last().remove(k));
        assert(nanos.remove(k).last() == nanos.last());
    }
}

/// Among `n` measurements none is further from the average than the standard deviation times the
/// square root of `n - 1`.
pub proof fn lemma_distance_is_bounded(nanos: Seq<u64>, value: u64)
    requires
        nanos.contains(value),
    ensures
        distance(nanos, value) * distance(nanos, value) <= (nanos.len() - 1) * spread(nanos),
{
    let k = choose|k: int| 0 <= k < nanos.len() && nanos[k] == value;
    let rest = nanos.remove(k);
    lemma_sums_without(nanos, k);
    lemma_spread_is_not_negative(rest);
    let (m, t, r, x) = (rest.len() as int, sum(rest) as int, sum_of_squares(rest) as int, value as int);
    let v = (m + 1) * (r + x * x) - (t + x) * (t + x);
    let d = (m + 1) * x - (t + x);
    let (g, h) = (m * r, m * x);
    let (a, b, c, e) = (h * x, t * x, t * t, x * x);
    assert((m + 1) * (r + e) == m * r + m * e + r + e) by (nonlinear_arith);
    assert(m * e == a) by (nonlinear_arith)
        requires
            e == x * x,
            a == h * x,
            h == m * x,
    ;
    assert((t + x) * (t + x) == c + 2 * b + e) by (nonlinear_arith)
        requires
            b == t * x,
            c == t * t,
            e == x * x,
    ;
    assert(v == g + r + a - c - 2 * b);
    assert(d == h - t) by (nonlinear_arith)
        requires
            d == (m + 1) * x - (t + x),
            h == m * x,
    ;
    assert(m * a == h * h) by (nonlinear_arith)
        requires
            a == h * x,
            h == m * x,
    ;
    assert(m * b == t * h) by (nonlinear_arith)
        requires
            b == t * x,
            h == m * x,
    ;
    assert(m * v == m * g + m * r + m * a - m * c - 2 * (m * b)) by (nonlinear_arith)
        requires
            v == g + r + a - c - 2 * b,
    ;
    assert(d * d == h * h - 2 * (t * h) + t * t) by (nonlinear_arith)
        requires
            d == h - t,
    ;
    assert((m + 1) * (g - t * t) == m * g + g - m * (t * t) - t * t) by (nonlinear_arith);
    assert((m + 1) * (m * r - t * t) >= 0) by (nonlinear_arith)
        requires
            m >= 0,
            m * r - t * t >= 0,
    ;
}

/// Ten or fewer measurements have no outlier among them; one measurement in particular has none.
pub proof fn lemma_few_measurements_have_no_outlier(nanos: Seq<u64>)
    requires
        nanos.len() <= 10,
    ensures
        outliers(nanos) == Seq::<u64>::empty(),
{
    assert forall|i: int| 0 <= i < nanos.len() implies !is_outlier(nanos, #[trigger] nanos[i]) by {
        lemma_distance_is_bounded(nanos, nanos[i]);
        lemma_spread_is_not_negative(nanos);
        assert((nanos.len() - 1) * spread(nanos) <= 9 * spread(nanos)) by (nonlinear_arith)
            requires
                nanos.len() <= 10,
                spread(nanos) >= 0,
        ;
    }
    lemma_nothing_picked(nanos, |value: u64| is_outlier(nanos, value));
}

/// Measurements that are all the same have no outlier among them, however many they are.
pub proof fn lemma_equal_measurements_have_no_outlier(nanos: Seq<u64>, value: u64)
    requires
        forall|i: int| 0 <= i < nanos.len() ==> nanos[i] == value,
    ensures
        outliers(nanos) == Seq::<u64>::empty(),
{
    lemma_sum_of_equal(nanos, value);
    lemma_spread_is_not_negative(nanos);
    assert(!is_outlier(nanos, value));
    lemma_nothing_picked(nanos, |x: u64| is_outlier(nanos, x));
}

/// The sum of measurements that are all the same.
proof fn lemma_sum_of_equal(nanos: Seq<u64>, value: u64)
    requires
        forall|i: int| 0 <= i < nanos.len() ==> nanos[i] == value,
    ensures
        sum(nanos) == nanos.len() * value,
    decreases nanos.len(),
{
    if nanos.len() > 0 {
        lemma_sum_of_equal(nanos.drop_last(), value);
        assert((nanos.len() - 1) * value + value == nanos.len() * value) by (nonlinear_arith);
    }
}

/// A filter that picks no element of a sequence leaves nothing.
proof fn lemma_nothing_picked(nanos: Seq<u64>, picked: spec_fn(u64) -> bool)
    requires
        forall|i: int| 0 <= i < nanos.len() ==> !picked(nanos[i]),
    ensures
        nanos.filter(picked) == Seq::<u64>::empty(),
    decreases nanos.len(),
{
    reveal(Seq::filter);
    if nanos.len() > 0 {
        lemma_nothing_picked(nanos.drop_last(), picked);
    }
}

/// The order in which measurements were taken does not matter to their statistics.
pub proof fn lemma_order_does_not_matter(a: Seq<u64>, b: Seq<u64>)
    requires
        a.to_multiset() == b.to_multiset(),
    ensures
        a.len() == b.len(),
        sum(a) == sum(b),
        spread(a) == spread(b),
        forall|min: u64| is_minimum(a, min) <==> is_minimum(b, min),
        forall|max: u64| is_maximum(a, max) <==> is_maximum(b, max),
        outliers(a).to_multiset() == outliers(b).to_multiset(),
{
    broadcast use vstd::seq_lib::group_to_multiset_ensures;

    vstd::seq_lib::to_multiset_len(a);
    vstd::seq_lib::to_multiset_len(b);
    lemma_reordered(a, b, |value: u64| is_outlier(a, value));
    assert forall|value: u64| a.contains(value) == b.contains(value) by {
        vstd::seq_lib::to_multiset_contains(a, value);
        vstd::seq_lib::to_multiset_contains(b, value);
    }
    assert forall|min: u64| is_minimum(a, min) <==> is_minimum(b, min) by {
        lemma_minimum_of_reordered(a, b, min);
        lemma_minimum_of_reordered(b, a, min);
    }
    assert forall|max: u64| is_maximum(a, max) <==> is_maximum(b, max) by {
        lemma_maximum_of_reordered(a, b, max);
        lemma_maximum_of_reordered(b, a, max);
    }
    assert((|value: u64| is_outlier(a, value)) =~= (|value: u64| is_outlier(b, value)));
}

/// The minimum of measurements is that of the same measurements in another order.
proof fn lemma_minimum_of_reordered(a: Seq<u64>, b: Seq<u64>, min: u64)
    requires
        a.len() == b.len(),
        forall|value: u64| a.contains(value) == b.contains(value),
    ensures
        is_minimum(a, min) ==> is_minimum(b, min),
{
    if is_minimum(a, min) {
        assert forall|i: int| 0 <= i < b.len() implies min <= b[i] by {
            assert(b.contains(b[i]));
            let k = choose|k: int| 0 <= k < a.len() && a[k] == b[i];
            assert(min <= a[k]);
        }
    }
}

/// The maximum of measurements is that of the same measurements in another order.
proof fn lemma_maximum_of_reordered(a: Seq<u64>, b: Seq<u64>, max: u64)
    requires
        a.len() == b.len(),
        forall|value: u64| a.contains(value) == b.contains(value),
    ensures
        is_maximum(a, max) ==> is_maximum(b, max),
{
    if is_maximum(a, max) {
        assert forall|i: int| 0 <= i < b.len() implies b[i] <= max by {
            assert(b.contains(b[i]));
            let k = choose|k: int| 0 <= k < a.len() && a[k] == b[i];
            assert(a[k] <= max);
        }
    }
}

/// The sums of the same measurements in another order are the same, and so is what a filter picks,
/// but for its order.
proof fn lemma_reordered(a: Seq<u64>, b: Seq<u64>, picked: spec_fn(u64) -> bool)
    requires
        a.to_multiset() == b.to_multiset(),
    ensures
        sum(a) == sum(b),
        sum_of_squares(a) == sum_of_squares(b),
        a.filter(picked).to_multiset() == b.filter(picked).to_multiset(),
    decreases a.len(),
{
    broadcast use vstd::seq_lib::group_to_multiset_ensures;

    vstd::seq_lib::to_multiset_len(a);
    vstd::seq_lib::to_multiset_len(b);
    if a.len() == 0 {
        assert(a =~= b);
    } else {
        let last = a.len() - 1;
        assert(a.contains(a[last]));
        assert(a.to_multiset().count(a[last]) > 0);
        assert(b.contains(a[last]));
        let k = choose|k: int| 0 <= k < b.len() && b[k] == a[last];
        assert(a.remove(last).to_multiset() == b.remove(k).to_multiset());
        lemma_reordered(a.remove(last), b.remove(k), picked);
        lemma_sums_without(a, last);
        lemma_sums_without(b, k);
        lemma_filter_without(a, last, picked);
        lemma_filter_without(b, k, picked);
    }
}

/// Taking one measurement out takes it out of what a filter picks, if it was picked.
proof fn lemma_filter_without(nanos: Seq<u64>, k: int, picked: spec_fn(u64) -> bool)
    requires
        0 <= k < nanos.len(),
    ensures
        nanos.filter(picked).to_multiset() == (if picked(nanos[k]) {
            nanos.remove(k).filter(picked).to_multiset().insert(nanos[k])
        } else {
            nanos.remove(k).filter(picked).to_multiset()
        }),
    decreases nanos.len(),
{
    broadcast use vstd::seq_lib::group_to_multiset_ensures;

    reveal(Seq::filter);
    let rest = nanos.drop_last();
    if k == nanos.len() - 1 {
        assert(nanos.remove(k) =~= rest);
    } else {
        lemma_filter_without(rest, k, picked);
        let without = nanos.remove(k);
        assert(without.drop_last() =~= rest.remove(k));
        assert(without.last() == nanos.last());
        let kept = rest.remove(k).filter(picked).to_multiset();
        assert(kept.insert(nanos[k]).insert(nanos.last()) =~= kept.insert(nanos.last()).insert(
            nanos[k],
        ));
    }
}

/// The average lies between the least and the greatest measurement.
pub proof fn lemma_average_lies_between(stats: MetricStats, nanos: Seq<u64>)
    requires
        stats.describes(nanos),
    ensures
        stats.min * stats.average.count <= stats.average.total || nanos.len() == 0,
        stats.average.total <= stats.max * stats.average.count,
{
    lemma_sum_between(nanos, stats.min, stats.max);
}

/// A sum of numbers between `low` and `high` lies between that many times each.
proof fn lemma_sum_between(nanos: Seq<u64>, low: u64, high: u64)
    requires
        forall|i: int| 0 <= i < nanos.len() ==> low <= #[trigger] nanos[i] && nanos[i] <= high,
    ensures
        low * nanos.len() <= sum(nanos) <= high * nanos.len(),
    decreases nanos.len(),
{
    if nanos.len() > 0 {
        lemma_sum_between(nanos.drop_last(), low, high);
        assert(low * (nanos.len() - 1) + low == low * nanos.len()) by (nonlinear_arith);
        assert(high * (nanos.len() - 1) + high == high * nanos.len()) by (nonlinear_arith);
        assert(low <= nanos.last() <= high);
    } else {
        assert(low * nanos.len() == 0) by (nonlinear_arith)
            requires
                nanos.len() == 0,
        ;
        assert(high * nanos.len() == 0) by (nonlinear_arith)
            requires
                nanos.len() == 0,
        ;
    }
}

/// The reported average, minimum and maximum are those of the measurements, and the measurements are
/// listed as they were taken.
pub proof fn lemma_what_is_reported_of_measurements(stats: MetricStats, nanos: Seq<u64>)
    requires
        stats.describes(nanos),
    ensures
        stats.average.total == nanos.fold_left(0int, |total: int, value: u64| total + value),
        stats.average.count == nanos.len(),
        forall|i: int| 0 <= i < nanos.len() ==> stats.min <= #[trigger] nanos[i] <= stats.max,
        nanos.len() > 0 ==> nanos.contains(stats.min) && nanos.contains(stats.max),
        nanos.len() == 0 ==> stats.min == u64::MAX && stats.max == 0,
        stats.stddev.count == nanos.len(),
        stats.plottable_stats@ == nanos,
{
    lemma_sum_adds_up(nanos);
}

/// A sum takes in each measurement once.
proof fn lemma_sum_adds_up(nanos: Seq<u64>)
    ensures
        sum(nanos) == nanos.fold_left(0int, |total: int, value: u64| total + value),
    decreases nanos.len(),
{
    if nanos.len() > 0 {
        lemma_sum_adds_up(nanos.drop_last());
    }
}

/// The reported deviation is the standard one: its square is the average of the squares of how far
/// the measurements are from their average. Everything is taken times the number of measurements, so
/// that there are only whole numbers.
pub proof fn lemma_the_deviation_is_the_standard_one(stats: MetricStats, nanos: Seq<u64>)
    requires
        stats.describes(nanos),
    ensures
        ({
            let (count, total) = (stats.average.count as int, stats.average.total as int);
            let spread = stats.stddev.spread.hi * 0x1_0000_0000_0000_0000_0000_0000_0000_0000int
                + stats.stddev.spread.lo;
            &&& nanos.fold_left(
                0int,
                |squares: int, value: u64|
                    squares + (count * value - total) * (count * value - total),
            ) == count * spread
            &&& count == 0 ==> spread == 0
        }),
{
    let (count, total) = (stats.average.count as int, stats.average.total as int);
    lemma_spread_is_the_average_of_squared_distances(nanos);
    lemma_squares_add_up(nanos, nanos.len() as int, count, total);
    assert(nanos.take(nanos.len() as int) =~= nanos);
    if nanos.len() == 0 {
        assert(spread(nanos) == 0) by (nonlinear_arith)
            requires
                nanos.len() == 0,
                sum(nanos) == 0,
                spread(nanos) == nanos.len() * sum_of_squares(nanos) - sum(nanos) * sum(nanos),
        ;
    }
}

/// The sum of squared distances takes in each measurement once.
proof fn lemma_squares_add_up(nanos: Seq<u64>, upto: int, count: int, total: int)
    requires
        0 <= upto <= nanos.len(),
        count == nanos.len(),
        total == sum(nanos),
    ensures
        squared_distances(nanos, upto) == nanos.take(upto).fold_left(
            0int,
            |squares: int, value: u64| squares + (count * value - total) * (count * value - total),
        ),
    decreases upto,
{
    if upto > 0 {
        lemma_squares_add_up(nanos, upto - 1, count, total);
        assert(nanos.take(upto).drop_last() =~= nanos.take(upto - 1));
        assert(nanos.take(upto).last() == nanos[upto - 1]);
    }
}

/// The outliers are exactly the measurements that are further from the average than three times the
/// standard deviation: each of these is listed, as often as it was measured, and nothing else is.
/// The average and the deviation are the reported ones; both sides are taken times the number of
/// measurements and squared.
pub proof fn lemma_outliers_are_all_far_measurements(stats: MetricStats, nanos: Seq<u64>, value: u64)
    requires
        stats.describes(nanos),
    ensures
        ({
            let away = stats.average.count * value - stats.average.total;
            let spread = stats.stddev.spread.hi * 0x1_0000_0000_0000_0000_0000_0000_0000_0000int
                + stats.stddev.spread.lo;
            let far = away * away > 9 * spread;
            &&& stats.outliers@.to_multiset().count(value) == (if far {
                nanos.to_multiset().count(value)
            } else {
                0
            })
            &&& stats.outliers@.contains(value) <==> far && nanos.contains(value)
        }),
{
    let picked = |x: u64| is_outlier(nanos, x);
    lemma_count_of_picked(nanos, picked, value);
    vstd::seq_lib::to_multiset_contains(nanos, value);
    vstd::seq_lib::to_multiset_contains(stats.outliers@, value);
}

/// The outliers are listed in the order in which they were measured: they are what is left of the
/// measurements without those that are not far from the average.
pub proof fn lemma_outliers_are_listed_in_order(stats: MetricStats, nanos: Seq<u64>)
    requires
        stats.describes(nanos),
    ensures
        ({
            let (count, total) = (stats.average.count as int, stats.average.total as int);
            let spread = stats.stddev.spread.hi * 0x1_0000_0000_0000_0000_0000_0000_0000_0000int
                + stats.stddev.spread.lo;
            stats.outliers@ == nanos.filter(
                |value: u64| (count * value - total) * (count * value - total) > 9 * spread,
            )
        }),
{
    let (count, total) = (stats.average.count as int, stats.average.total as int);
    let spread = stats.stddev.spread.hi * 0x1_0000_0000_0000_0000_0000_0000_0000_0000int
        + stats.stddev.spread.lo;
    assert((|value: u64| is_outlier(nanos, value)) =~= (|value: u64|
        (count * value - total) * (count * value - total) > 9 * spread));
}

/// A filter leaves of each value all or none.
proof fn lemma_count_of_picked(nanos: Seq<u64>, picked: spec_fn(u64) -> bool, value: u64)
    ensures
        nanos.filter(picked).to_multiset().count(value) == (if picked(value) {
            nanos.to_multiset().count(value)
        } else {
            0
        }),
    decreases nanos.len(),
{
    broadcast use vstd::seq_lib::group_to_multiset_ensures;

    reveal(Seq::filter);
    if nanos.len() == 0 {
        vstd::seq_lib::to_multiset_contains(nanos, value);
        vstd::seq_lib::to_multiset_contains(nanos.filter(picked), value);
    } else {
        let rest = nanos.drop_last();
        lemma_count_of_picked(rest, picked, value);
        assert(nanos =~= rest.push(nanos.last()));
        vstd::seq_lib::to_multiset_build(rest, nanos.last());
        vstd::seq_lib::to_multiset_build(rest.filter(picked), nanos.last());
    }
}

/// The share of outliers is that of the listed outliers among all measurements.
pub proof fn lemma_the_share_of_outliers(
    stats: MetricStats,
    nanos: Seq<u64>,
    share: Option<(usize, usize)>,
)
    requires
        stats.describes(nanos),
        call_ensures(MetricStats::outlier_share, (&stats,), share),
    ensures
        share is Some <==> nanos.len() > 0,
        share matches Some(of) ==> of.0 == stats.outliers@.len() && of.1 == nanos.len(),
{
}

/// Measurements that all take longer by the same time have an average that is longer by that time,
/// and are spread as before.
pub proof fn lemma_a_delay_shifts_the_average(
    stats: MetricStats,
    nanos: Seq<u64>,
    delayed: MetricStats,
    delay: u64,
)
    requires
        stats.describes(nanos),
        forall|i: int| 0 <= i < nanos.len() ==> #[trigger] nanos[i] + delay <= u64::MAX,
        delayed.describes(nanos.map_values(|value: u64| (value + delay) as u64)),
    ensures
        delayed.average.total == stats.average.total + stats.average.count * delay,
        delayed.stddev.spread@ == stats.stddev.spread@,
        nanos.len() > 0 ==> delayed.min == stats.min + delay && delayed.max == stats.max + delay,
        delayed.outliers@.len() == stats.outliers@.len(),
{
    let later = nanos.map_values(|value: u64| (value + delay) as u64);
    lemma_sums_after_delay(nanos, delay);
    let (n, s, q, d) = (
        nanos.len() as int,
        sum(nanos) as int,
        sum_of_squares(nanos) as int,
        delay as int,
    );
    let e = n * d;
    assert(n * (q + 2 * (d * s) + n * (d * d)) == n * q + 2 * (e * s) + e * e) by (nonlinear_arith)
        requires
            e == n * d,
    ;
    assert((s + e) * (s + e) == s * s + 2 * (e * s) + e * e) by (nonlinear_arith);
    assert(spread(later) == spread(nanos));
    if nanos.len() > 0 {
        let a = choose|a: int| 0 <= a < nanos.len() && nanos[a] == stats.min;
        let b = choose|b: int| 0 <= b < later.len() && later[b] == delayed.min;
        assert(later[a] == nanos[a] + delay && later[b] == nanos[b] + delay);
        let c = choose|c: int| 0 <= c < nanos.len() && nanos[c] == stats.max;
        let f = choose|f: int| 0 <= f < later.len() && later[f] == delayed.max;
        assert(later[c] == nanos[c] + delay && later[f] == nanos[f] + delay);
    }
    assert forall|i: int| 0 <= i < nanos.len() implies is_outlier(later, #[trigger] later[i])
        == is_outlier(nanos, nanos[i]) by {
        let x = nanos[i] as int;
        assert(later[i] == nanos[i] + delay);
        assert(n * (x + d) == n * x + e) by (nonlinear_arith)
            requires
                e == n * d,
        ;
        assert(distance(later, later[i]) == distance(nanos, nanos[i]));
    }
    lemma_as_many_picked(
        later,
        nanos,
        |value: u64| is_outlier(later, value),
        |value: u64| is_outlier(nanos, value),
    );
}

/// What a delay of every measurement does to the sums.
proof fn lemma_sums_after_delay(nanos: Seq<u64>, delay: u64)
    requires
        forall|i: int| 0 <= i < nanos.len() ==> #[trigger] nanos[i] + delay <= u64::MAX,
    ensures
        ({
            let later = nanos.map_values(|value: u64| (value + delay) as u64);
            &&& sum(later) == sum(nanos) + nanos.len() * delay
            &&& sum_of_squares(later) == sum_of_squares(nanos) + 2 * (delay * sum(nanos))
                + nanos.len() * (delay * delay)
        }),
    decreases nanos.len(),
{
    let later = nanos.map_values(|value: u64| (value + delay) as u64);
    if nanos.len() > 0 {
        let rest = nanos.drop_last();
        assert forall|i: int| 0 <= i < rest.len() implies #[trigger] rest[i] + delay <= u64::MAX by {
            assert(rest[i] == nanos[i]);
        }
        lemma_sums_after_delay(rest, delay);
        assert(later.drop_last() =~= rest.map_values(|value: u64| (value + delay) as u64));
        assert(nanos[nanos.len() - 1] + delay <= u64::MAX);
        let (x, d, m, s) = (nanos.last() as int, delay as int, rest.len() as int, sum(rest) as int);
        assert((m + 1) * d == m * d + d) by (nonlinear_arith);
        assert((m + 1) * (d * d) == m * (d * d) + d * d) by (nonlinear_arith);
        assert((x + d) * (x + d) == x * x + 2 * (d * x) + d * d) by (nonlinear_arith);
        assert(d * (s + x) == d * s + d * x) by (nonlinear_arith);
    } else {
        assert(sum(later) == 0 && sum_of_squares(later) == 0);
        assert(nanos.len() * delay == 0 && delay * sum(nanos) == 0 && nanos.len() * (delay * delay)
            == 0) by (nonlinear_arith)
            requires
                nanos.len() == 0,
                sum(nanos) == 0,
        ;
    }
}

/// Filters that agree place by place leave as much.
proof fn lemma_as_many_picked(
    a: Seq<u64>,
    b: Seq<u64>,
    of_a: spec_fn(u64) -> bool,
    of_b: spec_fn(u64) -> bool,
)
    requires
        a.len() == b.len(),
        forall|i: int| 0 <= i < a.len() ==> of_a(#[trigger] a[i]) == of_b(b[i]),
    ensures
        a.filter(of_a).len() == b.filter(of_b).len(),
    decreases a.len(),
{
    reveal(Seq::filter);
    if a.len() > 0 {
        let (u, v) = (a.drop_last(), b.drop_last());
        assert forall|i: int| 0 <= i < u.len() implies of_a(#[trigger] u[i]) == of_b(v[i]) by {
            assert(u[i] == a[i]);
        }
        lemma_as_many_picked(u, v, of_a, of_b);
        assert(of_a(a[a.len() - 1]) == of_b(b[b.len() - 1]));
    }
}

} // verus!
