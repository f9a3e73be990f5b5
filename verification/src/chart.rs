//! Candlestick aggregation for the chart view.
//!
//! The buffer's ticks, taken in chronological order, are grouped into
//! fixed-width time buckets keyed by the rounded quotient of the timestamp
//! and the bucket width. Each bucket keeps the price of the first tick seen
//! for it (`open`) and of the last (`close`). A finished bucket is routed to
//! one of two coordinate series: `close > open` goes to the series the view
//! draws as downticks, everything else to the uptick series — faithfully
//! reproducing the inverted classification the dashboard has always shown.

use vstd::prelude::*;
use vstd::arithmetic::div_mod::lemma_fundamental_div_mod;
use crate::models::TkrData;
use crate::price::{decimal_of, parse_decimal, DECIMAL_SCALE};
use crate::ring::{step_back, DataList, RingModel};

verus! {

/// One chart bucket: a coarsened time key with the first and most recent
/// price observed for it.
#[derive(Clone, Copy, PartialEq, Eq, Structural, Debug)]
pub struct Bucket {
    /// The tick's timestamp divided by the bucket width, rounded.
    pub key: i64,
    /// Price of the first tick of this bucket, in processing order.
    pub open_price: i64,
    /// Price of the most recently processed tick of this bucket.
    pub close_price: i64,
}

/// The bucket key of a timestamp: the quotient by the bucket width, rounded
/// half away from zero.
pub open spec fn bucket_key_spec(t: int) -> int {
    if t >= 0 {
        (t + 2500) / 5000
    } else {
        -(((-t) + 2500) / 5000)
    }
}

/// Whether some point of `ps` carries bucket key `k`.
pub open spec fn has_key(ps: Seq<(i64, i64)>, k: i64) -> bool {
    exists|i: int| 0 <= i < ps.len() && (#[trigger] ps[i]).0 == k
}

/// The price of the first point with key `k`, scanning left to right.
pub open spec fn first_y(ps: Seq<(i64, i64)>, k: i64) -> i64
    decreases ps.len(),
{
    if ps.len() == 0 {
        0
    } else if ps[0].0 == k {
        ps[0].1
    } else {
        first_y(ps.drop_first(), k)
    }
}

/// The price of the last point with key `k`, scanning right to left.
pub open spec fn last_y(ps: Seq<(i64, i64)>, k: i64) -> i64
    decreases ps.len(),
{
    if ps.len() == 0 {
        0
    } else if ps.last().0 == k {
        ps.last().1
    } else {
        last_y(ps.drop_last(), k)
    }
}

/// The distinct keys of `ps`, in order of first occurrence.
pub open spec fn key_order(ps: Seq<(i64, i64)>) -> Seq<i64>
    decreases ps.len(),
{
    if ps.len() == 0 {
        Seq::empty()
    } else {
        let rest = key_order(ps.drop_last());
        if has_key(ps.drop_last(), ps.last().0) {
            rest
        } else {
            rest.push(ps.last().0)
        }
    }
}

/// The buckets of a point sequence: one per distinct key in first-occurrence
/// order, opening at the first price seen for the key and closing at the
/// last.
pub open spec fn buckets_spec(ps: Seq<(i64, i64)>) -> Seq<Bucket> {
    Seq::new(
        key_order(ps).len(),
        |j: int|
            Bucket {
                key: key_order(ps)[j],
                open_price: first_y(ps, key_order(ps)[j]),
                close_price: last_y(ps, key_order(ps)[j]),
            },
    )
}

/// The inverted classification the view draws: a rising bucket lands in the
/// series styled as downticks.
pub open spec fn is_downtick(b: Bucket) -> bool {
    b.close_price > b.open_price
}

/// The two coordinate series of a bucket sequence: upticks plotted at the
/// open price, downticks at the close price, each keeping bucket order.
pub open spec fn series_of(bs: Seq<Bucket>) -> (Seq<(i64, i64)>, Seq<(i64, i64)>)
    decreases bs.len(),
{
    if bs.len() == 0 {
        (Seq::empty(), Seq::empty())
    } else {
        let rest = series_of(bs.drop_last());
        let b = bs.last();
        if is_downtick(b) {
            (rest.0, rest.1.push((b.key, b.close_price)))
        } else {
            (rest.0.push((b.key, b.open_price)), rest.1)
        }
    }
}

/// The slots of a buffer in chronological order: the traversal order of
/// `get_order`, reversed.
pub open spec fn chrono_slots(m: RingModel) -> Seq<int> {
    Seq::new(
        (m.capacity - 1) as nat,
        |j: int| step_back(m.capacity, m.curr_i, (m.capacity - 2 - j) as nat),
    )
}

/// The chart point of one tick: its bucket key and its parsed price.
pub open spec fn point_of(t: TkrData) -> (i64, i64) {
    (bucket_key_spec(t.t as int) as i64, decimal_of(t.a@) as i64)
}

/// The chart points of a buffer, oldest first.
pub open spec fn chart_points(m: RingModel) -> Seq<(i64, i64)> {
    chrono_slots(m).map_values(|s: int| point_of(m.data[s]))
}

/// Appending a point only changes `first_y` for a key it introduces.
proof fn lemma_first_y_extend(ps: Seq<(i64, i64)>, p: (i64, i64), k: i64)
    ensures
        has_key(ps.push(p), k) == (has_key(ps, k) || p.0 == k),
        first_y(ps.push(p), k) == if !has_key(ps, k) && p.0 == k {
            p.1
        } else {
            first_y(ps, k)
        },
    decreases ps.len(),
{
    if ps.len() == 0 {
        assert(ps.push(p)[0] == p);
        if p.0 == k {
            assert(has_key(ps.push(p), k));
        } else {
            if has_key(ps.push(p), k) {
                let i = choose|i: int| 0 <= i < ps.push(p).len() && ps.push(p)[i].0 == k;
                assert(false);
            }
            assert(ps.push(p).drop_first() =~= Seq::<(i64, i64)>::empty());
            assert(first_y(ps.push(p).drop_first(), k) == 0);
            assert(first_y(ps.push(p), k) == 0);
        }
        if has_key(ps, k) {
            let i = choose|i: int| 0 <= i < ps.len() && ps[i].0 == k;
            assert(false);
        }
    } else {
        assert(ps.push(p)[0] == ps[0]);
        assert(ps.push(p).drop_first() =~= ps.drop_first().push(p));
        lemma_first_y_extend(ps.drop_first(), p, k);
        if ps[0].0 == k {
            assert(has_key(ps, k));
            assert(has_key(ps.push(p), k)) by {
                assert(ps.push(p)[0].0 == k);
            }
        } else {
            assert(has_key(ps, k) == has_key(ps.drop_first(), k)) by {
                if has_key(ps, k) {
                    let i = choose|i: int| 0 <= i < ps.len() && ps[i].0 == k;
                    assert(ps.drop_first()[i - 1].0 == k);
                }
                if has_key(ps.drop_first(), k) {
                    let i = choose|i: int|
                        0 <= i < ps.drop_first().len() && ps.drop_first()[i].0 == k;
                    assert(ps[i + 1].0 == k);
                }
            }
            assert(has_key(ps.push(p), k) == has_key(ps.drop_first().push(p), k)) by {
                if has_key(ps.push(p), k) {
                    let i = choose|i: int| 0 <= i < ps.push(p).len() && ps.push(p)[i].0 == k;
                    assert(i != 0);
                    assert(ps.drop_first().push(p)[i - 1].0 == k);
                }
                if has_key(ps.drop_first().push(p), k) {
                    let i = choose|i: int|
                        0 <= i < ps.drop_first().push(p).len() && ps.drop_first().push(p)[i].0
                            == k;
                    assert(ps.push(p)[i + 1].0 == k);
                }
            }
        }
    }
}

/// A key is listed among a sequence's buckets exactly when some point
/// carries it.
pub proof fn lemma_key_order_contains(ps: Seq<(i64, i64)>, k: i64)
    ensures
        key_order(ps).contains(k) == has_key(ps, k),
    decreases ps.len(),
{
    if ps.len() == 0 {
        if has_key(ps, k) {
            let i = choose|i: int| 0 <= i < ps.len() && ps[i].0 == k;
            assert(false);
        }
        assert(!key_order(ps).contains(k));
    } else {
        let q = ps.drop_last();
        let p = ps.last();
        lemma_key_order_contains(q, k);
        assert(has_key(ps, k) == (has_key(q, k) || p.0 == k)) by {
            if has_key(ps, k) {
                let i = choose|i: int| 0 <= i < ps.len() && ps[i].0 == k;
                if i < ps.len() - 1 {
                    assert(q[i].0 == k);
                }
            }
            if has_key(q, k) {
                let i = choose|i: int| 0 <= i < q.len() && q[i].0 == k;
                assert(ps[i].0 == k);
            }
            if p.0 == k {
                assert(ps[ps.len() - 1].0 == k);
            }
        }
        if !has_key(q, p.0) {
            assert(key_order(ps) == key_order(q).push(p.0));
            assert(key_order(ps).contains(k) == (key_order(q).contains(k) || p.0 == k)) by {
                if key_order(q).contains(k) {
                    let i = choose|i: int| 0 <= i < key_order(q).len() && key_order(q)[i] == k;
                    assert(key_order(ps)[i] == k);
                }
                if p.0 == k {
                    assert(key_order(ps).last() == k);
                }
                if key_order(ps).contains(k) {
                    let i = choose|i: int| 0 <= i < key_order(ps).len() && key_order(ps)[i] == k;
                    if i < key_order(q).len() {
                        assert(key_order(q)[i] == k);
                    }
                }
            }
        }
    }
}

/// The bucket keys of a point sequence are distinct: one bucket per key.
pub proof fn lemma_key_order_distinct(ps: Seq<(i64, i64)>)
    ensures
        forall|j1: int, j2: int|
            0 <= j1 < j2 < key_order(ps).len() ==> key_order(ps)[j1] != key_order(ps)[j2],
    decreases ps.len(),
{
    if ps.len() > 0 {
        let q = ps.drop_last();
        let p = ps.last();
        lemma_key_order_distinct(q);
        if !has_key(q, p.0) {
            lemma_key_order_contains(q, p.0);
            assert forall|j1: int, j2: int|
                0 <= j1 < j2 < key_order(ps).len() implies key_order(ps)[j1] != key_order(
                ps,
            )[j2] by {
                if j2 == key_order(ps).len() - 1 {
                    if key_order(q)[j1] == p.0 {
                        assert(key_order(q).contains(p.0));
                    }
                }
            }
        }
    }
}

/// The first point with key `k` sets `first_y`.
proof fn lemma_first_y_at(ps: Seq<(i64, i64)>, i: int)
    requires
        0 <= i < ps.len(),
        forall|t: int| 0 <= t < i ==> (#[trigger] ps[t]).0 != ps[i].0,
    ensures
        first_y(ps, ps[i].0) == ps[i].1,
    decreases i,
{
    if i > 0 {
        assert(ps.drop_first()[i - 1] == ps[i]);
        assert forall|t: int| 0 <= t < i - 1 implies (#[trigger] ps.drop_first()[t]).0
            != ps.drop_first()[i - 1].0 by {
            assert(ps.drop_first()[t] == ps[t + 1]);
        }
        lemma_first_y_at(ps.drop_first(), i - 1);
    }
}

/// The last point with key `k` sets `last_y`.
proof fn lemma_last_y_at(ps: Seq<(i64, i64)>, i: int)
    requires
        0 <= i < ps.len(),
        forall|t: int| i < t < ps.len() ==> (#[trigger] ps[t]).0 != ps[i].0,
    ensures
        last_y(ps, ps[i].0) == ps[i].1,
    decreases ps.len(),
{
    if i < ps.len() - 1 {
        assert(ps.drop_last()[i] == ps[i]);
        lemma_last_y_at(ps.drop_last(), i);
    }
}

/// A bucket fed by a single tick has `open == close`, and since
/// `close > open` is then false it is routed to the uptick series.
pub proof fn lemma_single_tick_bucket(ps: Seq<(i64, i64)>, i: int)
    requires
        0 <= i < ps.len(),
        forall|t: int| 0 <= t < ps.len() && t != i ==> (#[trigger] ps[t]).0 != ps[i].0,
    ensures
        exists|j: int|
            0 <= j < buckets_spec(ps).len() && (#[trigger] buckets_spec(ps)[j]).key == ps[i].0
                && buckets_spec(ps)[j].open_price == buckets_spec(ps)[j].close_price
                && !is_downtick(buckets_spec(ps)[j]),
{
    lemma_first_y_at(ps, i);
    lemma_last_y_at(ps, i);
    lemma_key_order_contains(ps, ps[i].0);
    assert(has_key(ps, ps[i].0)) by {
        assert(ps[i].0 == ps[i].0);
    }
    let j = choose|j: int| 0 <= j < key_order(ps).len() && key_order(ps)[j] == ps[i].0;
    assert(buckets_spec(ps)[j].key == ps[i].0);
    assert(buckets_spec(ps)[j].open_price == ps[i].1);
    assert(buckets_spec(ps)[j].close_price == ps[i].1);
}

/// The bucket key of one timestamp, computed without overflow for every
/// timestamp.
pub fn bucket_key(t: i64) -> (k: i64)
    ensures
        k as int == bucket_key_spec(t as int),
{
    if t >= 0 {
        let q = ((t as u64) + 2500) / 5000;
        proof {
            vstd::arithmetic::div_mod::lemma_div_is_ordered(
                t as int + 2500,
                u64::MAX as int,
                5000,
            );
        }
        q as i64
    } else {
        let mag = (-(t + 1)) as u64 + 1;
        let q = (mag + 2500) / 5000;
        proof {
            assert(mag == -(t as int));
            vstd::arithmetic::div_mod::lemma_div_is_ordered(
                mag as int + 2500,
                u64::MAX as int,
                5000,
            );
        }
        -(q as i64)
    }
}

/// Groups chart points, oldest first, into buckets: the first point of a key
/// opens its bucket, every later point of the key moves the close.
pub fn aggregate(points: &Vec<(i64, i64)>) -> (buckets: Vec<Bucket>)
    ensures
        buckets@ == buckets_spec(points@),
{
    let ghost ps = points@;
    let mut buckets: Vec<Bucket> = Vec::new();
    let mut i: usize = 0;
    proof {
        assert(ps.take(0) =~= Seq::<(i64, i64)>::empty());
        assert(buckets@ =~= buckets_spec(ps.take(0)));
    }
    while i < points.len()
        invariant
            ps == points@,
            i <= ps.len(),
            buckets@ == buckets_spec(ps.take(i as int)),
        decreases ps.len() - i,
    {
        let ghost pre = ps.take(i as int);
        let ghost post = ps.take(i + 1);
        let (x, y) = points[i];
        let mut hit: usize = buckets.len();
        let mut m: usize = 0;
        while m < buckets.len()
            invariant
                m <= buckets@.len(),
                hit == buckets@.len() || (hit < m && buckets@[hit as int].key == x),
                hit == buckets@.len() ==> forall|t: int|
                    0 <= t < m ==> (#[trigger] buckets@[t]).key != x,
            decreases buckets@.len() - m,
        {
            if hit == buckets.len() && buckets[m].key == x {
                hit = m;
            }
            m = m + 1;
        }
        proof {
            assert(post.drop_last() =~= pre);
            assert(post.last() == ps[i as int]);
            assert(post =~= pre.push(ps[i as int]));
            lemma_key_order_contains(pre, x);
            lemma_key_order_distinct(pre);
            if hit < buckets@.len() {
                assert(buckets@[hit as int] == buckets_spec(pre)[hit as int]);
                assert(key_order(pre)[hit as int] == x);
                assert(key_order(pre).contains(x));
            } else {
                assert(!key_order(pre).contains(x)) by {
                    if key_order(pre).contains(x) {
                        let j = choose|j: int|
                            0 <= j < key_order(pre).len() && key_order(pre)[j] == x;
                        assert(buckets@[j].key == x);
                    }
                }
            }
        }
        if hit < buckets.len() {
            let b = &mut buckets[hit];
            b.close_price = y;
            proof {
                assert(key_order(post) == key_order(pre));
                assert forall|j: int| 0 <= j < buckets@.len() implies buckets@[j]
                    == buckets_spec(post)[j] by {
                    let kk = key_order(pre)[j];
                    lemma_first_y_extend(pre, ps[i as int], kk);
                    lemma_key_order_contains(pre, kk);
                    assert(key_order(pre).contains(kk));
                    if j == hit as int {
                        assert(last_y(post, kk) == y);
                    } else {
                        assert(kk != x);
                        assert(last_y(post, kk) == last_y(pre, kk));
                    }
                }
                assert(buckets@ =~= buckets_spec(post));
            }
        } else {
            buckets.push(Bucket { key: x, open_price: y, close_price: y });
            proof {
                assert(key_order(post) == key_order(pre).push(x));
                assert forall|j: int| 0 <= j < buckets@.len() implies buckets@[j]
                    == buckets_spec(post)[j] by {
                    let kk = key_order(post)[j];
                    lemma_first_y_extend(pre, ps[i as int], kk);
                    lemma_key_order_contains(pre, kk);
                    if j < key_order(pre).len() {
                        assert(key_order(pre).push(x)[j] == key_order(pre)[j]);
                        assert(key_order(pre).contains(kk));
                        assert(kk != x);
                        assert(last_y(post, kk) == last_y(pre, kk));
                        assert(buckets@[j] == buckets_spec(pre)[j]);
                    } else {
                        assert(kk == x);
                        assert(first_y(post, kk) == y);
                        assert(last_y(post, kk) == y);
                    }
                }
                assert(buckets@ =~= buckets_spec(post));
            }
        }
        i = i + 1;
    }
    proof {
        assert(ps.take(ps.len() as int) =~= ps);
    }
    buckets
}

/// Routes finished buckets into the two coordinate series the chart draws.
pub fn split_series(buckets: &Vec<Bucket>) -> (r: (Vec<(i64, i64)>, Vec<(i64, i64)>))
    ensures
        r.0@ == series_of(buckets@).0,
        r.1@ == series_of(buckets@).1,
{
    let mut up: Vec<(i64, i64)> = Vec::new();
    let mut down: Vec<(i64, i64)> = Vec::new();
    let mut i: usize = 0;
    proof {
        assert(buckets@.take(0) =~= Seq::<Bucket>::empty());
    }
    while i < buckets.len()
        invariant
            i <= buckets@.len(),
            up@ == series_of(buckets@.take(i as int)).0,
            down@ == series_of(buckets@.take(i as int)).1,
        decreases buckets@.len() - i,
    {
        let b = buckets[i];
        proof {
            assert(buckets@.take(i + 1).drop_last() =~= buckets@.take(i as int));
            assert(buckets@.take(i + 1).last() == buckets@[i as int]);
        }
        if b.close_price > b.open_price {
            down.push((b.key, b.close_price));
        } else {
            up.push((b.key, b.open_price));
        }
        i = i + 1;
    }
    proof {
        assert(buckets@.take(buckets@.len() as int) =~= buckets@);
    }
    (up, down)
}

/// The chart of one instrument: the two coordinate series derived from its
/// ring buffer.
pub struct TkrChart {
    /// Buckets plotted at the open price.
    pub upticks: Vec<(i64, i64)>,
    /// Buckets plotted at the close price.
    pub downticks: Vec<(i64, i64)>,
}

impl TkrChart {
    /// Builds the chart series from a buffer: its traversal converted to
    /// chronological order, bucketed, and split.
    pub fn new(tkr_data: &DataList) -> (r: Self)
        requires
            tkr_data@.wf(),
        ensures
            r.upticks@ == series_of(buckets_spec(chart_points(tkr_data@))).0,
            r.downticks@ == series_of(buckets_spec(chart_points(tkr_data@))).1,
    {
        let ghost m = tkr_data@;
        let order = tkr_data.get_order();
        let mut points: Vec<(i64, i64)> = Vec::new();
        let mut j: usize = 0;
        while j < order.len()
            invariant
                m == tkr_data@,
                m.wf(),
                order@.len() == m.capacity - 1,
                forall|t: int|
                    0 <= t < order@.len() ==> order@[t] == step_back(
                        m.capacity,
                        m.curr_i,
                        t as nat,
                    ),
                forall|t: int| 0 <= t < order@.len() ==> 0 <= #[trigger] order@[t] < m.capacity,
                j <= order@.len(),
                points@.len() == j,
                forall|t: int| 0 <= t < j ==> points@[t] == chart_points(m)[t],
            decreases order@.len() - j,
        {
            let idx = order.len() - 1 - j;
            let slot = order[idx];
            let tick = &tkr_data.data[slot];
            let key = bucket_key(tick.t);
            let y = parse_decimal(tick.a.as_str());
            proof {
                assert(chrono_slots(m)[j as int] == step_back(
                    m.capacity,
                    m.curr_i,
                    (m.capacity - 2 - j) as nat,
                ));
                assert(order@[idx as int] == step_back(m.capacity, m.curr_i, idx as nat));
                assert(chart_points(m)[j as int] == point_of(m.data[slot as int]));
                assert(key == bucket_key_spec(tick.t as int) as i64);
                assert(y == decimal_of(tick.a@) as i64);
            }
            points.push((key, y));
            j = j + 1;
        }
        proof {
            assert(points@ =~= chart_points(m));
        }
        let buckets = aggregate(&points);
        let (upticks, downticks) = split_series(&buckets);
        TkrChart { upticks, downticks }
    }
}

/// One whole ten of price, in scaled fixed-point units: the grid the
/// y-axis viewport snaps to.
pub const TEN_PRICE_UNITS: i64 = 10 * DECIMAL_SCALE;

/// The nearest multiple of `m` at or below `v`.
pub open spec fn floor_to(v: int, m: int) -> int {
    v - (v % m)
}

/// The nearest multiple of `m` at or above `v`.
pub open spec fn ceil_to(v: int, m: int) -> int {
    v + ((m - (v % m)) % m)
}

/// Any multiple of `m` leaves no remainder by `m`.
proof fn lemma_multiple_mod_zero(x: int, m: int)
    requires
        0 < m,
    ensures
        (m * x) % m == 0,
{
    vstd::arithmetic::mul::lemma_mul_is_commutative(m, x);
    vstd::arithmetic::div_mod::lemma_mod_multiples_basic(x, m);
}

/// The multiple of `m` within `m` below `v` is its floor.
proof fn lemma_floor_to_at(v: int, f: int, m: int)
    requires
        1 <= m,
        f <= v < f + m,
        f % m == 0,
    ensures
        floor_to(v, m) == f,
{
    lemma_fundamental_div_mod(f, m);
    vstd::arithmetic::div_mod::lemma_mod_multiples_vanish(f / m, v - f, m);
    vstd::arithmetic::div_mod::lemma_small_mod((v - f) as nat, m as nat);
}

/// The multiple of `m` within `m` above `v` is its ceiling.
proof fn lemma_ceil_to_at(v: int, c: int, m: int)
    requires
        1 <= m,
        v <= c < v + m,
        c % m == 0,
    ensures
        ceil_to(v, m) == c,
{
    lemma_fundamental_div_mod(c, m);
    vstd::arithmetic::div_mod::lemma_mod_multiples_vanish(c / m, v - c, m);
    if c == v {
        vstd::arithmetic::div_mod::lemma_small_mod(0nat, m as nat);
        vstd::arithmetic::div_mod::lemma_mod_self_0(m);
    } else {
        vstd::arithmetic::div_mod::lemma_mod_multiples_vanish(-1, m - (c - v), m);
        vstd::arithmetic::div_mod::lemma_small_mod((m - (c - v)) as nat, m as nat);
        assert(v % m == m - (c - v));
        vstd::arithmetic::div_mod::lemma_small_mod((c - v) as nat, m as nat);
    }
}

/// Rounds down to a multiple of `m`.
pub fn floor_to_multiple(v: i64, m: i64) -> (f: i64)
    requires
        1 <= m,
        i64::MIN + m < v,
    ensures
        f as int == floor_to(v as int, m as int),
{
    if v >= 0 {
        let r = v % m;
        proof {
            let q = v as int / m as int;
            lemma_fundamental_div_mod(v as int, m as int);
            vstd::arithmetic::div_mod::lemma_mod_bound(v as int, m as int);
            lemma_multiple_mod_zero(q, m as int);
            assert(v - r == m as int * q);
            lemma_floor_to_at(v as int, v - r, m as int);
        }
        v - r
    } else {
        let mag = -v;
        let r = mag % m;
        proof {
            let q = mag as int / m as int;
            lemma_fundamental_div_mod(mag as int, m as int);
            vstd::arithmetic::div_mod::lemma_mod_bound(mag as int, m as int);
            if r == 0 {
                assert(m as int * (-q) == -(m as int * q)) by (nonlinear_arith);
                lemma_multiple_mod_zero(-q, m as int);
                assert(v as int == m as int * (-q));
                lemma_floor_to_at(v as int, v as int, m as int);
            } else {
                assert(m as int * (-q - 1) == -(m as int * q) - m as int) by (nonlinear_arith);
                lemma_multiple_mod_zero(-q - 1, m as int);
                assert(v as int - (m - r) == m as int * (-q - 1));
                lemma_floor_to_at(v as int, v as int - (m - r), m as int);
            }
        }
        if r == 0 {
            v
        } else {
            v - (m - r)
        }
    }
}

/// Rounds up to a multiple of `m`.
pub fn ceil_to_multiple(v: i64, m: i64) -> (c: i64)
    requires
        1 <= m,
        i64::MIN + m < v < i64::MAX - m,
    ensures
        c as int == ceil_to(v as int, m as int),
{
    if v >= 0 {
        let r = v % m;
        proof {
            let q = v as int / m as int;
            lemma_fundamental_div_mod(v as int, m as int);
            vstd::arithmetic::div_mod::lemma_mod_bound(v as int, m as int);
            if r == 0 {
                lemma_multiple_mod_zero(q, m as int);
                assert(v as int == m as int * q);
                lemma_ceil_to_at(v as int, v as int, m as int);
            } else {
                assert(m as int * (q + 1) == m as int * q + m as int) by (nonlinear_arith);
                lemma_multiple_mod_zero(q + 1, m as int);
                assert(v as int + (m - r) == m as int * (q + 1));
                lemma_ceil_to_at(v as int, v as int + (m - r), m as int);
            }
        }
        if r == 0 {
            v
        } else {
            v + (m - r)
        }
    } else {
        let mag = -v;
        let r = mag % m;
        proof {
            let q = mag as int / m as int;
            lemma_fundamental_div_mod(mag as int, m as int);
            vstd::arithmetic::div_mod::lemma_mod_bound(mag as int, m as int);
            assert(m as int * (-q) == -(m as int * q)) by (nonlinear_arith);
            lemma_multiple_mod_zero(-q, m as int);
            assert(v as int + r == m as int * (-q));
            lemma_ceil_to_at(v as int, v as int + r, m as int);
        }
        v + r
    }
}

/// Every x-coordinate of `s` is at most `m`.
pub open spec fn all_x_at_most(s: Seq<(i64, i64)>, m: int) -> bool {
    forall|i: int| 0 <= i < s.len() ==> (#[trigger] s[i]).0 <= m
}

/// Some point of `s` has x-coordinate `m`.
pub open spec fn attains_x(s: Seq<(i64, i64)>, m: i64) -> bool {
    exists|i: int| 0 <= i < s.len() && (#[trigger] s[i]).0 == m
}

/// Folds the points of `s` into a running maximum of x-coordinates.
fn scan_max_x(s: &Vec<(i64, i64)>, best0: Option<i64>) -> (r: Option<i64>)
    ensures
        r is None <==> (best0 is None && s@.len() == 0),
        r is Some ==> all_x_at_most(s@, r->0 as int) && (attains_x(s@, r->0) || best0 == Some(
            r->0,
        )),
        r is Some && best0 is Some ==> best0->0 <= r->0,
    decreases s@.len(),
{
    let mut best = best0;
    let mut i: usize = 0;
    while i < s.len()
        invariant
            i <= s@.len(),
            best is None ==> best0 is None && i == 0,
            best is Some ==> all_x_at_most(s@.take(i as int), best->0 as int) && (attains_x(
                s@.take(i as int),
                best->0,
            ) || best0 == Some(best->0)),
            best is Some && best0 is Some ==> best0->0 <= best->0,
        decreases s@.len() - i,
    {
        let (x, _) = s[i];
        let better = match best {
            Option::None => true,
            Option::Some(b) => x > b,
        };
        proof {
            assert(s@.take(i + 1).drop_last() =~= s@.take(i as int));
            assert(s@.take(i + 1).last() == s@[i as int]);
            if better {
                assert(s@.take(i + 1)[i as int].0 == x);
            } else {
                if attains_x(s@.take(i as int), best->0) {
                    let t = choose|t: int|
                        0 <= t < i && (#[trigger] s@.take(i as int)[t]).0 == best->0;
                    assert(s@.take(i + 1)[t].0 == best->0);
                }
            }
        }
        if better {
            best = Some(x);
        }
        i = i + 1;
    }
    proof {
        assert(s@.take(s@.len() as int) =~= s@);
    }
    best
}

/// The chart's visible x-range: fifty bucket widths back from the largest
/// bucket key of either series; `None` when both series are empty.
pub fn x_bounds(upticks: &Vec<(i64, i64)>, downticks: &Vec<(i64, i64)>) -> (r: Option<(i64, i64)>)
    requires
        forall|i: int| 0 <= i < upticks@.len() ==> (#[trigger] upticks@[i]).0 > i64::MIN + 50,
        forall|i: int| 0 <= i < downticks@.len() ==> (#[trigger] downticks@[i]).0 > i64::MIN + 50,
    ensures
        r is Some <==> upticks@.len() + downticks@.len() > 0,
        r is Some ==> {
            let (lo, hi) = r->0;
            &&& all_x_at_most(upticks@, hi as int)
            &&& all_x_at_most(downticks@, hi as int)
            &&& (attains_x(upticks@, hi) || attains_x(downticks@, hi))
            &&& lo == hi - 50
        },
{
    let best = scan_max_x(upticks, None);
    let best = scan_max_x(downticks, best);
    match best {
        Option::None => None,
        Option::Some(mx) => {
            proof {
                if attains_x(upticks@, mx) {
                    let t = choose|t: int|
                        0 <= t < upticks@.len() && (#[trigger] upticks@[t]).0 == mx;
                    assert(upticks@[t].0 > i64::MIN + 50);
                }
                if attains_x(downticks@, mx) {
                    let t = choose|t: int|
                        0 <= t < downticks@.len() && (#[trigger] downticks@[t]).0 == mx;
                    assert(downticks@[t].0 > i64::MIN + 50);
                }
            }
            Some((mx - 50, mx))
        },
    }
}

/// Every non-zero y-coordinate of `s` lies between `lo` and `hi`. Zero is
/// the sentinel for "no data" and is left out of range computation.
pub open spec fn nonzero_y_between(s: Seq<(i64, i64)>, lo: int, hi: int) -> bool {
    forall|i: int| 0 <= i < s.len() && (#[trigger] s[i]).1 != 0 ==> lo <= s[i].1 <= hi
}

/// Some point of `s` has the non-zero y-coordinate `v`.
pub open spec fn attains_nonzero_y(s: Seq<(i64, i64)>, v: i64) -> bool {
    v != 0 && exists|i: int| 0 <= i < s.len() && (#[trigger] s[i]).1 == v
}

/// Some point of `s` has a non-zero y-coordinate.
pub open spec fn has_nonzero_y(s: Seq<(i64, i64)>) -> bool {
    exists|i: int| 0 <= i < s.len() && (#[trigger] s[i]).1 != 0
}

/// The y-range `lo..hi` is the viewport for the two series: `lo` is the
/// least non-zero price rounded down to a whole ten of price, `hi` the
/// greatest rounded up, with `mn` and `mx` the attained extremes in scaled
/// units.
pub open spec fn y_viewport_ok(
    up: Seq<(i64, i64)>,
    down: Seq<(i64, i64)>,
    mn: i64,
    mx: i64,
    lo: i64,
    hi: i64,
) -> bool {
    &&& attains_nonzero_y(up, mn) || attains_nonzero_y(down, mn)
    &&& attains_nonzero_y(up, mx) || attains_nonzero_y(down, mx)
    &&& nonzero_y_between(up, mn as int, mx as int)
    &&& nonzero_y_between(down, mn as int, mx as int)
    &&& lo as int == floor_to(mn as int, TEN_PRICE_UNITS as int)
    &&& hi as int == ceil_to(mx as int, TEN_PRICE_UNITS as int)
}

/// Folds the points of `s` into a running (min, max) over non-zero
/// y-coordinates.
fn scan_y_range(s: &Vec<(i64, i64)>, best0: Option<(i64, i64)>) -> (r: Option<(i64, i64)>)
    requires
        best0 is Some ==> (best0->0).0 != 0 && (best0->0).1 != 0,
    ensures
        r is None <==> (best0 is None && !has_nonzero_y(s@)),
        r is Some ==> {
            let (mn, mx) = r->0;
            &&& mn != 0 && mx != 0
            &&& attains_nonzero_y(s@, mn) || best0 is Some && (best0->0).0 == mn
            &&& attains_nonzero_y(s@, mx) || best0 is Some && (best0->0).1 == mx
            &&& nonzero_y_between(s@, mn as int, mx as int)
            &&& best0 is Some ==> mn <= (best0->0).0 && (best0->0).1 <= mx
        },
{
    let mut best = best0;
    let mut i: usize = 0;
    while i < s.len()
        invariant
            i <= s@.len(),
            best0 is Some ==> (best0->0).0 != 0 && (best0->0).1 != 0,
            best is None ==> best0 is None && !has_nonzero_y(s@.take(i as int)),
            best is Some ==> {
                let (mn, mx) = best->0;
                &&& mn != 0 && mx != 0
                &&& attains_nonzero_y(s@.take(i as int), mn) || best0 is Some && (best0->0).0 == mn
                &&& attains_nonzero_y(s@.take(i as int), mx) || best0 is Some && (best0->0).1 == mx
                &&& nonzero_y_between(s@.take(i as int), mn as int, mx as int)
                &&& best0 is Some ==> mn <= (best0->0).0 && (best0->0).1 <= mx
            },
        decreases s@.len() - i,
    {
        let (_, y) = s[i];
        proof {
            assert(s@.take(i + 1).drop_last() =~= s@.take(i as int));
            assert(s@.take(i + 1)[i as int] == s@[i as int]);
            assert forall|t: int| 0 <= t < i implies s@.take(i + 1)[t] == s@.take(i as int)[t] by {}
            if best is Some {
                let (mn, mx) = best->0;
                if attains_nonzero_y(s@.take(i as int), mn) {
                    let t = choose|t: int|
                        0 <= t < i && (#[trigger] s@.take(i as int)[t]).1 == mn;
                    assert(s@.take(i + 1)[t].1 == mn);
                }
                if attains_nonzero_y(s@.take(i as int), mx) {
                    let t = choose|t: int|
                        0 <= t < i && (#[trigger] s@.take(i as int)[t]).1 == mx;
                    assert(s@.take(i + 1)[t].1 == mx);
                }
            }
            if best is None && has_nonzero_y(s@.take(i + 1)) && s@[i as int].1 == 0 {
                let t = choose|t: int|
                    0 <= t < i + 1 && (#[trigger] s@.take(i + 1)[t]).1 != 0;
                assert(s@.take(i as int)[t].1 != 0);
            }
        }
        if y != 0 {
            best = match best {
                Option::None => Some((y, y)),
                Option::Some((mn, mx)) => Some(
                    (
                        if y < mn {
                            y
                        } else {
                            mn
                        },
                        if y > mx {
                            y
                        } else {
                            mx
                        },
                    ),
                ),
            };
        }
        i = i + 1;
    }
    proof {
        assert(s@.take(s@.len() as int) =~= s@);
    }
    best
}

/// The chart's visible y-range: the least and greatest non-zero price of
/// either series, rounded out to whole tens of price (multiples of ten
/// times the price scale); `None` when every point's price is the zero
/// sentinel.
pub fn y_bounds(upticks: &Vec<(i64, i64)>, downticks: &Vec<(i64, i64)>) -> (r: Option<(i64, i64)>)
    requires
        forall|i: int|
            0 <= i < upticks@.len() ==> i64::MIN + TEN_PRICE_UNITS < (#[trigger] upticks@[i]).1
                < i64::MAX - TEN_PRICE_UNITS,
        forall|i: int|
            0 <= i < downticks@.len() ==> i64::MIN + TEN_PRICE_UNITS
                < (#[trigger] downticks@[i]).1 < i64::MAX - TEN_PRICE_UNITS,
    ensures
        r is Some <==> has_nonzero_y(upticks@) || has_nonzero_y(downticks@),
        r is Some ==> exists|mn: i64, mx: i64|
            #[trigger] y_viewport_ok(upticks@, downticks@, mn, mx, (r->0).0, (r->0).1),
{
    let best = scan_y_range(upticks, None);
    let best = scan_y_range(downticks, best);
    match best {
        Option::None => None,
        Option::Some((mn, mx)) => {
            proof {
                if attains_nonzero_y(upticks@, mn) {
                    let t = choose|t: int|
                        0 <= t < upticks@.len() && (#[trigger] upticks@[t]).1 == mn;
                    assert(upticks@[t].1 != 0);
                    assert(has_nonzero_y(upticks@));
                }
                if attains_nonzero_y(downticks@, mn) {
                    let t = choose|t: int|
                        0 <= t < downticks@.len() && (#[trigger] downticks@[t]).1 == mn;
                    assert(downticks@[t].1 != 0);
                    assert(has_nonzero_y(downticks@));
                }
                if attains_nonzero_y(upticks@, mx) {
                    let t = choose|t: int|
                        0 <= t < upticks@.len() && (#[trigger] upticks@[t]).1 == mx;
                    assert(upticks@[t].1 != 0);
                    assert(has_nonzero_y(upticks@));
                }
                if attains_nonzero_y(downticks@, mx) {
                    let t = choose|t: int|
                        0 <= t < downticks@.len() && (#[trigger] downticks@[t]).1 == mx;
                    assert(downticks@[t].1 != 0);
                    assert(has_nonzero_y(downticks@));
                }
            }
            let lo = floor_to_multiple(mn, TEN_PRICE_UNITS);
            let hi = ceil_to_multiple(mx, TEN_PRICE_UNITS);
            let out = Some((lo, hi));
            proof {
                assert(y_viewport_ok(upticks@, downticks@, mn, mx, (out->0).0, (out->0).1));
            }
            out
        },
    }
}

} // verus!
