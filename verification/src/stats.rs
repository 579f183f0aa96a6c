//! Time-windowed grouping and averaging of worker reports.
//!
//! The aggregator is a pure function over a snapshot of reports and an
//! explicit reference instant `now`: it keeps the reports of the trailing
//! 300-second window, groups them by pool, and computes for each pool the
//! number of distinct workers and the averaged hashrate and temperature,
//! rounded half away from zero at the tenths digit.

use vstd::prelude::*;
use vstd::arithmetic::div_mod::{
    lemma_div_denominator, lemma_div_is_ordered, lemma_div_multiples_vanish,
    lemma_div_nonincreasing, lemma_div_pos_is_pos,
};
use vstd::arithmetic::mul::{
    lemma_mul_is_commutative, lemma_mul_nonnegative, lemma_mul_strictly_positive,
};
use vstd::seq_lib::group_seq_lib_default;
use crate::report::{ReportView, WorkerReport};

verus! {

broadcast use group_seq_lib_default;

/// Length of the trailing window, in seconds.
pub const WINDOW_SECONDS: i64 = 300;

/// A report qualifies for the window ending at `now` iff its timestamp lies
/// strictly above `now - 300`. There is no upper bound: a report timestamped
/// ahead of `now` still qualifies.
pub open spec fn in_window(timestamp: int, now: int) -> bool {
    timestamp > now - (WINDOW_SECONDS as int)
}

/// The views of a sequence of reports.
pub open spec fn views_of(s: Seq<WorkerReport>) -> Seq<ReportView> {
    s.map_values(|r: WorkerReport| r@)
}

/// The reports of `s` that fall in the window ending at `now` and belong to
/// pool `pool`, in order.
pub open spec fn pool_group(s: Seq<ReportView>, now: int, pool: Seq<char>) -> Seq<ReportView> {
    s.filter(|r: ReportView| in_window(r.timestamp, now) && r.pool == pool)
}

/// Sum of the hashrates (in milli-units) of a group of reports.
pub open spec fn sum_hashrate(g: Seq<ReportView>) -> int
    decreases g.len(),
{
    if g.len() == 0 {
        0
    } else {
        sum_hashrate(g.drop_last()) + g.last().hashrate_milli
    }
}

/// Sum of the temperatures of a group of reports.
pub open spec fn sum_temperature(g: Seq<ReportView>) -> int
    decreases g.len(),
{
    if g.len() == 0 {
        0
    } else {
        sum_temperature(g.drop_last()) + g.last().temperature
    }
}

/// The distinct worker ids of a group of reports.
pub open spec fn worker_ids(g: Seq<ReportView>) -> Set<Seq<char>> {
    g.map_values(|r: ReportView| r.worker_id).to_set()
}

/// `num / den` rounded half away from zero, for `den > 0`: the quotient is
/// rounded up in magnitude exactly when the remainder of `|num| / den` is at
/// least half of `den`.
pub open spec fn div_round_half_away(num: int, den: int) -> int
    recommends
        den > 0,
{
    if num >= 0 {
        num / den + if 2 * (num % den) >= den { 1int } else { 0int }
    } else {
        -((-num) / den + if 2 * ((-num) % den) >= den { 1int } else { 0int })
    }
}

/// The statistics of one pool over a non-empty group of reports: the count of
/// distinct worker ids, and the two averages in tenths of a unit. An average
/// at the tenths digit is `10 * sum / count` rounded half away from zero; for
/// the hashrate, whose samples are in milli-units, that is `sum / (100 * count)`.
pub ghost struct PoolStatsView {
    pub workers: int,
    pub avg_hashrate_tenths: int,
    pub avg_temp_tenths: int,
}

/// The statistics determined by a group of reports (meaningful for a
/// non-empty group).
pub open spec fn stats_of_group(g: Seq<ReportView>) -> PoolStatsView {
    PoolStatsView {
        workers: worker_ids(g).len() as int,
        avg_hashrate_tenths: div_round_half_away(sum_hashrate(g), 100 * g.len() as int),
        avg_temp_tenths: div_round_half_away(10 * sum_temperature(g), g.len() as int),
    }
}

/// The full aggregation result: one entry per pool with at least one report
/// in the window, and that pool's statistics over its windowed group.
pub open spec fn stats_map(s: Seq<ReportView>, now: int) -> Map<Seq<char>, PoolStatsView> {
    Map::new(
        |pool: Seq<char>| pool_group(s, now, pool).len() > 0,
        |pool: Seq<char>| stats_of_group(pool_group(s, now, pool)),
    )
}

/// Window boundary: a report stamped exactly one window-length before `now`
/// is excluded (the lower bound is strict), while one second younger is
/// included.
pub proof fn lemma_window_boundary(now: int)
    ensures
        !in_window(now - WINDOW_SECONDS as int, now),
        in_window(now - (WINDOW_SECONDS as int - 1), now),
{
}

/// Appending a report leaves every other pool's windowed group unchanged:
/// reports to different pools never influence each other's statistics.
pub proof fn lemma_other_pool_group_unchanged(
    s: Seq<ReportView>,
    r: ReportView,
    now: int,
    pool: Seq<char>,
)
    requires
        pool != r.pool,
    ensures
        pool_group(s.push(r), now, pool) == pool_group(s, now, pool),
{
    reveal(Seq::filter);
    assert(s.push(r).drop_last() =~= s);
    assert(s.push(r).last() == r);
}

/// A pool's statistics depend only on that pool's windowed group: two report
/// sequences with the same group for `pool` agree on `pool`'s presence and
/// statistics.
pub proof fn lemma_pool_isolation(
    s1: Seq<ReportView>,
    s2: Seq<ReportView>,
    now: int,
    pool: Seq<char>,
)
    requires
        pool_group(s1, now, pool) == pool_group(s2, now, pool),
    ensures
        stats_map(s1, now).dom().contains(pool) <==> stats_map(s2, now).dom().contains(pool),
        stats_map(s1, now).dom().contains(pool) ==> stats_map(s1, now)[pool] == stats_map(
            s2,
            now,
        )[pool],
{
}

/// Visibility after a successful submit: once a report is appended, a query
/// whose reference instant covers the report's timestamp (`now` at or after
/// it, but within one window length) lists the report's pool, with at least
/// one worker.
pub proof fn lemma_submitted_report_visible(s: Seq<ReportView>, r: ReportView, now: int)
    requires
        now >= r.timestamp,
        now < r.timestamp + WINDOW_SECONDS as int,
    ensures
        stats_map(s.push(r), now).dom().contains(r.pool),
        stats_map(s.push(r), now)[r.pool].workers >= 1,
{
    reveal(Seq::filter);
    assert(s.push(r).drop_last() =~= s);
    assert(s.push(r).last() == r);
    assert(in_window(r.timestamp, now));
    let g = pool_group(s.push(r), now, r.pool);
    assert(g == pool_group(s, now, r.pool).push(r));
    lemma_worker_ids_push(pool_group(s, now, r.pool), r);
    assert(worker_ids(g).contains(r.worker_id));
    if worker_ids(g).len() == 0 {
        worker_ids(g).lemma_len0_is_empty();
    }
}

/// An empty report sequence yields an empty statistics mapping.
pub proof fn lemma_empty_store_stats_empty(now: int)
    ensures
        stats_map(Seq::<ReportView>::empty(), now) =~= Map::<Seq<char>, PoolStatsView>::empty(),
{
    reveal(Seq::filter);
}

/// Distinct-worker counting: two windowed reports to one pool from the same
/// worker count as a single worker, whatever their timestamps.
pub proof fn lemma_same_worker_counted_once(r1: ReportView, r2: ReportView, now: int)
    requires
        r1.worker_id == r2.worker_id,
        r1.pool == r2.pool,
        in_window(r1.timestamp, now),
        in_window(r2.timestamp, now),
    ensures
        stats_map(seq![r1, r2], now).dom().contains(r1.pool),
        stats_map(seq![r1, r2], now)[r1.pool].workers == 1,
{
    broadcast use vstd::set::group_set_axioms;

    reveal_with_fuel(Seq::filter, 3);
    let s = seq![r1, r2];
    assert(s.drop_last() =~= seq![r1]);
    assert(s.last() == r2);
    assert(seq![r1].drop_last() =~= Seq::<ReportView>::empty());
    assert(seq![r1].last() == r1);
    let g = pool_group(s, now, r1.pool);
    assert(g == Seq::<ReportView>::empty().push(r1).push(r2));
    lemma_worker_ids_push(Seq::<ReportView>::empty().push(r1), r2);
    lemma_worker_ids_push(Seq::<ReportView>::empty(), r1);
    assert(worker_ids(Seq::<ReportView>::empty()) =~= Set::<Seq<char>>::empty());
    assert(worker_ids(g) =~= Set::<Seq<char>>::empty().insert(r1.worker_id));
    assert(worker_ids(g).len() == 1);
}

/// The views of a sequence of worker-id strings.
pub open spec fn worker_views(ws: Seq<String>) -> Seq<Seq<char>> {
    ws.map_values(|s: String| s@)
}

/// Extending the scanned prefix by one report extends the group of exactly
/// the report's own pool, and only when the report is in the window.
proof fn lemma_pool_group_take_step(s: Seq<ReportView>, now: int, pool: Seq<char>, i: int)
    requires
        0 <= i < s.len(),
    ensures
        in_window(s[i].timestamp, now) && s[i].pool == pool ==> pool_group(s.take(i + 1), now, pool)
            == pool_group(s.take(i), now, pool).push(s[i]),
        !(in_window(s[i].timestamp, now) && s[i].pool == pool) ==> pool_group(
            s.take(i + 1),
            now,
            pool,
        ) == pool_group(s.take(i), now, pool),
{
    reveal(Seq::filter);
    assert(s.take(i + 1).drop_last() =~= s.take(i));
    assert(s.take(i + 1).last() == s[i]);
}

/// A pool's group is never longer than the report sequence it is drawn from.
proof fn lemma_pool_group_len(s: Seq<ReportView>, now: int, pool: Seq<char>)
    ensures
        pool_group(s, now, pool).len() <= s.len(),
    decreases s.len(),
{
    reveal(Seq::filter);
    if s.len() > 0 {
        lemma_pool_group_len(s.drop_last(), now, pool);
    }
}

/// The sums over a group extended by one report grow by that report's values.
proof fn lemma_sums_push(g: Seq<ReportView>, r: ReportView)
    ensures
        sum_hashrate(g.push(r)) == sum_hashrate(g) + r.hashrate_milli,
        sum_temperature(g.push(r)) == sum_temperature(g) + r.temperature,
{
    assert(g.push(r).drop_last() =~= g);
    assert(g.push(r).last() == r);
}

/// The worker ids of a group extended by one report gain that report's id.
proof fn lemma_worker_ids_push(g: Seq<ReportView>, r: ReportView)
    ensures
        worker_ids(g.push(r)) == worker_ids(g).insert(r.worker_id),
{
    let f = |x: ReportView| x.worker_id;
    assert(g.push(r).map_values(f) =~= g.map_values(f) + seq![r.worker_id]);
    Seq::lemma_to_set_insert_commutes(g.map_values(f), r.worker_id);
    assert(worker_ids(g.push(r)) =~= worker_ids(g).insert(r.worker_id));
}

/// The views of a string sequence extended by one string gain its view.
proof fn lemma_worker_views_push(ws: Seq<String>, s: String)
    ensures
        worker_views(ws.push(s)) == worker_views(ws).push(s@),
{
    assert(worker_views(ws.push(s)) =~= worker_views(ws).push(s@));
}

/// `num / den` rounded half away from zero, in executable form.
fn round_div_half_away(num: i128, den: u128) -> (q: i128)
    requires
        0 < den <= 0x8000_0000_0000_0000_0000_0000_0000_0000u128,
        num != i128::MIN,
    ensures
        q == div_round_half_away(num as int, den as int),
{
    let neg: bool = num < 0;
    let a: u128 = if neg {
        (-num) as u128
    } else {
        num as u128
    };
    let quot: u128 = a / den;
    let rem: u128 = a % den;
    proof {
        lemma_div_nonincreasing(a as int, den as int);
        if 2 * (rem as int) >= den as int {
            vstd::arithmetic::div_mod::lemma_fundamental_div_mod(a as int, den as int);
            assert(quot as int <= den as int * quot as int) by (nonlinear_arith)
                requires
                    den as int >= 1,
                    quot as int >= 0,
            ;
        }
    }
    let mag: u128 = if 2 * rem >= den {
        quot + 1
    } else {
        quot
    };
    if neg {
        -(mag as i128)
    } else {
        mag as i128
    }
}

/// Bound on the rounded average: when `|num| <= n * b` and the divisor is
/// `c * n`, the rounded quotient has magnitude at most `b / c + 1`.
proof fn lemma_round_div_bound(num: int, n: int, c: int, b: int)
    requires
        n > 0,
        c > 0,
        b >= 0,
        -(n * b) <= num <= n * b,
    ensures
        -(b / c + 1) <= div_round_half_away(num, c * n) <= b / c + 1,
{
    lemma_mul_strictly_positive(c, n);
    lemma_mul_nonnegative(n, b);
    let d = c * n;
    let a = if num >= 0 { num } else { -num };
    assert(0 <= a <= n * b);
    lemma_div_is_ordered(a, n * b, d);
    assert((n * b) / (n * c) == ((n * b) / n) / c) by {
        lemma_div_denominator(n * b, n, c);
    }
    assert((n * b) / n == b) by {
        lemma_div_multiples_vanish(b, n);
    }
    assert(d == n * c) by {
        lemma_mul_is_commutative(c, n);
    }
    assert((n * b) / d == b / c);
    lemma_div_pos_is_pos(a, d);
    lemma_div_pos_is_pos(b, c);
    assert(0 <= a / d <= b / c);
    if num >= 0 {
        assert(num / d <= div_round_half_away(num, d) <= num / d + 1);
    } else {
        assert(-(a / d + 1) <= div_round_half_away(num, d) <= 0);
    }
}

/// Running totals for one pool while a snapshot is scanned.
struct PoolAcc {
    pool: String,
    count: usize,
    sum_hash: i128,
    sum_temp: i128,
    workers: Vec<String>,
}

/// The accumulator's totals are internally consistent: a positive report
/// count, a duplicate-free list of worker ids, and sums bounded by the count
/// times the largest magnitude one sample can contribute.
spec fn acc_wf(acc: PoolAcc) -> bool {
    &&& acc.count > 0
    &&& worker_views(acc.workers@).no_duplicates()
    &&& -(acc.count as int * 0x8000_0000_0000_0000) <= acc.sum_hash as int <= acc.count as int
        * 0x8000_0000_0000_0000
    &&& -(acc.count as int * 0x8000_0000) <= acc.sum_temp as int <= acc.count as int * 0x8000_0000
}

/// The accumulator holds exactly the totals of its pool's group within `s`.
spec fn acc_ok(acc: PoolAcc, s: Seq<ReportView>, now: int) -> bool {
    let g = pool_group(s, now, acc.pool@);
    &&& acc_wf(acc)
    &&& acc.count == g.len()
    &&& acc.sum_hash as int == sum_hashrate(g)
    &&& acc.sum_temp as int == sum_temperature(g)
    &&& worker_views(acc.workers@).to_set() == worker_ids(g)
}

/// The index of the accumulator for `pool`, if one exists.
fn find_pool(accs: &Vec<PoolAcc>, pool: &String) -> (idx: Option<usize>)
    ensures
        match idx {
            Some(j) => j < accs@.len() && accs@[j as int].pool@ == pool@,
            None => forall|j: int| 0 <= j < accs@.len() ==> (#[trigger] accs@[j].pool@) != pool@,
        },
{
    let mut j: usize = 0;
    while j < accs.len()
        invariant
            j <= accs@.len(),
            forall|k: int| 0 <= k < j ==> (#[trigger] accs@[k].pool@) != pool@,
        decreases accs@.len() - j,
    {
        if accs[j].pool == *pool {
            return Some(j);
        }
        j += 1;
    }
    None
}

/// Whether `s` already occurs among the collected worker ids.
fn contains_string(ws: &Vec<String>, s: &String) -> (found: bool)
    ensures
        found == worker_views(ws@).contains(s@),
{
    let mut j: usize = 0;
    while j < ws.len()
        invariant
            j <= ws@.len(),
            forall|k: int| 0 <= k < j ==> (#[trigger] ws@[k]@) != s@,
        decreases ws@.len() - j,
    {
        if ws[j] == *s {
            proof {
                assert(worker_views(ws@)[j as int] == s@);
            }
            return true;
        }
        j += 1;
    }
    proof {
        assert forall|k: int| 0 <= k < worker_views(ws@).len() implies worker_views(ws@)[k]
            != s@ by {
            assert(worker_views(ws@)[k] == ws@[k]@);
        }
    }
    false
}

/// Scan a snapshot once and build one accumulator per pool that has at least
/// one report in the window ending at `now`.
fn collect_groups(snapshot: &Vec<WorkerReport>, now: i64) -> (accs: Vec<PoolAcc>)
    ensures
        forall|j1: int, j2: int|
            0 <= j1 < j2 < accs@.len() ==> accs@[j1].pool@ != accs@[j2].pool@,
        forall|j: int|
            0 <= j < accs@.len() ==> acc_ok(#[trigger] accs@[j], views_of(snapshot@), now as int),
        forall|pool: Seq<char>|
            pool_group(views_of(snapshot@), now as int, pool).len() > 0 ==> exists|j: int|
                0 <= j < accs@.len() && (#[trigger] accs@[j].pool@) == pool,
{
    let ghost sv = views_of(snapshot@);
    let ghost gnow = now as int;
    let mut accs: Vec<PoolAcc> = Vec::new();
    let mut i: usize = 0;
    while i < snapshot.len()
        invariant
            i <= snapshot@.len(),
            sv == views_of(snapshot@),
            gnow == now as int,
            forall|j1: int, j2: int|
                0 <= j1 < j2 < accs@.len() ==> accs@[j1].pool@ != accs@[j2].pool@,
            forall|j: int|
                0 <= j < accs@.len() ==> acc_ok(#[trigger] accs@[j], sv.take(i as int), gnow),
            forall|pool: Seq<char>|
                pool_group(sv.take(i as int), gnow, pool).len() > 0 ==> exists|j: int|
                    0 <= j < accs@.len() && (#[trigger] accs@[j].pool@) == pool,
        decreases snapshot@.len() - i,
    {
        let ghost prev = accs@;
        let ghost rv = sv[i as int];
        proof {
            assert(rv == snapshot@[i as int]@);
        }
        let r = &snapshot[i];
        let in_win: bool = (r.timestamp as i128) > (now as i128) - (WINDOW_SECONDS as i128);
        if in_win {
            match find_pool(&accs, &r.pool) {
                Some(j) => {
                    proof {
                        lemma_pool_group_take_step(sv, gnow, prev[j as int].pool@, i as int);
                        lemma_pool_group_len(sv.take(i as int), gnow, prev[j as int].pool@);
                        lemma_sums_push(pool_group(sv.take(i as int), gnow, prev[j as int].pool@), rv);
                        lemma_worker_ids_push(
                            pool_group(sv.take(i as int), gnow, prev[j as int].pool@),
                            rv,
                        );
                    }
                    let known: bool = contains_string(&accs[j].workers, &r.worker_id);
                    let mut acc = accs.remove(j);
                    acc.count = acc.count + 1;
                    acc.sum_hash = acc.sum_hash + r.hashrate_milli as i128;
                    acc.sum_temp = acc.sum_temp + r.temperature as i128;
                    if !known {
                        proof {
                            lemma_worker_views_push(acc.workers@, snapshot@[i as int].worker_id);
                        }
                        acc.workers.push(r.worker_id.clone());
                    }
                    proof {
                        let g0 = pool_group(sv.take(i as int), gnow, acc.pool@);
                        let g1 = pool_group(sv.take(i as int + 1), gnow, acc.pool@);
                        assert(g1 == g0.push(rv));
                        if known {
                            assert(worker_views(acc.workers@).to_set().contains(rv.worker_id));
                            assert(worker_views(acc.workers@).to_set() =~= worker_ids(g1));
                        } else {
                            let ws0 = worker_views(prev[j as int].workers@);
                            assert(worker_views(acc.workers@) == ws0.push(rv.worker_id));
                            assert(ws0.push(rv.worker_id) =~= ws0 + seq![rv.worker_id]);
                            Seq::lemma_to_set_insert_commutes(ws0, rv.worker_id);
                            assert(worker_views(acc.workers@).to_set() =~= worker_ids(g1));
                            assert(!ws0.contains(rv.worker_id));
                            assert forall|k1: int, k2: int|
                                0 <= k1 < k2 < worker_views(acc.workers@).len() implies
                                worker_views(acc.workers@)[k1] != worker_views(
                                acc.workers@,
                            )[k2] by {
                                if k2 == ws0.len() {
                                    assert(ws0[k1] == worker_views(acc.workers@)[k1]);
                                }
                            }
                            assert(worker_views(acc.workers@).no_duplicates());
                        }
                        assert(acc_ok(acc, sv.take(i as int + 1), gnow));
                    }
                    accs.push(acc);
                    proof {
                        assert forall|j2: int| 0 <= j2 < accs@.len() implies acc_ok(
                            #[trigger] accs@[j2],
                            sv.take(i as int + 1),
                            gnow,
                        ) by {
                            if j2 < accs@.len() - 1 {
                                let old_j = if j2 < j { j2 } else { j2 + 1 };
                                assert(accs@[j2] == prev[old_j]);
                                lemma_pool_group_take_step(sv, gnow, prev[old_j].pool@, i as int);
                            }
                        }
                        assert forall|pool: Seq<char>|
                            (#[trigger] pool_group(sv.take(i as int + 1), gnow, pool)).len() > 0 implies exists|
                            j2: int,
                        |
                            0 <= j2 < accs@.len() && (#[trigger] accs@[j2].pool@) == pool by {
                            lemma_pool_group_take_step(sv, gnow, pool, i as int);
                            if pool == rv.pool {
                                assert(accs@[accs@.len() - 1].pool@ == pool);
                            } else {
                                assert(pool_group(sv.take(i as int), gnow, pool).len() > 0);
                                let j1 = choose|j1: int|
                                    0 <= j1 < prev.len() && (#[trigger] prev[j1].pool@) == pool;
                                let j2 = if j1 < j { j1 } else if j1 == j { accs@.len() - 1 } else {
                                    j1 - 1
                                };
                                assert(accs@[j2].pool@ == pool);
                            }
                        }
                    }
                },
                None => {
                    proof {
                        lemma_pool_group_take_step(sv, gnow, rv.pool, i as int);
                        if pool_group(sv.take(i as int), gnow, rv.pool).len() > 0 {
                            let j1 = choose|j1: int|
                                0 <= j1 < prev.len() && (#[trigger] prev[j1].pool@) == rv.pool;
                            assert(false);
                        }
                        assert(pool_group(sv.take(i as int), gnow, rv.pool) =~= Seq::<
                            ReportView,
                        >::empty());
                        lemma_sums_push(Seq::<ReportView>::empty(), rv);
                        lemma_worker_ids_push(Seq::<ReportView>::empty(), rv);
                    }
                    let mut ws: Vec<String> = Vec::new();
                    ws.push(r.worker_id.clone());
                    let acc = PoolAcc {
                        pool: r.pool.clone(),
                        count: 1,
                        sum_hash: r.hashrate_milli as i128,
                        sum_temp: r.temperature as i128,
                        workers: ws,
                    };
                    proof {
                        let g1 = pool_group(sv.take(i as int + 1), gnow, rv.pool);
                        assert(g1 == Seq::<ReportView>::empty().push(rv));
                        assert(worker_views(acc.workers@) =~= Seq::<Seq<char>>::empty().push(
                            rv.worker_id,
                        ));
                        Seq::lemma_to_set_insert_commutes(
                            Seq::<Seq<char>>::empty(),
                            rv.worker_id,
                        );
                        assert(Seq::<Seq<char>>::empty().push(rv.worker_id) =~= Seq::<
                            Seq<char>,
                        >::empty() + seq![rv.worker_id]);
                        assert(worker_views(acc.workers@).to_set() =~= worker_ids(g1));
                        assert(acc_ok(acc, sv.take(i as int + 1), gnow));
                    }
                    accs.push(acc);
                    proof {
                        assert forall|j2: int| 0 <= j2 < accs@.len() implies acc_ok(
                            #[trigger] accs@[j2],
                            sv.take(i as int + 1),
                            gnow,
                        ) by {
                            if j2 < accs@.len() - 1 {
                                assert(accs@[j2] == prev[j2]);
                                lemma_pool_group_take_step(sv, gnow, prev[j2].pool@, i as int);
                            }
                        }
                        assert forall|pool: Seq<char>|
                            (#[trigger] pool_group(sv.take(i as int + 1), gnow, pool)).len() > 0 implies exists|
                            j2: int,
                        |
                            0 <= j2 < accs@.len() && (#[trigger] accs@[j2].pool@) == pool by {
                            lemma_pool_group_take_step(sv, gnow, pool, i as int);
                            if pool == rv.pool {
                                assert(accs@[accs@.len() - 1].pool@ == pool);
                            } else {
                                assert(pool_group(sv.take(i as int), gnow, pool).len() > 0);
                                let j1 = choose|j1: int|
                                    0 <= j1 < prev.len() && (#[trigger] prev[j1].pool@) == pool;
                                assert(accs@[j1].pool@ == pool);
                            }
                        }
                    }
                },
            }
        } else {
            proof {
                assert forall|j2: int| 0 <= j2 < accs@.len() implies acc_ok(
                    #[trigger] accs@[j2],
                    sv.take(i as int + 1),
                    gnow,
                ) by {
                    lemma_pool_group_take_step(sv, gnow, accs@[j2].pool@, i as int);
                }
                assert forall|pool: Seq<char>|
                    (#[trigger] pool_group(sv.take(i as int + 1), gnow, pool)).len() > 0 implies exists|j2: int|
                    0 <= j2 < accs@.len() && (#[trigger] accs@[j2].pool@) == pool by {
                    lemma_pool_group_take_step(sv, gnow, pool, i as int);
                }
            }
        }
        i += 1;
    }
    proof {
        assert(sv.take(i as int) =~= sv);
    }
    accs
}

/// Aggregated statistics for one pool, averages in tenths of a unit.
pub struct PoolStats {
    pub workers: usize,
    pub avg_hashrate_tenths: i64,
    pub avg_temp_tenths: i64,
}

impl View for PoolStats {
    type V = PoolStatsView;

    open spec fn view(&self) -> PoolStatsView {
        PoolStatsView {
            workers: self.workers as int,
            avg_hashrate_tenths: self.avg_hashrate_tenths as int,
            avg_temp_tenths: self.avg_temp_tenths as int,
        }
    }
}

/// One entry of the aggregation result: a pool name and its statistics.
pub struct PoolEntry {
    pub pool: String,
    pub stats: PoolStats,
}

/// The aggregation result: statistics per pool, one entry per pool with at
/// least one report in the window.
pub struct StatsResponse {
    pub pools: Vec<PoolEntry>,
}

/// The statistics an accumulator's totals determine: distinct collected
/// worker ids, and the two rounded averages over its count.
spec fn acc_stats(acc: PoolAcc) -> PoolStatsView {
    PoolStatsView {
        workers: worker_views(acc.workers@).to_set().len() as int,
        avg_hashrate_tenths: div_round_half_away(acc.sum_hash as int, 100 * acc.count as int),
        avg_temp_tenths: div_round_half_away(10 * acc.sum_temp as int, acc.count as int),
    }
}

/// Turn the accumulators into response entries, computing each pool's
/// distinct-worker count and rounded averages.
fn finalize(accs: Vec<PoolAcc>) -> (resp: StatsResponse)
    requires
        forall|j: int| 0 <= j < accs@.len() ==> acc_wf(#[trigger] accs@[j]),
    ensures
        resp.pools@.len() == accs@.len(),
        forall|j: int|
            0 <= j < accs@.len() ==> (#[trigger] resp.pools@[j]).pool@ == accs@[j].pool@
                && resp.pools@[j].stats@ == acc_stats(accs@[j]),
{
    let mut pools: Vec<PoolEntry> = Vec::new();
    let mut idx: usize = 0;
    while idx < accs.len()
        invariant
            idx <= accs@.len(),
            pools@.len() == idx,
            forall|j: int| 0 <= j < accs@.len() ==> acc_wf(#[trigger] accs@[j]),
            forall|j: int|
                0 <= j < idx ==> (#[trigger] pools@[j]).pool@ == accs@[j].pool@
                    && pools@[j].stats@ == acc_stats(accs@[j]),
        decreases accs@.len() - idx,
    {
        let acc = &accs[idx];
        let workers: usize = acc.workers.len();
        proof {
            worker_views(acc.workers@).unique_seq_to_set();
        }
        let den_hash: u128 = 100 * (acc.count as u128);
        let avg_hash: i128 = round_div_half_away(acc.sum_hash, den_hash);
        let avg_temp: i128 = round_div_half_away(10 * acc.sum_temp, acc.count as u128);
        proof {
            lemma_round_div_bound(
                acc.sum_hash as int,
                acc.count as int,
                100,
                0x8000_0000_0000_0000,
            );
            lemma_round_div_bound(10 * acc.sum_temp as int, acc.count as int, 1, 0x5_0000_0000);
        }
        let entry = PoolEntry {
            pool: acc.pool.clone(),
            stats: PoolStats {
                workers,
                avg_hashrate_tenths: avg_hash as i64,
                avg_temp_tenths: avg_temp as i64,
            },
        };
        pools.push(entry);
        idx += 1;
    }
    StatsResponse { pools }
}

/// Compute per-pool statistics over a snapshot of reports and an explicit
/// reference instant `now`: reports in the trailing window are grouped by
/// pool, and each pool with at least one such report gets one entry holding
/// its distinct-worker count and its averaged hashrate and temperature,
/// rounded half away from zero at the tenths digit. Pools with no report in
/// the window are absent.
pub fn aggregate(snapshot: &Vec<WorkerReport>, now: i64) -> (resp: StatsResponse)
    ensures
        resp.represents(stats_map(views_of(snapshot@), now as int)),
{
    let ghost sv = views_of(snapshot@);
    let ghost gnow = now as int;
    let accs = collect_groups(snapshot, now);
    let ghost gaccs = accs@;
    let resp = finalize(accs);
    proof {
        let m = stats_map(sv, gnow);
        assert forall|j: int| 0 <= j < resp.pools@.len() implies m.dom().contains(
            #[trigger] resp.pools@[j].pool@,
        ) by {
            assert(acc_ok(gaccs[j], sv, gnow));
        }
        assert forall|j: int| 0 <= j < resp.pools@.len() implies (#[trigger] resp.pools@[j].stats@)
            == m[resp.pools@[j].pool@] by {
            assert(acc_ok(gaccs[j], sv, gnow));
            let g = pool_group(sv, gnow, gaccs[j].pool@);
            assert(resp.pools@[j].stats@ == acc_stats(gaccs[j]));
            assert(acc_stats(gaccs[j]).workers == worker_ids(g).len());
            assert(100 * gaccs[j].count as int == 100 * g.len() as int);
            assert(acc_stats(gaccs[j]) == stats_of_group(g));
        }
        assert forall|pool: Seq<char>| m.dom().contains(pool) implies exists|j: int|
            0 <= j < resp.pools@.len() && (#[trigger] resp.pools@[j].pool@) == pool by {
            let j = choose|j: int| 0 <= j < gaccs.len() && (#[trigger] gaccs[j].pool@) == pool;
            assert(resp.pools@[j].pool@ == pool);
        }
        assert(resp.represents(m));
    }
    resp
}

impl StatsResponse {
    /// The entry sequence carries exactly the pools of `m`, without
    /// duplicates, each with the statistics `m` assigns to it.
    pub open spec fn represents(&self, m: Map<Seq<char>, PoolStatsView>) -> bool {
        &&& forall|i: int, j: int|
            0 <= i < j < self.pools@.len() ==> self.pools@[i].pool@ != self.pools@[j].pool@
        &&& forall|i: int|
            0 <= i < self.pools@.len() ==> m.dom().contains(#[trigger] self.pools@[i].pool@)
        &&& forall|i: int|
            0 <= i < self.pools@.len() ==> #[trigger] self.pools@[i].stats@ == m[self.pools@[i].pool@]
        &&& forall|pool: Seq<char>|
            m.dom().contains(pool) ==> exists|i: int|
                0 <= i < self.pools@.len() && (#[trigger] self.pools@[i].pool@) == pool
    }

    /// How many pools have statistics in this response.
    pub fn pool_count(&self) -> (n: usize)
        ensures
            n == self.pools@.len(),
    {
        self.pools.len()
    }

    /// The statistics of the pool named `pool`, if the response has an entry
    /// for it.
    pub fn get(&self, pool: &String) -> (found: Option<&PoolStats>)
        ensures
            match found {
                Some(st) => exists|i: int|
                    0 <= i < self.pools@.len() && (#[trigger] self.pools@[i].pool@) == pool@
                        && st@ == self.pools@[i].stats@,
                None => forall|i: int|
                    0 <= i < self.pools@.len() ==> (#[trigger] self.pools@[i].pool@) != pool@,
            },
    {
        let mut i: usize = 0;
        while i < self.pools.len()
            invariant
                i <= self.pools@.len(),
                forall|k: int| 0 <= k < i ==> (#[trigger] self.pools@[k].pool@) != pool@,
            decreases self.pools@.len() - i,
        {
            if self.pools[i].pool == *pool {
                return Some(&self.pools[i].stats);
            }
            i += 1;
        }
        None
    }
}

} // verus!
