//! What holds of writing and fetching taken together.
use crate::codec::blank_bytes;
use crate::codec::lemma_chained_bounds;
use crate::codec::lemma_header_bytes_len;
use crate::codec::lemma_point_found;
use crate::codec::point_at;
use crate::codec::point_bytes;
use crate::fetch::align;
use crate::fetch::chosen;
use crate::fetch::clamped;
use crate::fetch::fetch_series;
use crate::fetch::sample;
use crate::fetch::slot_at;
use crate::fetch::slot_of;
use crate::fetch::steps_between;
use crate::planner::lemma_ordered_steps_positive;
use crate::stream::splice;
use crate::types::ArchiveInfo;
use crate::types::HeaderView;
use crate::types::Point;
use crate::types::lemma_points_before_grows;
use crate::wire::lemma_u32_round_trip;
use crate::wire::lemma_u64_round_trip;
use crate::write::admission;
use crate::write::cascade;
use crate::write::interval_start;
use crate::write::placed;
use crate::write::rolled;
use crate::write::rolls_up;
use crate::write::updated;
use vstd::arithmetic::div_mod::lemma_div_is_ordered;
use vstd::arithmetic::div_mod::lemma_fundamental_div_mod;
use vstd::arithmetic::div_mod::lemma_fundamental_div_mod_converse;
use vstd::arithmetic::div_mod::lemma_mod_bound;
use vstd::arithmetic::div_mod::lemma_mod_equivalence;
use vstd::arithmetic::div_mod::lemma_small_mod;
use vstd::prelude::*;

verus! {

/// Whole steps added to a time add as many to its quotient by the step and
/// leave the remainder as it is.
pub proof fn lemma_step_quotient(t: int, j: int, step: int)
    requires
        step > 0,
    ensures
        (t + j * step) / step == t / step + j,
        (t + j * step) % step == t % step,
{
    lemma_fundamental_div_mod(t, step);
    lemma_mod_bound(t, step);
    let q = t / step;
    let r = t % step;
    assert(t + j * step == (q + j) * step + r) by (nonlinear_arith)
        requires
            t == step * q + r,
    ;
    lemma_fundamental_div_mod_converse(t + j * step, step, q + j, r);
}

/// Every time falls into a slot of the archive, and the slot lies within
/// the archive's bytes.
pub proof fn lemma_slot_bounds(a: ArchiveInfo, t: int)
    requires
        a.seconds_per_point > 0,
        a.num_points > 0,
    ensures
        0 <= slot_of(a, t) < a.num_points,
        a.offset <= slot_at(a, t),
        slot_at(a, t) + 12 <= a.end(),
{
    lemma_mod_bound(t / a.seconds_per_point as int, a.num_points as int);
}

/// A point written over twelve bytes is read back from there.
pub proof fn lemma_spliced_point(b: Seq<u8>, at: int, p: Point)
    requires
        0 <= at,
        at + 12 <= b.len(),
    ensures
        splice(b, at, point_bytes(p)).len() == b.len(),
        point_at(splice(b, at, point_bytes(p)), at) == p,
{
    lemma_u32_round_trip(p.timestamp);
    lemma_u64_round_trip(p.value);
    let after = splice(b, at, point_bytes(p));
    assert(after.subrange(at, at + 12) =~= point_bytes(p));
    lemma_point_found(after, at, p);
}

/// A point written over twelve bytes leaves the points beside them as they
/// were.
pub proof fn lemma_spliced_elsewhere(b: Seq<u8>, at: int, p: Point, other: int)
    requires
        0 <= at,
        at + 12 <= b.len(),
        0 <= other,
        other + 12 <= b.len(),
        other + 12 <= at || at + 12 <= other,
    ensures
        point_at(splice(b, at, point_bytes(p)), other) == point_at(b, other),
{
    lemma_u32_round_trip(p.timestamp);
    lemma_u64_round_trip(p.value);
    let after = splice(b, at, point_bytes(p));
    assert(after.subrange(other, other + 4) =~= b.subrange(other, other + 4));
    assert(after.subrange(other + 4, other + 4 + 8) =~= b.subrange(other + 4, other + 4 + 8));
}

/// A point that was written is held for its time, whatever the slot held
/// before.
pub proof fn lemma_placed_is_held(b: Seq<u8>, a: ArchiveInfo, p: Point)
    requires
        a.seconds_per_point > 0,
        a.num_points > 0,
        a.end() <= b.len(),
    ensures
        placed(b, a, p).len() == b.len(),
        sample(placed(b, a, p), a, p.timestamp as int) == Some(p.value),
{
    lemma_slot_bounds(a, p.timestamp as int);
    lemma_spliced_point(b, slot_at(a, p.timestamp as int), p);
}

/// A write changes what the archive holds for the times that fall into
/// the written slot, and for no others: for the time of the point it holds
/// the point's value, for the other times of that slot nothing.
pub proof fn lemma_placed_sample(b: Seq<u8>, a: ArchiveInfo, p: Point, t: int)
    requires
        a.seconds_per_point > 0,
        a.num_points > 0,
        a.end() <= b.len(),
    ensures
        sample(placed(b, a, p), a, t) == (if slot_of(a, t) != slot_of(a, p.timestamp as int) {
            sample(b, a, t)
        } else if t == p.timestamp {
            Some(p.value)
        } else {
            None
        }),
{
    lemma_slot_bounds(a, p.timestamp as int);
    lemma_slot_bounds(a, t);
    lemma_spliced_point(b, slot_at(a, p.timestamp as int), p);
    if slot_of(a, t) != slot_of(a, p.timestamp as int) {
        lemma_spliced_elsewhere(b, slot_at(a, p.timestamp as int), p, slot_at(a, t));
    }
}

/// Two points of a run fall into one slot exactly if they are a multiple
/// of the number of slots apart.
proof fn lemma_same_slot(a: ArchiveInfo, start: int, i: int, j: int)
    requires
        a.seconds_per_point > 0,
        a.num_points > 0,
    ensures
        slot_of(a, time_of(start, i, a.seconds_per_point as int)) == slot_of(
            a,
            time_of(start, j, a.seconds_per_point as int),
        ) <==> (i - j) % (a.num_points as int) == 0,
{
    let step = a.seconds_per_point as int;
    let q = start / step;
    lemma_step_quotient(start, i, step);
    lemma_step_quotient(start, j, step);
    lemma_mod_equivalence(q + i, q + j, a.num_points as int);
}

/// The times of a run grow with their number.
proof fn lemma_time_grows(start: int, i: int, j: int, step: int)
    requires
        step > 0,
        i < j,
    ensures
        time_of(start, i, step) < time_of(start, j, step),
{
    assert(i * step < j * step) by (nonlinear_arith)
        requires
            step > 0,
            i < j,
    ;
}

/// A time that is a multiple of the step stays below the alignment of
/// every time that is not before it.
proof fn lemma_align_reaches(x: int, m: int, step: int)
    requires
        step > 0,
        0 <= m <= x,
        m % step == 0,
    ensures
        m <= align(x, step) <= x,
        align(m, step) == m,
{
    lemma_fundamental_div_mod(x, step);
    lemma_fundamental_div_mod(m, step);
    lemma_mod_bound(x, step);
    lemma_div_is_ordered(m, x, step);
    assert(step * (m / step) <= step * (x / step)) by (nonlinear_arith)
        requires
            m / step <= x / step,
            step > 0,
    ;
}

/// A fetch that starts at a multiple of the finest archive's step, which
/// that archive still covers, and ends at least one step later, has as its
/// first entry what the finest archive holds for the start.
proof fn lemma_fetch_head(b: Seq<u8>, h: HeaderView, timestamp: u32, until: u32, now: u32)
    requires
        h.well_formed(),
        timestamp <= now,
        timestamp as int % h.archive_info[0].seconds_per_point as int == 0,
        now - timestamp <= h.archive_info[0].spec_retention(),
        until >= timestamp + h.archive_info[0].seconds_per_point,
    ensures
        fetch_series(b, h, timestamp as int, until as int, now as int).len() > 0,
        fetch_series(b, h, timestamp as int, until as int, now as int)[0] == (
            timestamp,
            sample(b, h.archive_info[0], timestamp as int),
        ),
{
    let a = h.archive_info[0];
    let step = a.seconds_per_point as int;
    lemma_ordered_steps_positive(h.archive_info, 0);
    assert(chosen(h, timestamp as int, now as int) == 0);
    assert(clamped(a, timestamp as int, now as int) == timestamp);
    let lo = align(timestamp as int, step);
    let hi = align(until as int, step);
    lemma_step_quotient(timestamp as int, 1, step);
    assert(1 * step == step);
    lemma_align_reaches(until as int, timestamp + step, step);
    assert(lo == timestamp);
    assert(hi - lo >= step);
    lemma_div_is_ordered(step, hi - lo, step);
    vstd::arithmetic::div_mod::lemma_div_by_self(step);
    assert(steps_between(lo, hi, step) >= 1);
    assert(lo + 0 * step == lo);
}

/// Write, then fetch: a point that was taken into the finest archive at a
/// multiple of its step, and that the finest archive still covers, is the
/// first entry of a fetch that starts at its time and ends at least one
/// step later, with the very value that was written.
pub proof fn lemma_write_then_fetch(
    b: Seq<u8>,
    h: HeaderView,
    timestamp: u32,
    value: u64,
    until: u32,
    now: u32,
)
    requires
        h.well_formed(),
        h.file_size() <= b.len(),
        admission(h, timestamp as int, now as int) is Ok,
        timestamp as int % h.archive_info[0].seconds_per_point as int == 0,
        now - timestamp <= h.archive_info[0].spec_retention(),
        until >= timestamp + h.archive_info[0].seconds_per_point,
    ensures
        ({
            let after = placed(b, h.archive_info[0], Point { timestamp, value });
            let series = fetch_series(after, h, timestamp as int, until as int, now as int);
            series.len() > 0 && series[0] == (timestamp, Some(value))
        }),
{
    let a = h.archive_info[0];
    let p = Point { timestamp, value };
    lemma_ordered_steps_positive(h.archive_info, 0);
    lemma_chained_bounds(h, 0);
    lemma_placed_is_held(b, a, p);
    lemma_fetch_head(placed(b, a, p), h, timestamp, until, now);
}

/// What is rolled up from archive `level` is written behind that archive:
/// every point that ends before the next coarser archive starts stays as
/// it is.
pub proof fn lemma_rolled_elsewhere(
    b: Seq<u8>,
    h: HeaderView,
    level: int,
    t: int,
    value: u64,
    at: int,
)
    requires
        h.well_formed(),
        h.file_size() <= b.len(),
        0 <= level,
        level + 1 < h.archive_info.len(),
        0 <= at,
        at + 12 <= h.archive_info[level + 1].offset,
    ensures
        rolled(b, h, level, t, value).len() == b.len(),
        point_at(rolled(b, h, level, t, value), at) == point_at(b, at),
{
    reveal(rolled);
    let coarse = h.archive_info[level + 1];
    let p = Point { timestamp: interval_start(coarse, t) as u32, value };
    lemma_ordered_steps_positive(h.archive_info, level + 1);
    lemma_chained_bounds(h, level + 1);
    lemma_slot_bounds(coarse, p.timestamp as int);
    lemma_spliced_point(b, slot_at(coarse, p.timestamp as int), p);
    lemma_spliced_elsewhere(b, slot_at(coarse, p.timestamp as int), p, at);
}

/// A roll-up leaves the finest archive as it is, whatever it writes into
/// the coarser ones.
pub proof fn lemma_cascade_keeps_finest(
    b: Seq<u8>,
    h: HeaderView,
    t: int,
    values: Seq<u64>,
    k: int,
    at: int,
)
    requires
        h.well_formed(),
        h.file_size() <= b.len(),
        0 <= k <= h.archive_info.len() - 1,
        0 <= at,
        at + 12 <= h.archive_info[0].end(),
    ensures
        cascade(b, h, t, values, k).0.len() == b.len(),
        point_at(cascade(b, h, t, values, k).0, at) == point_at(b, at),
    decreases k,
{
    if k > 0 {
        lemma_cascade_keeps_finest(b, h, t, values, k - 1, at);
        let before = cascade(b, h, t, values, k - 1);
        if before.1 && rolls_up(before.0, h, k - 1, t) {
            lemma_chained_bounds(h, 0);
            lemma_points_before_grows(h.archive_info, 1, k);
            assert(h.archive_info[k].offset == h.start_of(k));
            lemma_rolled_elsewhere(before.0, h, k - 1, t, values[k - 1], at);
        }
    }
}

/// Update, then fetch: what holds of a point taken into the finest archive
/// holds as well once it is rolled up, whatever the roll-up writes.
pub proof fn lemma_update_then_fetch(
    b: Seq<u8>,
    h: HeaderView,
    timestamp: u32,
    value: u64,
    until: u32,
    now: u32,
    values: Seq<u64>,
)
    requires
        h.well_formed(),
        h.file_size() <= b.len(),
        admission(h, timestamp as int, now as int) is Ok,
        timestamp as int % h.archive_info[0].seconds_per_point as int == 0,
        now - timestamp <= h.archive_info[0].spec_retention(),
        until >= timestamp + h.archive_info[0].seconds_per_point,
    ensures
        ({
            let after = updated(b, h, Point { timestamp, value }, values);
            let series = fetch_series(after, h, timestamp as int, until as int, now as int);
            series.len() > 0 && series[0] == (timestamp, Some(value))
        }),
{
    let a = h.archive_info[0];
    let p = Point { timestamp, value };
    let taken = placed(b, a, p);
    lemma_ordered_steps_positive(h.archive_info, 0);
    lemma_chained_bounds(h, 0);
    lemma_placed_is_held(b, a, p);
    lemma_slot_bounds(a, timestamp as int);
    lemma_cascade_keeps_finest(
        taken,
        h,
        timestamp as int,
        values,
        h.archive_info.len() - 1,
        slot_at(a, timestamp as int),
    );
    lemma_fetch_head(updated(b, h, p, values), h, timestamp, until, now);
}

/// In a file in which nothing was written yet, every point is zero.
proof fn lemma_blank_point(h: HeaderView, at: int)
    requires
        h.chained(),
        h.size() <= at,
        at + 12 <= h.file_size(),
    ensures
        blank_bytes(h).len() == h.file_size(),
        point_at(blank_bytes(h), at) == (Point { timestamp: 0, value: 0 }),
{
    lemma_header_bytes_len(h);
    lemma_points_before_grows(h.archive_info, 0, h.archive_info.len() as int);
    let b = blank_bytes(h);
    let w = b.subrange(at, at + 4);
    let l = b.subrange(at + 4, at + 4 + 8);
    assert(w[0] == 0 && w[1] == 0 && w[2] == 0 && w[3] == 0);
    let hi = l.subrange(0, 4);
    let lo = l.subrange(4, 8);
    assert(hi[0] == 0 && hi[1] == 0 && hi[2] == 0 && hi[3] == 0);
    assert(lo[0] == 0 && lo[1] == 0 && lo[2] == 0 && lo[3] == 0);
}

/// A file in which nothing was written yet holds no value for any time
/// but zero, in any of its archives.
pub proof fn lemma_fresh_file_holds_nothing(h: HeaderView, i: int, t: int)
    requires
        h.well_formed(),
        0 <= i < h.archive_info.len(),
        t != 0,
    ensures
        sample(blank_bytes(h), h.archive_info[i], t) is None,
{
    let a = h.archive_info[i];
    lemma_ordered_steps_positive(h.archive_info, i);
    lemma_chained_bounds(h, i);
    lemma_slot_bounds(a, t);
    lemma_blank_point(h, slot_at(a, t));
}

/// The entries of a series, one by one.
proof fn lemma_series_entry(b: Seq<u8>, h: HeaderView, from: int, until: int, now: int, k: int)
    requires
        0 <= k < fetch_series(b, h, from, until, now).len(),
    ensures
        ({
            let a = h.archive_info[chosen(h, from, now)];
            let step = a.seconds_per_point as int;
            let lo = align(clamped(a, from, now), step);
            fetch_series(b, h, from, until, now)[k] == ((lo + k * step) as u32, sample(
                b,
                a,
                lo + k * step,
            ))
        }),
{
}

/// One entry of a fetch on a fresh file.
proof fn lemma_fresh_entry(h: HeaderView, from: int, until: int, now: int, k: int)
    requires
        h.well_formed(),
        0 <= k < fetch_series(blank_bytes(h), h, from, until, now).len(),
    ensures
        fetch_series(blank_bytes(h), h, from, until, now)[k].0 != 0 ==> fetch_series(
            blank_bytes(h),
            h,
            from,
            until,
            now,
        )[k].1 is None,
{
    let i = chosen(h, from, now);
    crate::fetch::lemma_covering(h.archive_info, crate::fetch::age(from, now), 0);
    let a = h.archive_info[i];
    let step = a.seconds_per_point as int;
    let t = align(clamped(a, from, now), step) + k * step;
    lemma_series_entry(blank_bytes(h), h, from, until, now, k);
    if t != 0 {
        lemma_fresh_file_holds_nothing(h, i, t);
    }
}

/// Fetch on a fresh file: the series has one entry for every step between
/// the aligned bounds, and no entry has a value, but for the time zero,
/// whose slot holds the zero that the file was filled with.
pub proof fn lemma_fresh_fetch(h: HeaderView, from: u32, until: u32, now: u32)
    requires
        h.well_formed(),
        from < until,
    ensures
        ({
            let a = h.archive_info[chosen(h, from as int, now as int)];
            let step = a.seconds_per_point as int;
            let lo = align(clamped(a, from as int, now as int), step);
            let series = fetch_series(blank_bytes(h), h, from as int, until as int, now as int);
            &&& series.len() == steps_between(lo, align(until as int, step), step)
            &&& forall|k: int|
                0 <= k < series.len() && (#[trigger] series[k]).0 != 0 ==> series[k].1 is None
        }),
{
    let i = chosen(h, from as int, now as int);
    crate::fetch::lemma_covering(h.archive_info, crate::fetch::age(from as int, now as int), 0);
    lemma_ordered_steps_positive(h.archive_info, i);
    let a = h.archive_info[i];
    let step = a.seconds_per_point as int;
    crate::fetch::lemma_steps_fit(
        align(clamped(a, from as int, now as int), step),
        align(until as int, step),
        step,
    );
    let series = fetch_series(blank_bytes(h), h, from as int, until as int, now as int);
    assert forall|k: int| 0 <= k < series.len() && (#[trigger] series[k]).0 != 0 implies series[k].1
        is None by {
        lemma_fresh_entry(h, from as int, until as int, now as int, k);
    }
}

/// The time of the `j`-th of a run of points that are one step apart.
pub open spec fn time_of(start: int, j: int, step: int) -> int {
    start + j * step
}

/// The bytes after the first `k` points of a run were written into the
/// archive `a`, one after the other: the `j`-th with the `j`-th value, at
/// `j` steps after `start`.
pub open spec fn run(b: Seq<u8>, a: ArchiveInfo, start: int, values: Seq<u64>, k: int) -> Seq<u8>
    decreases k,
{
    if k <= 0 {
        b
    } else {
        placed(
            run(b, a, start, values, k - 1),
            a,
            Point {
                timestamp: time_of(start, k - 1, a.seconds_per_point as int) as u32,
                value: values[k - 1],
            },
        )
    }
}

/// After a run of `k` points the archive holds the last points of the
/// run, as many as it has slots, and none of the points before them.
pub proof fn lemma_run(b: Seq<u8>, a: ArchiveInfo, start: int, values: Seq<u64>, k: int)
    requires
        a.seconds_per_point > 0,
        a.num_points > 0,
        a.end() <= b.len(),
        0 <= start,
        0 <= k <= values.len(),
        k > 0 ==> time_of(start, k - 1, a.seconds_per_point as int) <= u32::MAX,
    ensures
        run(b, a, start, values, k).len() == b.len(),
        forall|j: int|
            0 <= j < k ==> #[trigger] sample(
                run(b, a, start, values, k),
                a,
                time_of(start, j, a.seconds_per_point as int),
            ) == (if k - j <= a.num_points {
                Some(values[j])
            } else {
                None
            }),
    decreases k,
{
    let step = a.seconds_per_point as int;
    let n = a.num_points as int;
    if k > 0 {
        let last = time_of(start, k - 1, step);
        if k > 1 {
            lemma_time_grows(start, k - 2, k - 1, step);
            lemma_time_grows(start, 0, k - 1, step);
        }
        lemma_run(b, a, start, values, k - 1);
        let prev = run(b, a, start, values, k - 1);
        let p = Point { timestamp: last as u32, value: values[k - 1] };
        assert(run(b, a, start, values, k) == placed(prev, a, p));
        lemma_placed_is_held(prev, a, p);
        assert forall|j: int| 0 <= j < k implies #[trigger] sample(
            placed(prev, a, p),
            a,
            time_of(start, j, step),
        ) == (if k - j <= n {
            Some(values[j])
        } else {
            None
        }) by {
            lemma_run_entry(prev, a, start, p, j, k);
        }
    }
}

/// What the archive holds for the `j`-th point of a run once the point
/// numbered `k - 1` is written: that point itself; nothing for a point a
/// multiple of the number of slots before it; what it held before for any
/// other.
proof fn lemma_run_entry(prev: Seq<u8>, a: ArchiveInfo, start: int, p: Point, j: int, k: int)
    requires
        a.seconds_per_point > 0,
        a.num_points > 0,
        a.end() <= prev.len(),
        0 <= j < k,
        p.timestamp == time_of(start, k - 1, a.seconds_per_point as int),
    ensures
        j == k - 1 ==> sample(placed(prev, a, p), a, time_of(start, j, a.seconds_per_point as int))
            == Some(p.value),
        j < k - 1 && k - 1 - j < a.num_points ==> sample(
            placed(prev, a, p),
            a,
            time_of(start, j, a.seconds_per_point as int),
        ) == sample(prev, a, time_of(start, j, a.seconds_per_point as int)),
        j < k - 1 && k - 1 - j == a.num_points ==> sample(
            placed(prev, a, p),
            a,
            time_of(start, j, a.seconds_per_point as int),
        ) is None,
        j < k - 1 && k - 1 - j > a.num_points && sample(
            prev,
            a,
            time_of(start, j, a.seconds_per_point as int),
        ) is None ==> sample(placed(prev, a, p), a, time_of(start, j, a.seconds_per_point as int))
            is None,
{
    let step = a.seconds_per_point as int;
    let n = a.num_points as int;
    let t = time_of(start, j, step);
    lemma_placed_sample(prev, a, p, t);
    lemma_same_slot(a, start, k - 1, j);
    if j < k - 1 {
        lemma_time_grows(start, j, k - 1, step);
        if k - 1 - j < n {
            lemma_small_mod((k - 1 - j) as nat, n as nat);
        }
        if k - 1 - j == n {
            vstd::arithmetic::div_mod::lemma_mod_self_0(n);
        }
    }
}

/// Circular overwrite: after one point more than the archive has slots,
/// written one step apart, the first point is gone and all the others are
/// held.
pub proof fn lemma_circular_overwrite(b: Seq<u8>, a: ArchiveInfo, start: u32, values: Seq<u64>)
    requires
        a.seconds_per_point > 0,
        a.num_points > 0,
        a.end() <= b.len(),
        values.len() == a.num_points + 1,
        time_of(start as int, a.num_points as int, a.seconds_per_point as int) <= u32::MAX,
    ensures
        ({
            let after = run(b, a, start as int, values, a.num_points + 1);
            &&& sample(after, a, start as int) is None
            &&& forall|j: int|
                1 <= j <= a.num_points ==> #[trigger] sample(
                    after,
                    a,
                    time_of(start as int, j, a.seconds_per_point as int),
                ) == Some(values[j])
        }),
{
    lemma_run(b, a, start as int, values, a.num_points + 1);
    let after = run(b, a, start as int, values, a.num_points + 1);
    assert(time_of(start as int, 0, a.seconds_per_point as int) == start);
    assert(sample(after, a, time_of(start as int, 0, a.seconds_per_point as int)) is None);
}

} // verus!
