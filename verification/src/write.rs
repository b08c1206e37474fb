//! The write engine: where a point goes, when it is rolled up into the
//! next coarser archive, and in which order a batch is written.
use crate::codec::encode_point;
use crate::codec::lemma_chained_bounds;
use crate::codec::point_bytes;
use crate::errors::RangeError;
use crate::fetch::align;
use crate::fetch::read_sample;
use crate::fetch::sample;
use crate::fetch::slot_at;
use crate::planner::lemma_ordered_steps_positive;
use crate::stream::splice;
use crate::stream::write_at;
use crate::types::AggregationType;
use crate::types::ArchiveInfo;
use crate::types::Header;
use crate::types::HeaderView;
use crate::types::Point;
use crate::types::XFF_MINUS_ZERO;
use crate::types::coarser_next;
use crate::types::unit_fraction;
use crate::wire::lemma_u32_round_trip;
use crate::wire::lemma_u64_round_trip;
use vstd::arithmetic::div_mod::lemma_div_by_self;
use vstd::arithmetic::div_mod::lemma_div_is_ordered;
use vstd::arithmetic::power2::lemma2_to64;
use vstd::arithmetic::power2::lemma2_to64_rest;
use vstd::arithmetic::power2::lemma_pow2_pos;
use vstd::arithmetic::power2::lemma_pow2_strictly_increases;
use vstd::arithmetic::power2::lemma_pow2_unfold;
use vstd::arithmetic::power2::pow2;
use vstd::prelude::*;

verus! {

/// The bytes after the point `p` is written into its slot of archive `a`.
pub open spec fn placed(b: Seq<u8>, a: ArchiveInfo, p: Point) -> Seq<u8> {
    splice(b, slot_at(a, p.timestamp as int), point_bytes(p))
}

/// Writes the point `p` into the slot of archive `a` in which its time
/// falls. Whatever the slot held is gone.
pub fn store(bytes: &mut [u8], a: &ArchiveInfo, p: &Point)
    requires
        a.seconds_per_point > 0,
        a.num_points > 0,
        a.end() <= old(bytes)@.len(),
    ensures
        final(bytes)@ == placed(old(bytes)@, *a, *p),
        final(bytes)@.len() == old(bytes)@.len(),
{
    let slot: u64 = (p.timestamp as u64 / a.seconds_per_point as u64) % a.num_points as u64;
    let at: u64 = a.offset as u64 + 12 * slot;
    let mut part: Vec<u8> = Vec::new();
    encode_point(&mut part, p);
    proof {
        lemma_u32_round_trip(p.timestamp);
        lemma_u64_round_trip(p.value);
        assert(part@ =~= point_bytes(*p));
    }
    let total = bytes.len();
    assert(at + 12 <= total);
    let written = write_at(bytes, at as usize, part.as_slice());
    assert(written is Ok);
}

/// Whether a point of the given time is taken at the moment `now`: not
/// one from the future, and not one older than the file retains.
pub open spec fn admission(h: HeaderView, timestamp: int, now: int) -> Result<(), RangeError> {
    if timestamp > now {
        Err(RangeError::TimestampInFuture)
    } else if now - timestamp > h.metadata.max_retention {
        Err(RangeError::TimestampTooOld)
    } else {
        Ok(())
    }
}

/// Tells whether a point of the given time is taken at the moment `now`.
/// No skew is allowed for: a time one second ahead of `now` is in the
/// future.
pub fn check_timestamp(header: &Header, timestamp: u32, now: u32) -> (r: Result<(), RangeError>)
    ensures
        r == admission(header@, timestamp as int, now as int),
{
    if timestamp > now {
        Err(RangeError::TimestampInFuture)
    } else if now - timestamp > header.metadata().max_retention {
        Err(RangeError::TimestampTooOld)
    } else {
        Ok(())
    }
}

/// Takes a point into the finest archive, if its time is admitted. The
/// point goes into the slot in which its time falls, with the time as it
/// was given; whatever the slot held is gone.
pub fn record(bytes: &mut [u8], header: &Header, timestamp: u32, value: u64, now: u32) -> (r:
    Result<(), RangeError>)
    requires
        header@.well_formed(),
        header@.file_size() <= old(bytes)@.len(),
    ensures
        r == admission(header@, timestamp as int, now as int),
        r is Ok ==> final(bytes)@ == placed(
            old(bytes)@,
            header@.archive_info[0],
            Point { timestamp, value },
        ),
        r is Err ==> final(bytes)@ == old(bytes)@,
        final(bytes)@.len() == old(bytes)@.len(),
{
    match check_timestamp(header, timestamp, now) {
        Err(e) => Err(e),
        Ok(_) => {
            let infos = header.archive_info();
            proof {
                lemma_ordered_steps_positive(infos@, 0);
                lemma_chained_bounds(header@, 0);
            }
            store(bytes, &infos[0], &Point { timestamp, value });
            Ok(())
        },
    }
}

/// The numerator of the fraction that the bit pattern of a number from
/// zero to one stands for.
pub open spec fn fraction_numerator(bits: u32) -> int {
    if bits == XFF_MINUS_ZERO {
        0
    } else if bits / 0x80_0000 == 0 {
        bits as int % 0x80_0000
    } else {
        0x80_0000 + bits as int % 0x80_0000
    }
}

/// The binary exponent of the denominator of that fraction.
pub open spec fn fraction_shift(bits: u32) -> nat {
    if bits == XFF_MINUS_ZERO || bits / 0x80_0000 == 0 {
        149
    } else {
        (150 - bits / 0x80_0000) as nat
    }
}

/// Whether `present` out of `expected` is at least the fraction that
/// `bits` stands for.
///
/// A single-precision number from zero to one is its 24-bit significand
/// over a power of two. The two fractions are compared exactly, cross
/// multiplied, with no rounding.
pub open spec fn meets_threshold(present: int, expected: int, bits: u32) -> bool {
    present * pow2(fraction_shift(bits)) >= fraction_numerator(bits) * expected
}

/// Two to the power `e`, for an exponent below 64.
fn power_of_two(e: u32) -> (p: u128)
    requires
        e < 64,
    ensures
        p == pow2(e as nat),
        p < 0x1_0000_0000_0000_0000,
{
    let mut p: u128 = 1;
    let mut i: u32 = 0;
    proof {
        lemma2_to64();
        lemma2_to64_rest();
    }
    while i < e
        invariant
            i <= e < 64,
            p == pow2(i as nat),
            pow2(64) == 0x1_0000_0000_0000_0000,
        decreases e - i,
    {
        proof {
            lemma_pow2_unfold((i + 1) as nat);
            lemma_pow2_strictly_increases((i + 1) as nat, 64);
        }
        p = p * 2;
        i = i + 1;
    }
    proof {
        if e < 64 {
            lemma_pow2_strictly_increases(e as nat, 64);
        }
    }
    p
}

/// Tells whether `present` points out of `expected` are enough for a
/// roll-up under the given x-files factor.
pub fn reaches_threshold(present: u32, expected: u32, x_files_factor: u32) -> (ok: bool)
    requires
        unit_fraction(x_files_factor),
    ensures
        ok == meets_threshold(present as int, expected as int, x_files_factor),
{
    if x_files_factor == XFF_MINUS_ZERO {
        proof {
            lemma_pow2_pos(149);
            assert(present * pow2(149) >= 0) by (nonlinear_arith)
                requires
                    present >= 0,
                    pow2(149) > 0,
            ;
        }
        return true;
    }
    let exponent: u32 = x_files_factor / 0x80_0000;
    let mantissa: u32 = x_files_factor % 0x80_0000;
    let numerator: u64 = if exponent == 0 {
        mantissa as u64
    } else {
        0x80_0000 + mantissa as u64
    };
    let shift: u32 = if exponent == 0 {
        149
    } else {
        150 - exponent
    };
    assert(numerator * expected <= 0x100_0000 * 0x1_0000_0000) by (nonlinear_arith)
        requires
            numerator <= 0x100_0000,
            expected <= 0x1_0000_0000,
    ;
    let need: u64 = numerator * expected as u64;
    if shift >= 64 {
        proof {
            lemma2_to64_rest();
            if shift > 64 {
                lemma_pow2_strictly_increases(64, shift as nat);
            }
            if present > 0 {
                assert(present * pow2(shift as nat) >= pow2(shift as nat)) by (nonlinear_arith)
                    requires
                        present >= 1,
                        pow2(shift as nat) > 0,
                ;
            } else {
                assert(present * pow2(shift as nat) == 0) by (nonlinear_arith)
                    requires
                        present == 0,
                ;
            }
        }
        present > 0 || need == 0
    } else {
        let scale = power_of_two(shift);
        assert(present * scale <= 0x1_0000_0000 * 0x1_0000_0000_0000_0000) by (nonlinear_arith)
            requires
                present <= 0x1_0000_0000,
                scale <= 0x1_0000_0000_0000_0000,
        ;
        present as u128 * scale >= need as u128
    }
}

/// The start of the interval of the coarser archive in which the time `t`
/// falls.
pub open spec fn interval_start(coarse: ArchiveInfo, t: int) -> int {
    align(t, coarse.seconds_per_point as int)
}

/// The number of slots of the finer archive that one slot of the coarser
/// archive spans.
pub open spec fn span(fine: ArchiveInfo, coarse: ArchiveInfo) -> int {
    coarse.seconds_per_point as int / fine.seconds_per_point as int
}

/// The points that archive `a` holds for the first `k` of its steps from
/// `lower` on, in the order of their times.
pub open spec fn present_upto(b: Seq<u8>, a: ArchiveInfo, lower: int, k: int) -> Seq<Point>
    decreases k,
{
    if k <= 0 {
        Seq::empty()
    } else {
        let t = lower + (k - 1) * a.seconds_per_point;
        let before = present_upto(b, a, lower, k - 1);
        match sample(b, a, t) {
            Some(value) => before.push(Point { timestamp: t as u32, value }),
            None => before,
        }
    }
}

/// The points that the finer archive holds within the interval of the
/// coarser archive in which the time `t` falls.
pub open spec fn present_points(b: Seq<u8>, fine: ArchiveInfo, coarse: ArchiveInfo, t: int) -> Seq<
    Point,
> {
    present_upto(b, fine, interval_start(coarse, t), span(fine, coarse))
}

/// Whether the finer archive holds enough points within that interval for
/// them to be rolled up.
#[verifier::opaque]
pub open spec fn rolls_up(b: Seq<u8>, h: HeaderView, level: int, t: int) -> bool {
    meets_threshold(
        present_points(b, h.archive_info[level], h.archive_info[level + 1], t).len() as int,
        span(h.archive_info[level], h.archive_info[level + 1]),
        h.metadata.x_files_factor,
    )
}

/// What is to be rolled up into one point of a coarser archive.
#[derive(Debug, Clone, PartialEq)]
pub struct Rollup {
    /// How the points are to be combined.
    pub aggregation: AggregationType,
    /// The time of the coarser point: the start of its interval.
    pub lower: u32,
    /// The number of finer slots that the interval spans.
    pub expected: u32,
    /// The points that the finer archive holds within the interval, in
    /// the order of their times.
    pub points: Vec<Point>,
}

impl Rollup {
    /// Whether this is what archive `level` of the file `b` hands to the
    /// next coarser archive for the interval in which the time `t` falls.
    pub open spec fn describes(self, b: Seq<u8>, h: HeaderView, level: int, t: int) -> bool {
        &&& self.aggregation == h.metadata.aggregation
        &&& self.lower == interval_start(h.archive_info[level + 1], t)
        &&& self.expected == span(h.archive_info[level], h.archive_info[level + 1])
        &&& self.points@ == present_points(
            b,
            h.archive_info[level],
            h.archive_info[level + 1],
            t,
        )
    }
}

/// There are no more points present than steps looked at.
proof fn lemma_present_len(b: Seq<u8>, a: ArchiveInfo, lower: int, k: int)
    requires
        0 <= k,
    ensures
        present_upto(b, a, lower, k).len() <= k,
    decreases k,
{
    if k > 0 {
        lemma_present_len(b, a, lower, k - 1);
    }
}

/// Gathers what archive `level` holds within the interval of the next
/// coarser archive in which `timestamp` falls, and decides whether it is
/// rolled up: `None` where the points present are fewer than the x-files
/// factor asks for.
pub fn rollup(bytes: &[u8], header: &Header, level: usize, timestamp: u32) -> (r: Option<Rollup>)
    requires
        header@.well_formed(),
        header@.file_size() <= bytes@.len(),
        level + 1 < header@.archive_info.len(),
    ensures
        r is Some <==> rolls_up(bytes@, header@, level as int, timestamp as int),
        r is Some ==> r->0.describes(bytes@, header@, level as int, timestamp as int),
        r is Some ==> 0 < r->0.expected && r->0.points@.len() <= r->0.expected,
{
    let infos = header.archive_info();
    let fine = &infos[level];
    let coarse = &infos[level + 1];
    proof {
        reveal(rolls_up);
        lemma_ordered_steps_positive(infos@, level as int);
        lemma_ordered_steps_positive(infos@, level + 1);
        lemma_chained_bounds(header@, level as int);
        vstd::arithmetic::div_mod::lemma_mod_decreases(
            timestamp as nat,
            coarse.seconds_per_point as nat,
        );
    }
    let lower: u32 = timestamp - timestamp % coarse.seconds_per_point;
    let expected: u32 = coarse.seconds_per_point / fine.seconds_per_point;
    proof {
        assert(coarser_next(infos@, level as int));
        lemma_div_is_ordered(
            fine.seconds_per_point as int,
            coarse.seconds_per_point as int,
            fine.seconds_per_point as int,
        );
        lemma_div_by_self(fine.seconds_per_point as int);
    }
    let step: u64 = fine.seconds_per_point as u64;
    let mut points: Vec<Point> = Vec::new();
    let mut k: u32 = 0;
    while k < expected
        invariant
            k <= expected,
            step == fine.seconds_per_point,
            step > 0,
            fine.num_points > 0,
            fine.end() <= bytes@.len(),
            points@ == present_upto(bytes@, *fine, lower as int, k as int),
        decreases expected - k,
    {
        assert(k * step <= 0xFFFF_FFFF * 0xFFFF_FFFF) by (nonlinear_arith)
            requires
                k <= 0xFFFF_FFFF,
                step <= 0xFFFF_FFFF,
        ;
        let t: u64 = lower as u64 + k as u64 * step;
        match read_sample(bytes, fine, t) {
            Some(value) => {
                points.push(Point { timestamp: t as u32, value });
            },
            None => {},
        }
        k = k + 1;
    }
    proof {
        lemma_present_len(bytes@, *fine, lower as int, expected as int);
    }
    if reaches_threshold(points.len() as u32, expected, header.metadata().x_files_factor) {
        Some(Rollup { aggregation: header.metadata().aggregation, lower, expected, points })
    } else {
        None
    }
}

/// The bytes after the value rolled up from archive `level` is written
/// into the next coarser archive: into the slot of the interval in which
/// the time `t` falls, under the time at which that interval starts.
#[verifier::opaque]
pub open spec fn rolled(b: Seq<u8>, h: HeaderView, level: int, t: int, value: u64) -> Seq<u8> {
    let coarse = h.archive_info[level + 1];
    placed(b, coarse, Point { timestamp: interval_start(coarse, t) as u32, value })
}

/// Writes a rolled-up value into the archive next to archive `level`, for
/// the interval in which `timestamp` falls.
pub fn store_rollup(bytes: &mut [u8], header: &Header, level: usize, timestamp: u32, value: u64)
    requires
        header@.well_formed(),
        header@.file_size() <= old(bytes)@.len(),
        level + 1 < header@.archive_info.len(),
    ensures
        final(bytes)@ == rolled(old(bytes)@, header@, level as int, timestamp as int, value),
        final(bytes)@.len() == old(bytes)@.len(),
{
    let infos = header.archive_info();
    let coarse = &infos[level + 1];
    proof {
        reveal(rolled);
        lemma_ordered_steps_positive(infos@, level + 1);
        lemma_chained_bounds(header@, level + 1);
        vstd::arithmetic::div_mod::lemma_mod_decreases(
            timestamp as nat,
            coarse.seconds_per_point as nat,
        );
    }
    let lower: u32 = timestamp - timestamp % coarse.seconds_per_point;
    store(bytes, coarse, &Point { timestamp: lower, value });
}

/// The points with `p` put in behind the last point that is not later
/// than `p`.
pub open spec fn inserted(s: Seq<Point>, p: Point) -> Seq<Point>
    decreases s.len(),
{
    if s.len() == 0 {
        seq![p]
    } else if s.last().timestamp <= p.timestamp {
        s.push(p)
    } else {
        inserted(s.drop_last(), p).push(s.last())
    }
}

/// The first `k` points in the order of their times; points of one time
/// stay in the order in which they came.
pub open spec fn time_ordered(points: Seq<Point>, k: int) -> Seq<Point>
    decreases k,
{
    if k <= 0 {
        Seq::empty()
    } else {
        inserted(time_ordered(points, k - 1), points[k - 1])
    }
}

/// Whether no point is later than a point behind it.
pub open spec fn ascending(s: Seq<Point>) -> bool {
    forall|i: int, j: int| 0 <= i <= j < s.len() ==> s[i].timestamp <= s[j].timestamp
}

/// Putting a point in behind the later ones is putting it in at the place
/// where the later ones start.
proof fn lemma_inserted_at(s: Seq<Point>, p: Point, j: int)
    requires
        0 <= j <= s.len(),
        forall|i: int| j <= i < s.len() ==> (#[trigger] s[i]).timestamp > p.timestamp,
        j > 0 ==> s[j - 1].timestamp <= p.timestamp,
    ensures
        inserted(s, p) == s.insert(j, p),
    decreases s.len(),
{
    if s.len() == 0 {
        assert(seq![p] =~= s.insert(j, p));
    } else if j == s.len() {
        assert(s.push(p) =~= s.insert(j, p));
    } else {
        lemma_inserted_at(s.drop_last(), p, j);
        assert(s.drop_last().insert(j, p).push(s.last()) =~= s.insert(j, p));
    }
}

/// A point put into an ascending sequence leaves it ascending, and the
/// sequence then holds the point and what it held before.
pub proof fn lemma_inserted(s: Seq<Point>, p: Point)
    requires
        ascending(s),
    ensures
        ascending(inserted(s, p)),
        inserted(s, p).to_multiset() == s.to_multiset().insert(p),
        inserted(s, p).len() == s.len() + 1,
    decreases s.len(),
{
    broadcast use vstd::seq_lib::group_to_multiset_ensures;

    if s.len() == 0 {
        assert(seq![p] =~= s.push(p));
    } else if s.last().timestamp <= p.timestamp {
    } else {
        let front = s.drop_last();
        assert(ascending(front));
        lemma_inserted(front, p);
        let mid = inserted(front, p);
        let out = mid.push(s.last());
        assert(front.push(s.last()) =~= s);
        assert forall|x: Point| mid.contains(x) implies x.timestamp <= s.last().timestamp by {
            mid.to_multiset_ensures();
            front.to_multiset_ensures();
            assert(mid.to_multiset().count(x) > 0);
            if x != p {
                assert(front.to_multiset().count(x) > 0);
                assert(front.contains(x));
                let i = choose|i: int| 0 <= i < front.len() && front[i] == x;
                assert(s[i] == x);
            }
        }
        assert forall|i: int, j: int| 0 <= i <= j < out.len() implies out[i].timestamp
            <= out[j].timestamp by {
            if j == out.len() - 1 && i < j {
                assert(mid.contains(mid[i]));
            }
        }
        assert(out.to_multiset() =~= s.to_multiset().insert(p));
    }
}

/// A batch in the order of its times is ascending, and it holds the
/// points that came in, each as often as it came.
pub proof fn lemma_sorted_batch(points: Seq<Point>)
    ensures
        ascending(time_ordered(points, points.len() as int)),
        time_ordered(points, points.len() as int).to_multiset() == points.to_multiset(),
        time_ordered(points, points.len() as int).len() == points.len(),
{
    lemma_time_ordered(points, points.len() as int);
    assert(points.subrange(0, points.len() as int) =~= points);
}

/// The first `k` points in the order of their times are ascending, and
/// they are the first `k` points, each as often as it is among them.
pub proof fn lemma_time_ordered(points: Seq<Point>, k: int)
    requires
        0 <= k <= points.len(),
    ensures
        ascending(time_ordered(points, k)),
        time_ordered(points, k).to_multiset() == points.subrange(0, k).to_multiset(),
        time_ordered(points, k).len() == k,
    decreases k,
{
    broadcast use vstd::seq_lib::group_to_multiset_ensures;

    if k > 0 {
        lemma_time_ordered(points, k - 1);
        lemma_inserted(time_ordered(points, k - 1), points[k - 1]);
        assert(points.subrange(0, k - 1).push(points[k - 1]) =~= points.subrange(0, k));
    } else {
        assert(points.subrange(0, 0) =~= Seq::<Point>::empty());
    }
}

/// Puts the points of a batch into the order of their times. Points of
/// one time stay in the order in which they came, so that the last of
/// them is the one that stays in the file.
pub fn sort_points(points: &[Point]) -> (out: Vec<Point>)
    ensures
        out@ == time_ordered(points@, points@.len() as int),
        out@.len() == points@.len(),
{
    let mut out: Vec<Point> = Vec::new();
    let mut i: usize = 0;
    while i < points.len()
        invariant
            i <= points@.len(),
            out@ == time_ordered(points@, i as int),
            out@.len() == i,
        decreases points@.len() - i,
    {
        let p = points[i];
        let mut j: usize = out.len();
        while j > 0 && out[j - 1].timestamp > p.timestamp
            invariant
                j <= out@.len(),
                forall|m: int| j <= m < out@.len() ==> (#[trigger] out@[m]).timestamp > p.timestamp,
            decreases j,
        {
            j = j - 1;
        }
        proof {
            lemma_inserted_at(out@, p, j as int);
        }
        out.insert(j, p);
        i = i + 1;
    }
    out
}

/// How far the roll-up has come after the first `k` pairs of archives: the
/// bytes, and whether it is still going.
///
/// The roll-up goes from each archive to the next coarser one. A pair
/// whose finer archive holds enough points has the value for it, the
/// `k`-th of `values`, written into the coarser archive; the first pair
/// that does not stops the roll-up for all the pairs behind it, since
/// each pair reads what the pair before it has written.
pub open spec fn cascade(b: Seq<u8>, h: HeaderView, t: int, values: Seq<u64>, k: int) -> (
    Seq<u8>,
    bool,
)
    decreases k,
{
    if k <= 0 {
        (b, true)
    } else {
        let before = cascade(b, h, t, values, k - 1);
        if before.1 && rolls_up(before.0, h, k - 1, t) {
            (rolled(before.0, h, k - 1, t, values[k - 1]), true)
        } else {
            (before.0, false)
        }
    }
}

/// Whether `value` is what `f` makes of what archive `level` hands to the
/// next coarser one.
#[verifier::opaque]
pub open spec fn given_by<F: Fn(&Rollup) -> u64>(
    f: F,
    b: Seq<u8>,
    h: HeaderView,
    level: int,
    t: int,
    value: u64,
) -> bool {
    exists|x: Rollup| #[trigger] x.describes(b, h, level, t) && call_ensures(f, (&x,), value)
}

/// Whether every value that the roll-up writes within the first `k` pairs
/// of archives is what `f` makes of the points that are rolled up.
pub open spec fn cascade_by<F: Fn(&Rollup) -> u64>(
    f: F,
    b: Seq<u8>,
    h: HeaderView,
    t: int,
    values: Seq<u64>,
    k: int,
) -> bool
    decreases k,
{
    if k <= 0 {
        true
    } else {
        let before = cascade(b, h, t, values, k - 1);
        &&& cascade_by(f, b, h, t, values, k - 1)
        &&& before.1 && rolls_up(before.0, h, k - 1, t) ==> given_by(
            f,
            before.0,
            h,
            k - 1,
            t,
            values[k - 1],
        )
    }
}

/// The first `k` pairs of archives look at the first `k` values only.
proof fn lemma_cascade_prefix<F: Fn(&Rollup) -> u64>(
    f: F,
    b: Seq<u8>,
    h: HeaderView,
    t: int,
    v1: Seq<u64>,
    v2: Seq<u64>,
    k: int,
)
    requires
        forall|i: int| 0 <= i < k ==> v1[i] == v2[i],
    ensures
        cascade(b, h, t, v1, k) == cascade(b, h, t, v2, k),
        cascade_by(f, b, h, t, v1, k) == cascade_by(f, b, h, t, v2, k),
    decreases k,
{
    if k > 0 {
        lemma_cascade_prefix(f, b, h, t, v1, v2, k - 1);
    }
}

/// Once the roll-up has stopped, nothing more is written.
proof fn lemma_cascade_stopped<F: Fn(&Rollup) -> u64>(
    f: F,
    b: Seq<u8>,
    h: HeaderView,
    t: int,
    values: Seq<u64>,
    k: int,
    m: int,
)
    requires
        0 <= k <= m,
        !cascade(b, h, t, values, k).1,
        cascade_by(f, b, h, t, values, k),
    ensures
        cascade(b, h, t, values, m) == cascade(b, h, t, values, k),
        cascade_by(f, b, h, t, values, m),
    decreases m - k,
{
    if k < m {
        lemma_cascade_stopped(f, b, h, t, values, k, m - 1);
    }
}

/// Rolls up one pair of archives: where archive `level` holds enough
/// points within the interval in which `timestamp` falls, the value that
/// `aggregate` makes of them is written into the next coarser archive and
/// handed back; else nothing is written.
pub fn propagate_step<F: Fn(&Rollup) -> u64>(
    bytes: &mut [u8],
    header: &Header,
    level: usize,
    timestamp: u32,
    aggregate: &F,
) -> (r: Option<u64>)
    requires
        header@.well_formed(),
        header@.file_size() <= old(bytes)@.len(),
        level + 1 < header@.archive_info.len(),
        forall|x: Rollup|
            0 < x.expected && x.points@.len() <= x.expected ==> #[trigger] call_requires(
                *aggregate,
                (&x,),
            ),
    ensures
        final(bytes)@.len() == old(bytes)@.len(),
        r is Some <==> rolls_up(old(bytes)@, header@, level as int, timestamp as int),
        r is Some ==> given_by(
            *aggregate,
            old(bytes)@,
            header@,
            level as int,
            timestamp as int,
            r->0,
        ),
        r is Some ==> final(bytes)@ == rolled(
            old(bytes)@,
            header@,
            level as int,
            timestamp as int,
            r->0,
        ),
        r is None ==> final(bytes)@ == old(bytes)@,
{
    match rollup(bytes, header, level, timestamp) {
        None => None,
        Some(x) => {
            let value = aggregate(&x);
            proof {
                reveal(given_by);
                assert(x.describes(bytes@, header@, level as int, timestamp as int));
            }
            store_rollup(bytes, header, level, timestamp, value);
            Some(value)
        },
    }
}

/// Rolls a write up through the archives: from each archive into the next
/// coarser one, for the interval in which `timestamp` falls, as long as
/// the finer archive holds enough points within that interval. What the
/// points of an interval are combined to is left to `aggregate`.
pub fn propagate<F: Fn(&Rollup) -> u64>(
    bytes: &mut [u8],
    header: &Header,
    timestamp: u32,
    aggregate: &F,
)
    requires
        header@.well_formed(),
        header@.file_size() <= old(bytes)@.len(),
        forall|x: Rollup|
            0 < x.expected && x.points@.len() <= x.expected ==> #[trigger] call_requires(
                *aggregate,
                (&x,),
            ),
    ensures
        final(bytes)@.len() == old(bytes)@.len(),
        exists|values: Seq<u64>|
            {
                &&& cascade_by(
                    *aggregate,
                    old(bytes)@,
                    header@,
                    timestamp as int,
                    values,
                    header@.archive_info.len() - 1,
                )
                &&& final(bytes)@ == (#[trigger] cascade(
                    old(bytes)@,
                    header@,
                    timestamp as int,
                    values,
                    header@.archive_info.len() - 1,
                )).0
            },
{
    let n = header.archive_info().len();
    let ghost b0 = bytes@;
    let ghost h = header@;
    let ghost t = timestamp as int;
    let ghost mut values: Seq<u64> = Seq::new((n - 1) as nat, |i: int| 0u64);
    let mut level: usize = 0;
    let mut going = true;
    while going && level + 1 < n
        invariant
            0 < n == h.archive_info.len(),
            h == header@,
            h.well_formed(),
            h.file_size() <= bytes@.len(),
            bytes@.len() == b0.len(),
            t == timestamp as int,
            level <= n - 1,
            values.len() == n - 1,
            forall|x: Rollup|
                0 < x.expected && x.points@.len() <= x.expected ==> #[trigger] call_requires(
                    *aggregate,
                    (&x,),
                ),
            going ==> cascade(b0, h, t, values, level as int) == (bytes@, true),
            going ==> cascade_by(*aggregate, b0, h, t, values, level as int),
            !going ==> cascade(b0, h, t, values, n - 1).0 == bytes@,
            !going ==> cascade_by(*aggregate, b0, h, t, values, n - 1),
        decreases n - level, (if going { 1int } else { 0int }),
    {
        let ghost before = bytes@;
        match propagate_step(bytes, header, level, timestamp, aggregate) {
            None => {
                proof {
                    lemma_cascade_step(*aggregate, b0, h, t, values, level as int, before, None);
                    lemma_cascade_stopped(*aggregate, b0, h, t, values, level + 1, n - 1);
                }
                going = false;
            },
            Some(value) => {
                proof {
                    let grown = values.update(level as int, value);
                    lemma_cascade_prefix(*aggregate, b0, h, t, values, grown, level as int);
                    lemma_cascade_step(
                        *aggregate,
                        b0,
                        h,
                        t,
                        grown,
                        level as int,
                        before,
                        Some(value),
                    );
                    values = grown;
                }
                level = level + 1;
            },
        }
    }
}

/// One more pair of archives: what the roll-up has come to after it.
proof fn lemma_cascade_step<F: Fn(&Rollup) -> u64>(
    f: F,
    b: Seq<u8>,
    h: HeaderView,
    t: int,
    values: Seq<u64>,
    k: int,
    before: Seq<u8>,
    written: Option<u64>,
)
    requires
        0 <= k,
        cascade(b, h, t, values, k) == (before, true),
        cascade_by(f, b, h, t, values, k),
        written is Some <==> rolls_up(before, h, k, t),
        written is Some ==> values[k] == written->0 && given_by(f, before, h, k, t, written->0),
    ensures
        cascade_by(f, b, h, t, values, k + 1),
        cascade(b, h, t, values, k + 1) == (if written is Some {
            (rolled(before, h, k, t, written->0), true)
        } else {
            (before, false)
        }),
{
}

/// The bytes after a point is taken into the finest archive and rolled up
/// through the coarser ones.
pub open spec fn updated(b: Seq<u8>, h: HeaderView, p: Point, values: Seq<u64>) -> Seq<u8> {
    cascade(
        placed(b, h.archive_info[0], p),
        h,
        p.timestamp as int,
        values,
        h.archive_info.len() - 1,
    ).0
}

/// Whether every value that such an update rolls up is what `f` makes of
/// the points that are rolled up.
pub open spec fn updated_by<F: Fn(&Rollup) -> u64>(
    f: F,
    b: Seq<u8>,
    h: HeaderView,
    p: Point,
    values: Seq<u64>,
) -> bool {
    cascade_by(
        f,
        placed(b, h.archive_info[0], p),
        h,
        p.timestamp as int,
        values,
        h.archive_info.len() - 1,
    )
}

/// Writes a point: takes it into the finest archive, if its time is
/// admitted, and rolls it up through the coarser archives. A point that is
/// not admitted leaves the file as it is.
pub fn update<F: Fn(&Rollup) -> u64>(
    bytes: &mut [u8],
    header: &Header,
    timestamp: u32,
    value: u64,
    now: u32,
    aggregate: &F,
) -> (r: Result<(), RangeError>)
    requires
        header@.well_formed(),
        header@.file_size() <= old(bytes)@.len(),
        forall|x: Rollup|
            0 < x.expected && x.points@.len() <= x.expected ==> #[trigger] call_requires(
                *aggregate,
                (&x,),
            ),
    ensures
        r == admission(header@, timestamp as int, now as int),
        final(bytes)@.len() == old(bytes)@.len(),
        r is Err ==> final(bytes)@ == old(bytes)@,
        r is Ok ==> exists|values: Seq<u64>|
            {
                &&& updated_by(
                    *aggregate,
                    old(bytes)@,
                    header@,
                    Point { timestamp, value },
                    values,
                )
                &&& final(bytes)@ == #[trigger] updated(
                    old(bytes)@,
                    header@,
                    Point { timestamp, value },
                    values,
                )
            },
{
    match record(bytes, header, timestamp, value, now) {
        Err(e) => Err(e),
        Ok(_) => {
            let ghost taken = bytes@;
            propagate(bytes, header, timestamp, aggregate);
            proof {
                let n = header@.archive_info.len() - 1;
                let t = timestamp as int;
                let values = choose|values: Seq<u64>|
                    {
                        &&& cascade_by(*aggregate, taken, header@, t, values, n)
                        &&& bytes@ == (#[trigger] cascade(taken, header@, t, values, n)).0
                    };
                assert(bytes@ == updated(old(bytes)@, header@, Point { timestamp, value }, values));
            }
            Ok(())
        },
    }
}

/// Whether every point from the `i`-th on is admitted at the moment `now`;
/// the first one that is not decides the error.
pub open spec fn batch_admission(h: HeaderView, points: Seq<Point>, now: int, i: int) -> Result<
    (),
    RangeError,
>
    decreases points.len() - i,
{
    if i < 0 || i >= points.len() {
        Ok(())
    } else {
        match admission(h, points[i].timestamp as int, now) {
            Err(e) => Err(e),
            Ok(_) => batch_admission(h, points, now, i + 1),
        }
    }
}

/// The bytes after the first `k` points were written, one after the
/// other, each with the values that its roll-up writes.
pub open spec fn batch(
    b: Seq<u8>,
    h: HeaderView,
    points: Seq<Point>,
    all: Seq<Seq<u64>>,
    k: int,
) -> Seq<u8>
    decreases k,
{
    if k <= 0 {
        b
    } else {
        updated(batch(b, h, points, all, k - 1), h, points[k - 1], all[k - 1])
    }
}

/// Whether every value that is rolled up while the first `k` points are
/// written is what `f` makes of the points that are rolled up.
pub open spec fn batch_by<F: Fn(&Rollup) -> u64>(
    f: F,
    b: Seq<u8>,
    h: HeaderView,
    points: Seq<Point>,
    all: Seq<Seq<u64>>,
    k: int,
) -> bool
    decreases k,
{
    if k <= 0 {
        true
    } else {
        &&& batch_by(f, b, h, points, all, k - 1)
        &&& updated_by(f, batch(b, h, points, all, k - 1), h, points[k - 1], all[k - 1])
    }
}

/// The first `k` points look at the first `k` sequences of values only.
proof fn lemma_batch_prefix<F: Fn(&Rollup) -> u64>(
    f: F,
    b: Seq<u8>,
    h: HeaderView,
    points: Seq<Point>,
    a1: Seq<Seq<u64>>,
    a2: Seq<Seq<u64>>,
    k: int,
)
    requires
        forall|i: int| 0 <= i < k ==> a1[i] == a2[i],
    ensures
        batch(b, h, points, a1, k) == batch(b, h, points, a2, k),
        batch_by(f, b, h, points, a1, k) == batch_by(f, b, h, points, a2, k),
    decreases k,
{
    if k > 0 {
        lemma_batch_prefix(f, b, h, points, a1, a2, k - 1);
    }
}

/// Where a batch is admitted, each of its points is.
proof fn lemma_batch_admitted(h: HeaderView, points: Seq<Point>, now: int, i: int, j: int)
    requires
        0 <= i <= j < points.len(),
        batch_admission(h, points, now, i) is Ok,
    ensures
        admission(h, points[j].timestamp as int, now) is Ok,
    decreases j - i,
{
    if i < j {
        lemma_batch_admitted(h, points, now, i + 1, j);
    }
}

/// Tells whether every point of a batch is admitted at the moment `now`.
pub fn check_batch(header: &Header, points: &[Point], now: u32) -> (r: Result<(), RangeError>)
    ensures
        r == batch_admission(header@, points@, now as int, 0),
{
    let mut i: usize = 0;
    while i < points.len()
        invariant
            i <= points@.len(),
            batch_admission(header@, points@, now as int, 0) == batch_admission(
                header@,
                points@,
                now as int,
                i as int,
            ),
        decreases points@.len() - i,
    {
        match check_timestamp(header, points[i].timestamp, now) {
            Err(e) => { return Err(e); },
            Ok(_) => {},
        }
        i = i + 1;
    }
    Ok(())
}

/// Writes a batch of points, in the order of their times whatever the
/// order in which they come, so that each point is rolled up over what
/// the points before it have left. Where a point of the batch is not
/// admitted, nothing is written.
pub fn update_many<F: Fn(&Rollup) -> u64>(
    bytes: &mut [u8],
    header: &Header,
    points: &[Point],
    now: u32,
    aggregate: &F,
) -> (r: Result<(), RangeError>)
    requires
        header@.well_formed(),
        header@.file_size() <= old(bytes)@.len(),
        forall|x: Rollup|
            0 < x.expected && x.points@.len() <= x.expected ==> #[trigger] call_requires(
                *aggregate,
                (&x,),
            ),
    ensures
        r == batch_admission(
            header@,
            time_ordered(points@, points@.len() as int),
            now as int,
            0,
        ),
        final(bytes)@.len() == old(bytes)@.len(),
        r is Err ==> final(bytes)@ == old(bytes)@,
        r is Ok ==> exists|all: Seq<Seq<u64>>|
            {
                &&& batch_by(
                    *aggregate,
                    old(bytes)@,
                    header@,
                    time_ordered(points@, points@.len() as int),
                    all,
                    points@.len() as int,
                )
                &&& final(bytes)@ == #[trigger] batch(
                    old(bytes)@,
                    header@,
                    time_ordered(points@, points@.len() as int),
                    all,
                    points@.len() as int,
                )
            },
{
    let sorted = sort_points(points);
    match check_batch(header, sorted.as_slice(), now) {
        Err(e) => { return Err(e); },
        Ok(u) => {
            assert(u == ());
        },
    }
    let ghost b0 = bytes@;
    let ghost h = header@;
    let ghost mut all: Seq<Seq<u64>> = Seq::empty();
    let mut k: usize = 0;
    while k < sorted.len()
        invariant
            k <= sorted@.len(),
            sorted@.len() == points@.len(),
            sorted@ == time_ordered(points@, points@.len() as int),
            h == header@,
            h.well_formed(),
            h.file_size() <= bytes@.len(),
            bytes@.len() == b0.len(),
            batch_admission(h, sorted@, now as int, 0) == Ok::<(), RangeError>(()),
            forall|x: Rollup|
                0 < x.expected && x.points@.len() <= x.expected ==> #[trigger] call_requires(
                    *aggregate,
                    (&x,),
                ),
            all.len() == k,
            bytes@ == batch(b0, h, sorted@, all, k as int),
            batch_by(*aggregate, b0, h, sorted@, all, k as int),
        decreases sorted@.len() - k,
    {
        let p = sorted[k];
        let ghost before = bytes@;
        proof {
            lemma_batch_admitted(h, sorted@, now as int, 0, k as int);
        }
        match update(bytes, header, p.timestamp, p.value, now, aggregate) {
            Err(e) => { return Err(e); },
            Ok(_) => {},
        }
        proof {
            let q = Point { timestamp: p.timestamp, value: p.value };
            assert(q == sorted@[k as int]);
            let values = choose|values: Seq<u64>|
                {
                    &&& updated_by(*aggregate, before, h, q, values)
                    &&& bytes@ == #[trigger] updated(before, h, q, values)
                };
            let grown = all.push(values);
            lemma_batch_prefix(*aggregate, b0, h, sorted@, all, grown, k as int);
            all = grown;
        }
        k = k + 1;
    }
    Ok(())
}

} // verus!
