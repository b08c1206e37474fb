//! The fetch engine: which archive answers a request, which slots it
//! reads, and which of them hold what was asked for.
use crate::codec::decode_point;
use crate::codec::lemma_chained_bounds;
use crate::codec::point_at;
use crate::errors::RangeError;
use crate::planner::lemma_ordered_steps_positive;
use crate::types::ArchiveInfo;
use crate::types::Header;
use crate::types::HeaderView;
use vstd::prelude::*;

verus! {

/// How far `from` lies behind `now`; zero where it does not lie behind.
pub open spec fn age(from: int, now: int) -> int {
    if now > from {
        now - from
    } else {
        0
    }
}

/// The first archive from `i` on whose retention covers `age`, or the last
/// archive where none does.
pub open spec fn covering(infos: Seq<ArchiveInfo>, age: int, i: int) -> int
    decreases infos.len() - i,
{
    if i < 0 || i >= infos.len() - 1 {
        infos.len() - 1
    } else if infos[i].spec_retention() >= age {
        i
    } else {
        covering(infos, age, i + 1)
    }
}

/// The archive that answers a request from `from` at the moment `now`: the
/// finest one whose retention covers the age of `from`, or the coarsest
/// one where none does.
pub open spec fn chosen(h: HeaderView, from: int, now: int) -> int {
    covering(h.archive_info, age(from, now), 0)
}

/// The time `t` moved down to a multiple of `step`.
pub open spec fn align(t: int, step: int) -> int {
    t - t % step
}

/// The start of a request, moved up to the oldest moment that the archive
/// still holds where the request reaches further back.
pub open spec fn clamped(a: ArchiveInfo, from: int, now: int) -> int {
    if age(from, now) > a.spec_retention() {
        now - a.spec_retention()
    } else {
        from
    }
}

/// The slot of the archive in which the time `t` falls.
pub open spec fn slot_of(a: ArchiveInfo, t: int) -> int {
    (t / a.seconds_per_point as int) % a.num_points as int
}

/// Where the slot stands in which the time `t` falls.
pub open spec fn slot_at(a: ArchiveInfo, t: int) -> int {
    a.offset + 12 * slot_of(a, t)
}

/// The value that the archive holds for the time `t`: the value in the
/// slot of `t`, if that slot's timestamp is `t`. A slot that was never
/// written, or written again for a later time, holds nothing for `t`.
pub open spec fn sample(b: Seq<u8>, a: ArchiveInfo, t: int) -> Option<u64> {
    let p = point_at(b, slot_at(a, t));
    if p.timestamp == t {
        Some(p.value)
    } else {
        None
    }
}

/// The number of steps from `lo` up to `hi`, none where `hi` is not above
/// `lo`.
pub open spec fn steps_between(lo: int, hi: int, step: int) -> int {
    if hi > lo {
        (hi - lo) / step
    } else {
        0
    }
}

/// What a fetch gives: for every multiple of the chosen archive's step
/// from the aligned start up to the aligned end, the end left out, the
/// time and the value that the archive holds for it.
pub open spec fn fetch_series(b: Seq<u8>, h: HeaderView, from: int, until: int, now: int) -> Seq<
    (u32, Option<u64>),
> {
    let a = h.archive_info[chosen(h, from, now)];
    let step = a.seconds_per_point as int;
    let lo = align(clamped(a, from, now), step);
    let hi = align(until, step);
    Seq::new(
        steps_between(lo, hi, step) as nat,
        |k: int| ((lo + k * step) as u32, sample(b, a, lo + k * step)),
    )
}

/// The chosen archive is the first whose retention covers the age, and the
/// last one where none does.
pub proof fn lemma_covering(infos: Seq<ArchiveInfo>, age: int, i: int)
    requires
        0 <= i < infos.len(),
    ensures
        i <= covering(infos, age, i) < infos.len(),
        forall|j: int| i <= j < covering(infos, age, i) ==> (#[trigger] infos[j]).spec_retention() < age,
        covering(infos, age, i) < infos.len() - 1 ==> infos[covering(infos, age, i)].spec_retention()
            >= age,
    decreases infos.len() - i,
{
    if i < infos.len() - 1 && infos[i].spec_retention() < age {
        lemma_covering(infos, age, i + 1);
    }
}

/// Chooses the archive that answers a request of the given age.
pub fn select_archive(infos: &[ArchiveInfo], age: u32) -> (i: usize)
    requires
        infos@.len() > 0,
    ensures
        i == covering(infos@, age as int, 0),
        i < infos@.len(),
{
    let mut i: usize = 0;
    let last: usize = infos.len() - 1;
    while i < last && infos[i].retention() < age as u64
        invariant
            i < infos@.len(),
            last == infos@.len() - 1,
            covering(infos@, age as int, 0) == covering(infos@, age as int, i as int),
        decreases infos@.len() - i,
    {
        i = i + 1;
    }
    i
}

/// Reads what the archive holds for the time `t`.
pub fn read_sample(bytes: &[u8], a: &ArchiveInfo, t: u64) -> (r: Option<u64>)
    requires
        a.seconds_per_point > 0,
        a.num_points > 0,
        a.end() <= bytes@.len(),
    ensures
        r == sample(bytes@, *a, t as int),
{
    let slot: u64 = (t / a.seconds_per_point as u64) % a.num_points as u64;
    let at: u64 = a.offset as u64 + 12 * slot;
    let total = bytes.len();
    assert(at + 12 <= total);
    let p = decode_point(bytes, at as usize).unwrap();
    if p.timestamp as u64 == t {
        Some(p.value)
    } else {
        None
    }
}

/// Fetches the series from `from` up to `until`, as the file holds it at
/// the moment `now`.
///
/// An interval that does not end after its start is turned down. A start
/// further back than the file retains is moved up, so that such a request
/// is answered from the coarsest archive. The series has one entry for
/// every step of the chosen archive between the aligned bounds, whether or
/// not the file holds a value for it.
pub fn fetch(bytes: &[u8], header: &Header, from: u32, until: u32, now: u32) -> (r: Result<
    Vec<(u32, Option<u64>)>,
    RangeError,
>)
    requires
        header@.well_formed(),
        header@.file_size() <= bytes@.len(),
    ensures
        until <= from ==> r == Err::<Vec<(u32, Option<u64>)>, RangeError>(
            RangeError::InvalidInterval,
        ),
        until > from ==> r is Ok && r->Ok_0@ == fetch_series(
            bytes@,
            header@,
            from as int,
            until as int,
            now as int,
        ),
{
    if until <= from {
        return Err(RangeError::InvalidInterval);
    }
    let infos = header.archive_info();
    let age: u32 = if now > from {
        now - from
    } else {
        0
    };
    let i = select_archive(infos, age);
    let a = &infos[i];
    proof {
        lemma_ordered_steps_positive(infos@, i as int);
        lemma_chained_bounds(header@, i as int);
    }
    let step: u64 = a.seconds_per_point as u64;
    let retention = a.retention();
    let start: u64 = if age as u64 > retention {
        now as u64 - retention
    } else {
        from as u64
    };
    proof {
        vstd::arithmetic::div_mod::lemma_mod_decreases(start as nat, step as nat);
        vstd::arithmetic::div_mod::lemma_mod_decreases(until as nat, step as nat);
    }
    let lo: u64 = start - start % step;
    let hi: u64 = until as u64 - until as u64 % step;
    let count: u64 = if hi > lo {
        (hi - lo) / step
    } else {
        0
    };
    proof {
        lemma_steps_fit(lo as int, hi as int, step as int);
    }
    let mut out: Vec<(u32, Option<u64>)> = Vec::new();
    let mut k: u64 = 0;
    let ghost series = fetch_series(bytes@, header@, from as int, until as int, now as int);
    while k < count
        invariant
            k <= count,
            step > 0,
            step == a.seconds_per_point,
            a.num_points > 0,
            a.end() <= bytes@.len(),
            hi <= u32::MAX,
            count == steps_between(lo as int, hi as int, step as int),
            lo + count * step <= hi || count == 0,
            out@.len() == k,
            forall|j: int|
                0 <= j < k ==> #[trigger] out@[j] == ((lo + j * step) as u32, sample(
                    bytes@,
                    *a,
                    lo + j * step,
                )),
        decreases count - k,
    {
        proof {
            assert(k * step + step <= count * step) by (nonlinear_arith)
                requires
                    k < count,
                    step > 0,
            ;
        }
        let t: u64 = lo + k * step;
        let v = read_sample(bytes, a, t);
        out.push((t as u32, v));
        k = k + 1;
    }
    assert(out@ =~= series);
    Ok(out)
}

/// The steps that lie between two bounds do not reach past the upper one.
pub proof fn lemma_steps_fit(lo: int, hi: int, step: int)
    requires
        step > 0,
    ensures
        steps_between(lo, hi, step) >= 0,
        hi > lo ==> lo + steps_between(lo, hi, step) * step <= hi,
{
    if hi > lo {
        vstd::arithmetic::div_mod::lemma_fundamental_div_mod(hi - lo, step);
        vstd::arithmetic::div_mod::lemma_div_pos_is_pos(hi - lo, step);
        assert(step * ((hi - lo) / step) == ((hi - lo) / step) * step) by (nonlinear_arith);
    }
}

} // verus!
