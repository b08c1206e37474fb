//! The retention planner: which headers a file may have, and where the
//! archives of a new file go.
use crate::codec::blank;
use crate::codec::blank_bytes;
use crate::codec::lemma_chained_bounds;
use crate::errors::ValidationError;
use crate::types::AggregationType;
use crate::types::ArchiveInfo;
use crate::types::Header;
use crate::types::HeaderView;
use crate::types::Metadata;
use crate::types::XFF_MINUS_ZERO;
use crate::types::XFF_ONE;
use crate::types::lemma_points_before_grows;
use crate::types::points_before;
use crate::types::unit_fraction;
use crate::types::coarser_next;
use crate::types::well_ordered;
use vstd::prelude::*;

verus! {

/// What is wrong with an archive that follows one with the given step and
/// retention, if anything. The first archive follows a step and a
/// retention of zero.
pub open spec fn archive_fault(prev_step: int, prev_retention: int, a: ArchiveInfo) -> Option<
    ValidationError,
> {
    if a.seconds_per_point <= prev_step {
        Some(ValidationError::NonAscendingPrecision)
    } else if prev_step > 0 && a.seconds_per_point as int % prev_step != 0 {
        Some(ValidationError::NonDivisibleStep)
    } else if a.spec_retention() <= prev_retention {
        Some(ValidationError::RetentionTooShort)
    } else {
        None
    }
}

/// The step of the archive before archive `i`, zero before the first.
pub open spec fn step_before(infos: Seq<ArchiveInfo>, i: int) -> int {
    if i <= 0 {
        0
    } else {
        infos[i - 1].seconds_per_point as int
    }
}

/// The retention of the archive before archive `i`, zero before the first.
pub open spec fn retention_before(infos: Seq<ArchiveInfo>, i: int) -> int {
    if i <= 0 {
        0
    } else {
        infos[i - 1].spec_retention()
    }
}

/// What is wrong with archive `i` as it follows the archive before it, if
/// anything.
pub open spec fn fault_at(infos: Seq<ArchiveInfo>, i: int) -> Option<ValidationError> {
    archive_fault(step_before(infos, i), retention_before(infos, i), infos[i])
}

/// What is wrong with the first faulty archive from archive `i` on, if
/// there is one.
pub open spec fn first_fault(infos: Seq<ArchiveInfo>, i: int) -> Option<ValidationError>
    decreases infos.len() - i,
{
    if i < 0 || i >= infos.len() {
        None
    } else {
        match fault_at(infos, i) {
            Some(e) => Some(e),
            None => first_fault(infos, i + 1),
        }
    }
}

/// What validating a header gives. The checks are made in this order: the
/// list is not empty; the x-files factor is a number from zero to one; the
/// metadata counts the archives; no archive is at fault, the first faulty
/// one deciding the error; the metadata names the last archive's
/// retention.
pub open spec fn validation_outcome(m: Metadata, infos: Seq<ArchiveInfo>) -> Result<
    (),
    ValidationError,
> {
    if infos.len() == 0 {
        Err(ValidationError::EmptyArchiveList)
    } else if !unit_fraction(m.x_files_factor) {
        Err(ValidationError::InvalidXFilesFactor)
    } else if m.archive_count != infos.len() {
        Err(ValidationError::ArchiveCountMismatch)
    } else {
        match first_fault(infos, 0) {
            Some(e) => Err(e),
            None => if m.max_retention != infos.last().spec_retention() {
                Err(ValidationError::MaxRetentionMismatch)
            } else {
                Ok(())
            },
        }
    }
}

/// No archive from `i` on is at fault exactly if none of them is.
proof fn lemma_first_fault(infos: Seq<ArchiveInfo>, i: int)
    requires
        0 <= i <= infos.len(),
    ensures
        first_fault(infos, i) is None <==> forall|j: int|
            i <= j < infos.len() ==> #[trigger] fault_at(infos, j) is None,
    decreases infos.len() - i,
{
    if i < infos.len() {
        if fault_at(infos, i) is None {
            lemma_first_fault(infos, i + 1);
        }
    }
}

/// Validation accepts exactly the valid headers.
pub proof fn lemma_validation_sound(m: Metadata, infos: Seq<ArchiveInfo>)
    ensures
        validation_outcome(m, infos) is Ok <==> (HeaderView {
            metadata: m,
            archive_info: infos,
        }).valid(),
{
    if infos.len() > 0 {
        lemma_first_fault(infos, 0);
        if first_fault(infos, 0) is None {
            assert(fault_at(infos, 0) is None);
            assert forall|i: int| 0 <= i < infos.len() - 1 implies #[trigger] coarser_next(
                infos,
                i,
            ) by {
                assert(fault_at(infos, i) is None);
                assert(fault_at(infos, i + 1) is None);
            }
        }
        if well_ordered(infos) {
            assert forall|j: int| 0 <= j < infos.len() implies #[trigger] fault_at(infos, j)
                is None by {
                if j > 0 {
                    assert(coarser_next(infos, j - 1));
                    lemma_ordered_steps_positive(infos, j - 1);
                }
            }
        }
    }
}

/// In a well-ordered list every step and every retention is positive.
pub proof fn lemma_ordered_steps_positive(infos: Seq<ArchiveInfo>, i: int)
    requires
        well_ordered(infos),
        0 <= i < infos.len(),
    ensures
        infos[i].seconds_per_point > 0,
        infos[i].spec_retention() > 0,
        infos[i].num_points > 0,
    decreases i,
{
    if i > 0 {
        lemma_ordered_steps_positive(infos, i - 1);
        assert(coarser_next(infos, i - 1));
    }
    assert(infos[i].num_points > 0) by (nonlinear_arith)
        requires
            infos[i].num_points * infos[i].seconds_per_point > 0,
            infos[i].seconds_per_point > 0,
    ;
}

/// Tells whether the bit pattern of a single-precision number is that of a
/// number from zero to one.
pub fn is_unit_fraction(bits: u32) -> (ok: bool)
    ensures
        ok == unit_fraction(bits),
{
    bits <= XFF_ONE || bits == XFF_MINUS_ZERO
}

/// Validates a header before a file is created with it.
///
/// The header is accepted exactly if it is valid; the error tells the
/// first check that failed.
pub fn validate(metadata: &Metadata, archive_infos: &[ArchiveInfo]) -> (r: Result<
    (),
    ValidationError,
>)
    ensures
        r == validation_outcome(*metadata, archive_infos@),
        r is Ok <==> (HeaderView { metadata: *metadata, archive_info: archive_infos@ }).valid(),
{
    proof {
        lemma_validation_sound(*metadata, archive_infos@);
    }
    let n = archive_infos.len();
    if n == 0 {
        return Err(ValidationError::EmptyArchiveList);
    }
    if !is_unit_fraction(metadata.x_files_factor) {
        return Err(ValidationError::InvalidXFilesFactor);
    }
    if metadata.archive_count as u64 != n as u64 {
        return Err(ValidationError::ArchiveCountMismatch);
    }
    let mut prev_step: u32 = 0;
    let mut prev_retention: u64 = 0;
    let mut i: usize = 0;
    while i < n
        invariant
            i <= n,
            0 < n == archive_infos@.len(),
            unit_fraction(metadata.x_files_factor),
            metadata.archive_count == n,
            validation_outcome(*metadata, archive_infos@) is Ok <==> (HeaderView {
                metadata: *metadata,
                archive_info: archive_infos@,
            }).valid(),
            prev_step == step_before(archive_infos@, i as int),
            prev_retention == retention_before(archive_infos@, i as int),
            first_fault(archive_infos@, 0) == first_fault(archive_infos@, i as int),
        decreases n - i,
    {
        let a = &archive_infos[i];
        let retention = a.retention();
        if a.seconds_per_point <= prev_step {
            return Err(ValidationError::NonAscendingPrecision);
        }
        if prev_step > 0 && a.seconds_per_point % prev_step != 0 {
            return Err(ValidationError::NonDivisibleStep);
        }
        if retention <= prev_retention {
            return Err(ValidationError::RetentionTooShort);
        }
        prev_step = a.seconds_per_point;
        prev_retention = retention;
        i = i + 1;
    }
    if metadata.max_retention as u64 != prev_retention {
        return Err(ValidationError::MaxRetentionMismatch);
    }
    Ok(())
}

/// Where archive `i` starts in a new file with these archives: behind the
/// header and the archives before it.
pub open spec fn offset_for(infos: Seq<ArchiveInfo>, i: int) -> int {
    16 + 12 * infos.len() + 12 * points_before(infos, i)
}

/// Whether every archive of a new file starts where 32 bits can tell.
pub open spec fn offsets_fit(infos: Seq<ArchiveInfo>) -> bool {
    forall|i: int| 0 <= i < infos.len() ==> #[trigger] offset_for(infos, i) <= u32::MAX
}

/// The archives with the offsets that they have in a new file.
pub open spec fn with_offsets(infos: Seq<ArchiveInfo>) -> Seq<ArchiveInfo> {
    Seq::new(
        infos.len(),
        |i: int|
            ArchiveInfo {
                offset: offset_for(infos, i) as u32,
                seconds_per_point: infos[i].seconds_per_point,
                num_points: infos[i].num_points,
            },
    )
}

/// The offsets depend on the capacities alone.
proof fn lemma_points_before_same(a: Seq<ArchiveInfo>, b: Seq<ArchiveInfo>, i: int)
    requires
        0 <= i <= a.len(),
        a.len() == b.len(),
        forall|j: int| 0 <= j < a.len() ==> (#[trigger] a[j]).num_points == b[j].num_points,
    ensures
        points_before(a, i) == points_before(b, i),
    decreases i,
{
    if i > 0 {
        lemma_points_before_same(a, b, i - 1);
        assert(a[i - 1].num_points == b[i - 1].num_points);
    }
}

/// Assigns each archive its offset in a new file: the first one right
/// behind the header, each further one behind the archive before it.
///
/// There is no result where an offset does not fit its 32 bits. The
/// offsets that come in are not looked at.
pub fn compute_offsets(archive_infos: &[ArchiveInfo]) -> (r: Option<Vec<ArchiveInfo>>)
    ensures
        r is Some <==> offsets_fit(archive_infos@),
        r is Some ==> r->0@ == with_offsets(archive_infos@),
{
    let n = archive_infos.len();
    let ghost infos = archive_infos@;
    if n > 0x1555_5555 {
        proof {
            lemma_points_before_grows(infos, 0, 0);
            assert(offset_for(infos, 0) > u32::MAX);
        }
        return None;
    }
    let mut out: Vec<ArchiveInfo> = Vec::new();
    let mut offset: u64 = 16 + 12 * (n as u64);
    let mut i: usize = 0;
    while i < n
        invariant
            i <= n,
            n == infos.len(),
            n <= 0x1555_5555,
            infos == archive_infos@,
            offset == offset_for(infos, i as int),
            offset <= 14 * 0x1_0000_0000,
            out@.len() == i,
            forall|j: int| 0 <= j < i ==> #[trigger] offset_for(infos, j) <= u32::MAX,
            forall|j: int| 0 <= j < i ==> #[trigger] out@[j] == with_offsets(infos)[j],
        decreases n - i,
    {
        if offset > 0xFFFF_FFFF {
            return None;
        }
        let a = &archive_infos[i];
        out.push(ArchiveInfo::new(offset as u32, a.seconds_per_point, a.num_points));
        offset = offset + a.archive_size();
        i = i + 1;
    }
    assert(out@ =~= with_offsets(infos));
    Some(out)
}

/// What planning a new file gives: the header whose archives have these
/// steps and capacities, with their offsets assigned, the archives counted
/// and the last archive's retention named. An empty list is turned down
/// first, then a file too large for its 32-bit fields, then whatever
/// validation finds.
pub open spec fn plan_outcome(
    aggregation: AggregationType,
    x_files_factor: u32,
    infos: Seq<ArchiveInfo>,
) -> Result<HeaderView, ValidationError> {
    if infos.len() == 0 {
        Err(ValidationError::EmptyArchiveList)
    } else if !offsets_fit(infos) || infos.last().spec_retention() > u32::MAX {
        Err(ValidationError::TooLarge)
    } else {
        let metadata = Metadata {
            aggregation,
            max_retention: infos.last().spec_retention() as u32,
            x_files_factor,
            archive_count: infos.len() as u32,
        };
        match validation_outcome(metadata, with_offsets(infos)) {
            Err(e) => Err(e),
            Ok(_) => Ok(HeaderView { metadata, archive_info: with_offsets(infos) }),
        }
    }
}

/// A planned header, or the error, as what it stands for.
pub open spec fn plan_view(r: Result<Header, ValidationError>) -> Result<
    HeaderView,
    ValidationError,
> {
    match r {
        Ok(h) => Ok(h@),
        Err(e) => Err(e),
    }
}

/// A header that planning gives is well formed.
pub proof fn lemma_plan_well_formed(
    aggregation: AggregationType,
    x_files_factor: u32,
    infos: Seq<ArchiveInfo>,
)
    requires
        plan_outcome(aggregation, x_files_factor, infos) is Ok,
    ensures
        plan_outcome(aggregation, x_files_factor, infos)->Ok_0.well_formed(),
{
    let h = plan_outcome(aggregation, x_files_factor, infos)->Ok_0;
    lemma_validation_sound(h.metadata, h.archive_info);
    assert(offset_for(infos, 0) <= u32::MAX);
    lemma_points_before_grows(infos, 0, 0);
    assert forall|i: int| 0 <= i < h.archive_info.len() implies h.archive_info[i].offset
        == #[trigger] h.start_of(i) by {
        lemma_points_before_same(infos, h.archive_info, i);
        assert(offset_for(infos, i) <= u32::MAX);
        lemma_points_before_grows(infos, 0, i);
    }
}

/// Plans the header of a new file from the steps and capacities of its
/// archives. The offsets that come in are not looked at.
pub fn plan(aggregation: AggregationType, x_files_factor: u32, archive_infos: &[ArchiveInfo]) -> (r:
    Result<Header, ValidationError>)
    ensures
        plan_view(r) == plan_outcome(aggregation, x_files_factor, archive_infos@),
        r is Ok ==> r->Ok_0@.well_formed(),
{
    let n = archive_infos.len();
    if n == 0 {
        return Err(ValidationError::EmptyArchiveList);
    }
    let infos = match compute_offsets(archive_infos) {
        Some(v) => v,
        None => { return Err(ValidationError::TooLarge); },
    };
    let retention = archive_infos[n - 1].retention();
    if retention > 0xFFFF_FFFF {
        return Err(ValidationError::TooLarge);
    }
    proof {
        assert(offset_for(archive_infos@, 0) <= u32::MAX);
        lemma_points_before_grows(archive_infos@, 0, 0);
    }
    let metadata = Metadata::new(aggregation, retention as u32, x_files_factor, n as u32);
    match validate(&metadata, infos.as_slice()) {
        Err(e) => Err(e),
        Ok(_) => {
            proof {
                lemma_plan_well_formed(aggregation, x_files_factor, archive_infos@);
            }
            Ok(Header::new(metadata, infos))
        },
    }
}

/// The bytes of a new file, or the error, as planning gives it.
pub open spec fn create_outcome(
    aggregation: AggregationType,
    x_files_factor: u32,
    infos: Seq<ArchiveInfo>,
) -> Result<Seq<u8>, ValidationError> {
    match plan_outcome(aggregation, x_files_factor, infos) {
        Ok(h) => Ok(blank_bytes(h)),
        Err(e) => Err(e),
    }
}

/// The bytes of a created file, or the error.
pub open spec fn create_view(r: Result<Vec<u8>, ValidationError>) -> Result<
    Seq<u8>,
    ValidationError,
> {
    match r {
        Ok(v) => Ok(v@),
        Err(e) => Err(e),
    }
}

/// Makes the bytes of a new file: the planned header, and every archive
/// filled with zeros.
pub fn create(aggregation: AggregationType, x_files_factor: u32, archive_infos: &[ArchiveInfo]) -> (r:
    Result<Vec<u8>, ValidationError>)
    ensures
        create_view(r) == create_outcome(aggregation, x_files_factor, archive_infos@),
{
    let header = plan(aggregation, x_files_factor, archive_infos)?;
    proof {
        lemma_chained_bounds(header@, 0);
    }
    Ok(blank(&header))
}

} // verus!
