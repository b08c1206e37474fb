//! Opening the bytes of a file: reading the header and making sure that it
//! is one that the engines can work with.
use crate::codec::blank_bytes;
use crate::codec::decode_header;
use crate::codec::header_bytes;
use crate::codec::lemma_header_bytes_len;
use crate::codec::lemma_header_round_trip;
use crate::codec::lemma_chained_bounds;
use crate::codec::parse_header;
use crate::errors::Error;
use crate::errors::ParseError;
use crate::planner::lemma_plan_well_formed;
use crate::planner::plan_outcome;
use crate::planner::validate;
use crate::planner::validation_outcome;
use crate::types::AggregationType;
use crate::types::ArchiveInfo;
use crate::types::Header;
use crate::types::HeaderView;
use crate::types::lemma_points_before_grows;
use crate::types::points_before;
use vstd::prelude::*;

verus! {

/// What opening the bytes `b` gives: the header, provided that it decodes,
/// that the buffer holds every archive that the header describes, and that
/// the header is valid. The checks are made in this order.
pub open spec fn open_outcome(b: Seq<u8>) -> Result<HeaderView, Error> {
    match parse_header(b) {
        Err(e) => Err(Error::Parse(e)),
        Ok(h) => {
            if b.len() < h.file_size() {
                Err(Error::Parse(ParseError::TruncatedInput))
            } else {
                match validation_outcome(h.metadata, h.archive_info) {
                    Err(e) => Err(Error::Validation(e)),
                    Ok(_) => Ok(h),
                }
            }
        },
    }
}

/// An opened header, or the error, as what it stands for.
pub open spec fn open_view(r: Result<Header, Error>) -> Result<HeaderView, Error> {
    match r {
        Ok(h) => Ok(h@),
        Err(e) => Err(e),
    }
}

/// Opens the bytes of a file. The header that comes back is well formed,
/// and the buffer holds all of its archives: it is one that can be fetched
/// from and written to.
pub fn open(bytes: &[u8]) -> (r: Result<Header, Error>)
    ensures
        open_view(r) == open_outcome(bytes@),
        r is Ok ==> r->Ok_0@.well_formed() && r->Ok_0@.file_size() <= bytes@.len(),
{
    let header = match decode_header(bytes) {
        Ok(h) => h,
        Err(e) => { return Err(Error::Parse(e)); },
    };
    proof {
        if header@.archive_info.len() > 0 {
            lemma_chained_bounds(header@, 0);
        }
    }
    if header.file_size() > bytes.len() as u64 {
        return Err(Error::Parse(ParseError::TruncatedInput));
    }
    match validate(header.metadata(), header.archive_info()) {
        Err(e) => Err(Error::Validation(e)),
        Ok(_) => Ok(header),
    }
}

/// A file that was just created opens, with the header that was planned
/// for it.
pub proof fn lemma_created_file_opens(
    aggregation: AggregationType,
    x_files_factor: u32,
    infos: Seq<ArchiveInfo>,
)
    requires
        plan_outcome(aggregation, x_files_factor, infos) is Ok,
    ensures
        open_outcome(blank_bytes(plan_outcome(aggregation, x_files_factor, infos)->Ok_0))
            == Ok::<HeaderView, Error>(plan_outcome(aggregation, x_files_factor, infos)->Ok_0),
{
    let h = plan_outcome(aggregation, x_files_factor, infos)->Ok_0;
    let zeros = Seq::new(
        (12 * points_before(h.archive_info, h.archive_info.len() as int)) as nat,
        |i: int| 0u8,
    );
    lemma_plan_well_formed(aggregation, x_files_factor, infos);
    lemma_points_before_grows(h.archive_info, 0, h.archive_info.len() as int);
    lemma_header_round_trip(h, zeros);
    lemma_header_bytes_len(h);
    assert(blank_bytes(h) == header_bytes(h) + zeros);
}

} // verus!
