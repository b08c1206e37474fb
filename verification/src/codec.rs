//! The binary codec: the byte layout of a file, and the functions that
//! write a file out and read it back.
//!
//! A file is its metadata (16 bytes), one descriptor of 12 bytes for each
//! archive, and then the points of each archive, 12 bytes each. All words
//! are big-endian.
use crate::errors::ParseError;
use crate::types::AggregationType;
use crate::types::Archive;
use crate::types::ArchiveInfo;
use crate::types::Data;
use crate::types::DatabaseView;
use crate::types::Header;
use crate::types::HeaderView;
use crate::types::MementoDatabase;
use crate::types::Metadata;
use crate::types::Point;
use crate::types::lemma_points_before_grows;
use crate::types::points_before;
use crate::wire::be_u32;
use crate::wire::be_u64;
use crate::wire::lemma_u32_bytes_round_trip;
use crate::wire::lemma_u32_round_trip;
use crate::wire::lemma_u64_bytes_round_trip;
use crate::wire::lemma_u64_round_trip;
use crate::wire::take_u32;
use crate::wire::take_u64;
use crate::wire::u32_be;
use crate::wire::u32_to_bytes;
use crate::wire::u64_be;
use crate::wire::u64_to_bytes;
use vstd::prelude::*;
use vstd::slice::slice_subrange;

verus! {

/// The first `k` of `parts`, one after the other.
pub open spec fn concat_upto(parts: Seq<Seq<u8>>, k: int) -> Seq<u8>
    decreases k,
{
    if k <= 0 {
        Seq::empty()
    } else {
        concat_upto(parts, k - 1) + parts[k - 1]
    }
}

/// The bytes of a metadata block.
pub open spec fn metadata_bytes(m: Metadata) -> Seq<u8> {
    u32_be(m.aggregation.spec_code()) + u32_be(m.max_retention) + u32_be(m.x_files_factor)
        + u32_be(m.archive_count)
}

/// The bytes of an archive descriptor.
pub open spec fn info_bytes(a: ArchiveInfo) -> Seq<u8> {
    u32_be(a.offset) + u32_be(a.seconds_per_point) + u32_be(a.num_points)
}

/// The bytes of a point.
pub open spec fn point_bytes(p: Point) -> Seq<u8> {
    u32_be(p.timestamp) + u64_be(p.value)
}

/// The bytes of each descriptor, as a sequence of parts.
pub open spec fn info_parts(infos: Seq<ArchiveInfo>) -> Seq<Seq<u8>> {
    Seq::new(infos.len(), |i: int| info_bytes(infos[i]))
}

/// The bytes of each point, as a sequence of parts.
pub open spec fn point_parts(points: Seq<Point>) -> Seq<Seq<u8>> {
    Seq::new(points.len(), |i: int| point_bytes(points[i]))
}

/// The bytes of each archive, as a sequence of parts.
pub open spec fn archive_parts(data: Seq<Seq<Point>>) -> Seq<Seq<u8>> {
    Seq::new(data.len(), |i: int| points_bytes(data[i]))
}

/// The bytes of the descriptors, in order.
pub open spec fn infos_bytes(infos: Seq<ArchiveInfo>) -> Seq<u8> {
    concat_upto(info_parts(infos), infos.len() as int)
}

/// The bytes of the points of one archive, in order.
pub open spec fn points_bytes(points: Seq<Point>) -> Seq<u8> {
    concat_upto(point_parts(points), points.len() as int)
}

/// The bytes of all archives, in order.
pub open spec fn data_bytes(data: Seq<Seq<Point>>) -> Seq<u8> {
    concat_upto(archive_parts(data), data.len() as int)
}

/// The bytes of a header.
pub open spec fn header_bytes(h: HeaderView) -> Seq<u8> {
    metadata_bytes(h.metadata) + infos_bytes(h.archive_info)
}

/// The bytes of a file.
pub open spec fn file_bytes(f: DatabaseView) -> Seq<u8> {
    header_bytes(f.header) + data_bytes(f.data)
}

/// The bytes of a file with this header in which nothing was written yet:
/// the header, and a zero for every byte of every archive.
pub open spec fn blank_bytes(h: HeaderView) -> Seq<u8> {
    header_bytes(h) + Seq::new(
        (12 * points_before(h.archive_info, h.archive_info.len() as int)) as nat,
        |i: int| 0u8,
    )
}

/// The 32-bit word that `b` holds at position `at`.
pub open spec fn word_at(b: Seq<u8>, at: int) -> u32 {
    be_u32(b.subrange(at, at + 4))
}

/// The 64-bit word that `b` holds at position `at`.
pub open spec fn long_at(b: Seq<u8>, at: int) -> u64 {
    be_u64(b.subrange(at, at + 8))
}

/// The archive descriptor that `b` holds at position `at`.
pub open spec fn info_at(b: Seq<u8>, at: int) -> ArchiveInfo {
    ArchiveInfo {
        offset: word_at(b, at),
        seconds_per_point: word_at(b, at + 4),
        num_points: word_at(b, at + 8),
    }
}

/// The point that `b` holds at position `at`.
pub open spec fn point_at(b: Seq<u8>, at: int) -> Point {
    Point { timestamp: word_at(b, at), value: long_at(b, at + 4) }
}

/// The `count` descriptors that follow the metadata in `b`.
pub open spec fn infos_at(b: Seq<u8>, count: int) -> Seq<ArchiveInfo> {
    Seq::new(count as nat, |i: int| info_at(b, 16 + 12 * i))
}

/// The `count` points that `b` holds from position `start` on.
pub open spec fn points_at(b: Seq<u8>, start: int, count: int) -> Seq<Point> {
    Seq::new(count as nat, |k: int| point_at(b, start + 12 * k))
}

/// The points of every archive of `h`, read from `b` at the archive's
/// offset.
pub open spec fn data_at(b: Seq<u8>, h: HeaderView) -> Seq<Seq<Point>> {
    Seq::new(
        h.archive_info.len(),
        |i: int| points_at(b, h.archive_info[i].offset as int, h.archive_info[i].num_points as int),
    )
}

/// What decoding the header of `b` gives.
///
/// The fields are read in their order. The buffer is too short where a
/// field is missing; the aggregation code is tested as soon as it is read;
/// the offsets are tested when all descriptors are read.
pub open spec fn parse_header(b: Seq<u8>) -> Result<HeaderView, ParseError> {
    if b.len() < 4 {
        Err(ParseError::TruncatedInput)
    } else {
        match AggregationType::spec_from_code(word_at(b, 0)) {
            None => Err(ParseError::InvalidAggregation(word_at(b, 0))),
            Some(aggregation) => {
                if b.len() < 16 {
                    Err(ParseError::TruncatedInput)
                } else {
                    let metadata = Metadata {
                        aggregation,
                        max_retention: word_at(b, 4),
                        x_files_factor: word_at(b, 8),
                        archive_count: word_at(b, 12),
                    };
                    let h = HeaderView {
                        metadata,
                        archive_info: infos_at(b, metadata.archive_count as int),
                    };
                    if b.len() < h.size() {
                        Err(ParseError::TruncatedInput)
                    } else if !h.chained() {
                        Err(ParseError::InconsistentLayout)
                    } else {
                        Ok(h)
                    }
                }
            },
        }
    }
}

/// What decoding `b` gives: the header, and the points of each archive,
/// provided that the buffer holds them all. Bytes behind the last archive
/// are not looked at.
pub open spec fn parse_file(b: Seq<u8>) -> Result<DatabaseView, ParseError> {
    match parse_header(b) {
        Err(e) => Err(e),
        Ok(h) => {
            if b.len() < h.file_size() {
                Err(ParseError::TruncatedInput)
            } else {
                Ok(DatabaseView { header: h, data: data_at(b, h) })
            }
        },
    }
}

/// A decoded header, or the error, as what it stands for.
pub open spec fn header_outcome(r: Result<Header, ParseError>) -> Result<HeaderView, ParseError> {
    match r {
        Ok(h) => Ok(h@),
        Err(e) => Err(e),
    }
}

/// A decoded file, or the error, as what it stands for.
pub open spec fn file_outcome(r: Result<MementoDatabase, ParseError>) -> Result<
    DatabaseView,
    ParseError,
> {
    match r {
        Ok(db) => Ok(db@),
        Err(e) => Err(e),
    }
}

/// In a chained header every archive ends where the next one starts, or
/// where the file ends, and all of that fits 64 bits.
pub proof fn lemma_chained_bounds(h: HeaderView, i: int)
    requires
        h.chained(),
        0 <= i < h.archive_info.len(),
    ensures
        h.archive_info[i].end() == h.start_of(i + 1),
        h.size() <= h.archive_info[i].offset,
        h.archive_info[i].end() <= h.file_size(),
        h.file_size() <= 14 * 0x1_0000_0000,
{
    let n = h.archive_info.len() as int;
    lemma_points_before_grows(h.archive_info, i + 1, n);
    lemma_points_before_grows(h.archive_info, 0, i);
    lemma_points_before_grows(h.archive_info, n - 1, n);
    assert(h.archive_info[n - 1].offset == h.start_of(n - 1));
    assert(h.archive_info[i].offset == h.start_of(i));
}

/// Appends the big-endian bytes of `n` to `out`.
fn put_word(out: &mut Vec<u8>, n: u32)
    ensures
        final(out)@ == old(out)@ + u32_be(n),
{
    let b = u32_to_bytes(n);
    out.push(b[0]);
    out.push(b[1]);
    out.push(b[2]);
    out.push(b[3]);
    assert(out@ =~= old(out)@ + u32_be(n));
}

/// Appends the big-endian bytes of `n` to `out`.
fn put_long(out: &mut Vec<u8>, n: u64)
    ensures
        final(out)@ == old(out)@ + u64_be(n),
{
    let b = u64_to_bytes(n);
    let mut i: usize = 0;
    while i < 8
        invariant
            i <= 8,
            b@ == u64_be(n),
            out@ == old(out)@ + b@.subrange(0, i as int),
        decreases 8 - i,
    {
        out.push(b[i]);
        i = i + 1;
        assert(out@ =~= old(out)@ + b@.subrange(0, i as int));
    }
    assert(b@.subrange(0, 8) =~= b@);
}

/// Writes a point out: twelve bytes.
pub fn encode_point(out: &mut Vec<u8>, p: &Point)
    ensures
        final(out)@ == old(out)@ + point_bytes(*p),
{
    put_word(out, p.timestamp);
    put_long(out, p.value);
    assert(out@ =~= old(out)@ + point_bytes(*p));
}

/// Writes a header out: the metadata, then each descriptor.
pub fn encode_header(header: &Header) -> (out: Vec<u8>)
    ensures
        out@ == header_bytes(header@),
{
    let m = header.metadata();
    let infos = header.archive_info();
    let mut out: Vec<u8> = Vec::new();
    put_word(&mut out, m.aggregation.code());
    put_word(&mut out, m.max_retention);
    put_word(&mut out, m.x_files_factor);
    put_word(&mut out, m.archive_count);
    assert(out@ =~= metadata_bytes(*m));
    let ghost parts = info_parts(infos@);
    let mut i: usize = 0;
    while i < infos.len()
        invariant
            i <= infos.len(),
            parts == info_parts(infos@),
            out@ == metadata_bytes(*m) + concat_upto(parts, i as int),
        decreases infos.len() - i,
    {
        let ghost before = out@;
        let a = &infos[i];
        put_word(&mut out, a.offset);
        put_word(&mut out, a.seconds_per_point);
        put_word(&mut out, a.num_points);
        i = i + 1;
        assert(out@ =~= before + info_bytes(*a));
        assert(out@ =~= metadata_bytes(*m) + concat_upto(parts, i as int));
    }
    out
}

/// Appends the bytes of `points` to `out`.
fn put_points(out: &mut Vec<u8>, points: &[Point])
    ensures
        final(out)@ == old(out)@ + points_bytes(points@),
{
    let ghost parts = point_parts(points@);
    let mut i: usize = 0;
    assert(out@ =~= old(out)@ + concat_upto(parts, 0));
    while i < points.len()
        invariant
            i <= points.len(),
            parts == point_parts(points@),
            out@ == old(out)@ + concat_upto(parts, i as int),
        decreases points.len() - i,
    {
        encode_point(out, &points[i]);
        i = i + 1;
        assert(out@ =~= old(out)@ + concat_upto(parts, i as int));
    }
}

/// Writes a file out: the header, then the points of each archive.
///
/// The result is as long as the header says the file is, provided that the
/// file is laid out as the format asks.
pub fn encode(db: &MementoDatabase) -> (out: Vec<u8>)
    ensures
        out@ == file_bytes(db@),
        db@.laid_out() ==> out@.len() == db@.header.file_size(),
{
    let mut out = encode_header(db.header());
    let archives = db.data().archives();
    let ghost parts = archive_parts(db@.data);
    let ghost head = out@;
    let mut i: usize = 0;
    assert(out@ =~= head + concat_upto(parts, 0));
    while i < archives.len()
        invariant
            i <= archives.len(),
            archives@.len() == db@.data.len(),
            forall|j: int| 0 <= j < archives@.len() ==> archives@[j]@ == db@.data[j],
            parts == archive_parts(db@.data),
            out@ == head + concat_upto(parts, i as int),
        decreases archives.len() - i,
    {
        put_points(&mut out, archives[i].points());
        i = i + 1;
        assert(out@ =~= head + concat_upto(parts, i as int));
    }
    proof {
        if db@.laid_out() {
            lemma_file_bytes_len(db@);
        }
    }
    out
}

/// Writes out a file with this header in which nothing was written yet.
pub fn blank(header: &Header) -> (out: Vec<u8>)
    requires
        header@.file_size() <= u64::MAX,
    ensures
        out@ == blank_bytes(header@),
{
    let mut out = encode_header(header);
    let ghost head = out@;
    proof {
        lemma_points_before_grows(header@.archive_info, 0, header@.archive_info.len() as int);
    }
    let count: u64 = header.file_size() - header.size();
    let mut i: u64 = 0;
    assert(out@ =~= head + Seq::new(0, |j: int| 0u8));
    while i < count
        invariant
            i <= count,
            out@ == head + Seq::new(i as nat, |j: int| 0u8),
        decreases count - i,
    {
        out.push(0u8);
        i = i + 1;
        assert(out@ =~= head + Seq::new(i as nat, |j: int| 0u8));
    }
    out
}

/// Reads the 32-bit word at `at`, if the buffer holds it.
fn read_word(bytes: &[u8], at: usize) -> (r: Option<u32>)
    ensures
        r == (if at + 4 <= bytes@.len() {
            Some(word_at(bytes@, at as int))
        } else {
            None
        }),
{
    if at > bytes.len() {
        return None;
    }
    let rest = slice_subrange(bytes, at, bytes.len());
    proof {
        if rest@.len() >= 4 {
            assert(rest@.subrange(0, 4) =~= bytes@.subrange(at as int, at + 4));
        }
    }
    take_u32(rest)
}

/// Reads the 64-bit word at `at`, if the buffer holds it.
fn read_long(bytes: &[u8], at: usize) -> (r: Option<u64>)
    ensures
        r == (if at + 8 <= bytes@.len() {
            Some(long_at(bytes@, at as int))
        } else {
            None
        }),
{
    if at > bytes.len() {
        return None;
    }
    let rest = slice_subrange(bytes, at, bytes.len());
    proof {
        if rest@.len() >= 8 {
            assert(rest@.subrange(0, 8) =~= bytes@.subrange(at as int, at + 8));
        }
    }
    take_u64(rest)
}

/// Reads the point at `at`, if the buffer holds its twelve bytes.
pub fn decode_point(bytes: &[u8], at: usize) -> (r: Option<Point>)
    ensures
        r == (if at + 12 <= bytes@.len() {
            Some(point_at(bytes@, at as int))
        } else {
            None
        }),
{
    if at > bytes.len() || bytes.len() - at < 12 {
        return None;
    }
    let timestamp = read_word(bytes, at)?;
    let value = read_long(bytes, at + 4)?;
    Some(Point { timestamp, value })
}

/// Reads the descriptor at `at`, if the buffer holds its twelve bytes.
fn read_info(bytes: &[u8], at: usize) -> (r: Option<ArchiveInfo>)
    ensures
        r == (if at + 12 <= bytes@.len() {
            Some(info_at(bytes@, at as int))
        } else {
            None
        }),
{
    if at > bytes.len() || bytes.len() - at < 12 {
        return None;
    }
    let offset = read_word(bytes, at)?;
    let seconds_per_point = read_word(bytes, at + 4)?;
    let num_points = read_word(bytes, at + 8)?;
    Some(ArchiveInfo { offset, seconds_per_point, num_points })
}

/// Decodes the header at the start of `bytes`.
pub fn decode_header(bytes: &[u8]) -> (r: Result<Header, ParseError>)
    ensures
        header_outcome(r) == parse_header(bytes@),
{
    let raw = match read_word(bytes, 0) {
        Some(v) => v,
        None => { return Err(ParseError::TruncatedInput); },
    };
    let aggregation = match AggregationType::from_code(raw) {
        Some(a) => a,
        None => { return Err(ParseError::InvalidAggregation(raw)); },
    };
    let max_retention = match read_word(bytes, 4) {
        Some(v) => v,
        None => { return Err(ParseError::TruncatedInput); },
    };
    let x_files_factor = match read_word(bytes, 8) {
        Some(v) => v,
        None => { return Err(ParseError::TruncatedInput); },
    };
    let archive_count = match read_word(bytes, 12) {
        Some(v) => v,
        None => { return Err(ParseError::TruncatedInput); },
    };
    let metadata = Metadata { aggregation, max_retention, x_files_factor, archive_count };
    let mut infos: Vec<ArchiveInfo> = Vec::new();
    let mut i: u32 = 0;
    let mut at: usize = 16;
    let len = bytes.len();
    assert(infos@ =~= infos_at(bytes@, 0));
    while i < archive_count
        invariant
            i <= archive_count,
            at == 16 + 12 * i,
            at <= bytes@.len(),
            len == bytes@.len(),
            len >= 16,
            AggregationType::spec_from_code(word_at(bytes@, 0)) == Some(aggregation),
            metadata == (Metadata {
                aggregation,
                max_retention: word_at(bytes@, 4),
                x_files_factor: word_at(bytes@, 8),
                archive_count,
            }),
            archive_count == word_at(bytes@, 12),
            infos@ == infos_at(bytes@, i as int),
        decreases archive_count - i,
    {
        let a = match read_info(bytes, at) {
            Some(a) => a,
            None => { return Err(ParseError::TruncatedInput); },
        };
        infos.push(a);
        at = at + 12;
        i = i + 1;
        assert(infos@ =~= infos_at(bytes@, i as int));
    }
    let header = Header::new(metadata, infos);
    if header.is_chained() {
        Ok(header)
    } else {
        Err(ParseError::InconsistentLayout)
    }
}

/// Reads `count` points from position `start` on.
fn read_points(bytes: &[u8], start: usize, count: u32) -> (points: Vec<Point>)
    requires
        start + 12 * count <= bytes@.len(),
    ensures
        points@ == points_at(bytes@, start as int, count as int),
{
    let mut points: Vec<Point> = Vec::new();
    let mut k: u32 = 0;
    let mut at: usize = start;
    let len = bytes.len();
    assert(points@ =~= points_at(bytes@, start as int, 0));
    while k < count
        invariant
            k <= count,
            at == start + 12 * k,
            start + 12 * count <= bytes@.len(),
            len == bytes@.len(),
            points@ == points_at(bytes@, start as int, k as int),
        decreases count - k,
    {
        let p = decode_point(bytes, at).unwrap();
        points.push(p);
        at = at + 12;
        k = k + 1;
        assert(points@ =~= points_at(bytes@, start as int, k as int));
    }
    points
}

/// Decodes a whole file: the header, then the points of each archive, read
/// at the archive's offset.
///
/// The buffer is turned down as truncated where a field is missing, for an
/// unknown aggregation code, and for offsets that do not follow one
/// another as the format asks.
pub fn decode(bytes: &[u8]) -> (r: Result<MementoDatabase, ParseError>)
    ensures
        file_outcome(r) == parse_file(bytes@),
        r is Ok ==> r->Ok_0@.laid_out(),
{
    let header = match decode_header(bytes) {
        Ok(h) => h,
        Err(e) => { return Err(e); },
    };
    let infos = header.archive_info();
    proof {
        if infos@.len() > 0 {
            lemma_chained_bounds(header@, 0);
        }
    }
    let total = header.file_size();
    if total > bytes.len() as u64 {
        return Err(ParseError::TruncatedInput);
    }
    let mut archives: Vec<Archive> = Vec::new();
    let mut i: usize = 0;
    while i < infos.len()
        invariant
            i <= infos.len(),
            infos@ == header@.archive_info,
            header@.chained(),
            header@.file_size() <= bytes@.len(),
            archives@.len() == i,
            forall|j: int| 0 <= j < i ==> (#[trigger] archives@[j])@ == data_at(bytes@, header@)[j],
        decreases infos.len() - i,
    {
        proof {
            lemma_chained_bounds(header@, i as int);
        }
        let a = &infos[i];
        let points = read_points(bytes, a.offset as usize, a.num_points);
        archives.push(Archive::new(points));
        i = i + 1;
    }
    let data = Data::new(archives);
    assert(data@ =~= data_at(bytes@, header@));
    proof {
        lemma_parsed_laid_out(bytes@);
    }
    Ok(MementoDatabase::new(header, data))
}

/// The first `k` of `parts` together are as long as their lengths add up
/// to.
pub open spec fn len_upto(parts: Seq<Seq<u8>>, k: int) -> int
    decreases k,
{
    if k <= 0 {
        0
    } else {
        len_upto(parts, k - 1) + parts[k - 1].len()
    }
}

proof fn lemma_concat_len(parts: Seq<Seq<u8>>, k: int)
    requires
        0 <= k <= parts.len(),
    ensures
        concat_upto(parts, k).len() == len_upto(parts, k),
    decreases k,
{
    if k > 0 {
        lemma_concat_len(parts, k - 1);
    }
}

/// Part `i` stands in the concatenation behind the parts before it.
proof fn lemma_concat_part(parts: Seq<Seq<u8>>, k: int, i: int)
    requires
        0 <= i < k <= parts.len(),
    ensures
        0 <= len_upto(parts, i),
        len_upto(parts, i) + parts[i].len() <= concat_upto(parts, k).len(),
        concat_upto(parts, k).subrange(len_upto(parts, i), len_upto(parts, i) + parts[i].len())
            == parts[i],
    decreases k,
{
    lemma_concat_len(parts, k - 1);
    lemma_concat_len(parts, i);
    if i == k - 1 {
        assert(concat_upto(parts, k).subrange(
            len_upto(parts, i),
            len_upto(parts, i) + parts[i].len(),
        ) =~= parts[i]);
    } else {
        lemma_concat_part(parts, k - 1, i);
        assert(concat_upto(parts, k).subrange(
            len_upto(parts, i),
            len_upto(parts, i) + parts[i].len(),
        ) =~= concat_upto(parts, k - 1).subrange(
            len_upto(parts, i),
            len_upto(parts, i) + parts[i].len(),
        ));
    }
}

/// Parts of one width `w` add up to `w` for each.
proof fn lemma_len_uniform(parts: Seq<Seq<u8>>, k: int, w: int)
    requires
        0 <= k <= parts.len(),
        forall|j: int| 0 <= j < k ==> (#[trigger] parts[j]).len() == w,
    ensures
        len_upto(parts, k) == w * k,
    decreases k,
{
    if k > 0 {
        lemma_len_uniform(parts, k - 1, w);
        assert(parts[k - 1].len() == w);
        assert(w * (k - 1) + w == w * k) by (nonlinear_arith);
    } else {
        assert(w * 0 == 0);
    }
}

/// The bytes of `count` points are twelve for each, and point `k` stands
/// at twelve times `k`.
proof fn lemma_points_bytes(points: Seq<Point>, k: int)
    requires
        0 <= k < points.len(),
    ensures
        points_bytes(points).len() == 12 * points.len(),
        points_bytes(points).subrange(12 * k, 12 * k + 12) == point_bytes(points[k]),
{
    let parts = point_parts(points);
    let n = points.len() as int;
    lemma_len_uniform(parts, n, 12);
    lemma_len_uniform(parts, k, 12);
    lemma_concat_len(parts, n);
    lemma_concat_part(parts, n, k);
}

proof fn lemma_points_bytes_len(points: Seq<Point>)
    ensures
        points_bytes(points).len() == 12 * points.len(),
{
    let parts = point_parts(points);
    let n = points.len() as int;
    lemma_len_uniform(parts, n, 12);
    lemma_concat_len(parts, n);
}

/// The bytes of the descriptors are twelve for each, and descriptor `i`
/// stands at twelve times `i`.
proof fn lemma_infos_bytes(infos: Seq<ArchiveInfo>, i: int)
    requires
        0 <= i < infos.len(),
    ensures
        infos_bytes(infos).len() == 12 * infos.len(),
        infos_bytes(infos).subrange(12 * i, 12 * i + 12) == info_bytes(infos[i]),
{
    let parts = info_parts(infos);
    let n = infos.len() as int;
    lemma_len_uniform(parts, n, 12);
    lemma_len_uniform(parts, i, 12);
    lemma_concat_len(parts, n);
    lemma_concat_part(parts, n, i);
}

proof fn lemma_infos_bytes_len(infos: Seq<ArchiveInfo>)
    ensures
        infos_bytes(infos).len() == 12 * infos.len(),
{
    let parts = info_parts(infos);
    let n = infos.len() as int;
    lemma_len_uniform(parts, n, 12);
    lemma_concat_len(parts, n);
}

/// The bytes of a header are sixteen and twelve for each descriptor.
pub proof fn lemma_header_bytes_len(h: HeaderView)
    ensures
        header_bytes(h).len() == 16 + 12 * h.archive_info.len(),
{
    lemma_infos_bytes_len(h.archive_info);
    lemma_u32_round_trip(0);
}

/// In a file that is laid out as the format asks the bytes of the first `k` archives are twelve
/// for each point that the descriptors count.
proof fn lemma_data_len(f: DatabaseView, k: int)
    requires
        f.laid_out(),
        0 <= k <= f.data.len(),
    ensures
        len_upto(archive_parts(f.data), k) == 12 * points_before(f.header.archive_info, k),
    decreases k,
{
    if k > 0 {
        lemma_data_len(f, k - 1);
        lemma_points_bytes_len(f.data[k - 1]);
    }
}

/// The bytes of a file that is laid out as the format asks are as many as
/// its header says.
pub proof fn lemma_file_bytes_len(f: DatabaseView)
    requires
        f.laid_out(),
    ensures
        file_bytes(f).len() == f.header.file_size(),
{
    lemma_infos_bytes_len(f.header.archive_info);
    lemma_data_len(f, f.data.len() as int);
    lemma_concat_len(archive_parts(f.data), f.data.len() as int);
}

/// Where the bytes of a point stand, the point is read.
pub proof fn lemma_point_found(b: Seq<u8>, at: int, p: Point)
    requires
        0 <= at,
        at + 12 <= b.len(),
        b.subrange(at, at + 12) == point_bytes(p),
    ensures
        point_at(b, at) == p,
{
    lemma_u32_round_trip(p.timestamp);
    lemma_u64_round_trip(p.value);
    assert(b.subrange(at, at + 4) =~= b.subrange(at, at + 12).subrange(0, 4));
    assert(point_bytes(p).subrange(0, 4) =~= u32_be(p.timestamp));
    assert(b.subrange(at + 4, at + 4 + 8) =~= b.subrange(at, at + 12).subrange(4, 12));
    assert(point_bytes(p).subrange(4, 12) =~= u64_be(p.value));
}

/// Where the bytes of a descriptor stand, the descriptor is read.
pub proof fn lemma_info_found(b: Seq<u8>, at: int, a: ArchiveInfo)
    requires
        0 <= at,
        at + 12 <= b.len(),
        b.subrange(at, at + 12) == info_bytes(a),
    ensures
        info_at(b, at) == a,
{
    lemma_u32_round_trip(a.offset);
    lemma_u32_round_trip(a.seconds_per_point);
    lemma_u32_round_trip(a.num_points);
    assert(b.subrange(at, at + 4) =~= b.subrange(at, at + 12).subrange(0, 4));
    assert(info_bytes(a).subrange(0, 4) =~= u32_be(a.offset));
    assert(b.subrange(at + 4, at + 4 + 4) =~= b.subrange(at, at + 12).subrange(4, 8));
    assert(info_bytes(a).subrange(4, 8) =~= u32_be(a.seconds_per_point));
    assert(b.subrange(at + 8, at + 8 + 4) =~= b.subrange(at, at + 12).subrange(8, 12));
    assert(info_bytes(a).subrange(8, 12) =~= u32_be(a.num_points));
}

/// The header is read back from the bytes of a header, whatever follows
/// them.
pub proof fn lemma_header_round_trip(h: HeaderView, rest: Seq<u8>)
    requires
        h.chained(),
    ensures
        parse_header(header_bytes(h) + rest) == Ok::<HeaderView, ParseError>(h),
{
    let b = header_bytes(h) + rest;
    let m = h.metadata;
    let infos = h.archive_info;
    let n = infos.len() as int;
    let ib = infos_bytes(infos);
    lemma_infos_bytes_len(infos);
    m.aggregation.lemma_code_round_trip();
    lemma_u32_round_trip(m.aggregation.spec_code());
    lemma_u32_round_trip(m.max_retention);
    lemma_u32_round_trip(m.x_files_factor);
    lemma_u32_round_trip(m.archive_count);
    assert(b.subrange(0, 4) =~= u32_be(m.aggregation.spec_code()));
    assert(b.subrange(4, 8) =~= u32_be(m.max_retention));
    assert(b.subrange(8, 12) =~= u32_be(m.x_files_factor));
    assert(b.subrange(12, 16) =~= u32_be(m.archive_count));
    assert forall|i: int| 0 <= i < n implies info_at(b, 16 + 12 * i) == infos[i] by {
        lemma_infos_bytes(infos, i);
        assert(b.subrange(16 + 12 * i, 16 + 12 * i + 12) =~= ib.subrange(12 * i, 12 * i + 12));
        lemma_info_found(b, 16 + 12 * i, infos[i]);
    }
    assert(infos_at(b, n) =~= infos);
}

/// Where the bytes of a run of points stand, the points are read.
pub proof fn lemma_points_found(b: Seq<u8>, start: int, points: Seq<Point>)
    requires
        0 <= start,
        start + 12 * points.len() <= b.len(),
        b.subrange(start, start + 12 * points.len()) == points_bytes(points),
    ensures
        points_at(b, start, points.len() as int) == points,
{
    let pb = points_bytes(points);
    assert forall|k: int| 0 <= k < points.len() implies point_at(b, start + 12 * k)
        == points[k] by {
        lemma_points_bytes(points, k);
        assert(b.subrange(start + 12 * k, start + 12 * k + 12) =~= b.subrange(
            start,
            start + 12 * points.len(),
        ).subrange(12 * k, 12 * k + 12));
        lemma_point_found(b, start + 12 * k, points[k]);
    }
    assert(points_at(b, start, points.len() as int) =~= points);
}

/// In the bytes of such a file the bytes of archive `i` stand at
/// the archive's offset.
proof fn lemma_archive_placed(f: DatabaseView, i: int)
    requires
        f.laid_out(),
        0 <= i < f.data.len(),
    ensures
        f.header.archive_info[i].end() <= file_bytes(f).len(),
        file_bytes(f).subrange(
            f.header.archive_info[i].offset as int,
            f.header.archive_info[i].end(),
        ) == points_bytes(f.data[i]),
{
    let b = file_bytes(f);
    let h = f.header;
    let n = f.data.len() as int;
    let hb = header_bytes(h);
    let db = data_bytes(f.data);
    let parts = archive_parts(f.data);
    lemma_file_bytes_len(f);
    lemma_infos_bytes_len(h.archive_info);
    lemma_u32_round_trip(0);
    lemma_chained_bounds(h, i);
    lemma_data_len(f, i);
    lemma_concat_part(parts, n, i);
    lemma_points_bytes_len(f.data[i]);
    let lo = len_upto(parts, i);
    assert(hb.len() == h.size());
    assert(h.archive_info[i].offset == hb.len() + lo);
    assert(parts[i].len() == 12 * h.archive_info[i].num_points);
    assert(b.subrange(hb.len() + lo, hb.len() + lo + parts[i].len()) =~= db.subrange(
        lo,
        lo + parts[i].len(),
    ));
}

/// Round trip: decoding the bytes of a file that is laid out as the format
/// asks gives the file back. Every file with a valid header and archives
/// of the lengths that the header names is such a file.
pub proof fn lemma_decode_encode(f: DatabaseView)
    requires
        f.laid_out(),
    ensures
        parse_file(file_bytes(f)) == Ok::<DatabaseView, ParseError>(f),
{
    let b = file_bytes(f);
    let h = f.header;
    lemma_header_round_trip(h, data_bytes(f.data));
    lemma_file_bytes_len(f);
    assert forall|i: int| 0 <= i < f.data.len() implies #[trigger] data_at(b, h)[i]
        == f.data[i] by {
        lemma_archive_placed(f, i);
        lemma_points_found(b, h.archive_info[i].offset as int, f.data[i]);
    }
    assert(data_at(b, h) =~= f.data);
}

/// What decodes is laid out as the format asks.
pub proof fn lemma_parsed_laid_out(b: Seq<u8>)
    requires
        parse_file(b) is Ok,
    ensures
        parse_file(b)->Ok_0.laid_out(),
{
    let f = parse_file(b)->Ok_0;
    assert forall|i: int| 0 <= i < f.data.len() implies (#[trigger] f.data[i]).len()
        == f.header.archive_info[i].num_points by {}
}

/// The bytes of the point that is read at a position are the bytes at
/// that position.
pub proof fn lemma_point_bytes_at(b: Seq<u8>, at: int)
    requires
        0 <= at,
        at + 12 <= b.len(),
    ensures
        point_bytes(point_at(b, at)) == b.subrange(at, at + 12),
{
    lemma_u32_bytes_round_trip(b.subrange(at, at + 4));
    lemma_u64_bytes_round_trip(b.subrange(at + 4, at + 4 + 8));
    assert(b.subrange(at, at + 4) + b.subrange(at + 4, at + 4 + 8) =~= b.subrange(at, at + 12));
}

/// The bytes of the descriptor that is read at a position are the bytes
/// at that position.
proof fn lemma_info_bytes_at(b: Seq<u8>, at: int)
    requires
        0 <= at,
        at + 12 <= b.len(),
    ensures
        info_bytes(info_at(b, at)) == b.subrange(at, at + 12),
{
    lemma_u32_bytes_round_trip(b.subrange(at, at + 4));
    lemma_u32_bytes_round_trip(b.subrange(at + 4, at + 4 + 4));
    lemma_u32_bytes_round_trip(b.subrange(at + 8, at + 8 + 4));
    assert(b.subrange(at, at + 4) + b.subrange(at + 4, at + 4 + 4) + b.subrange(
        at + 8,
        at + 8 + 4,
    ) =~= b.subrange(at, at + 12));
}

/// Parts that stand in `b` one behind the other, from `base` on, are
/// together that stretch of `b`.
proof fn lemma_concat_window(parts: Seq<Seq<u8>>, k: int, b: Seq<u8>, base: int)
    requires
        0 <= k <= parts.len(),
        0 <= base <= b.len(),
        forall|i: int|
            0 <= i < k ==> base + len_upto(parts, i) + (#[trigger] parts[i]).len() <= b.len()
                && parts[i] == b.subrange(
                base + len_upto(parts, i),
                base + len_upto(parts, i) + parts[i].len(),
            ),
    ensures
        0 <= len_upto(parts, k),
        base + len_upto(parts, k) <= b.len(),
        concat_upto(parts, k) == b.subrange(base, base + len_upto(parts, k)),
    decreases k,
{
    if k > 0 {
        lemma_concat_window(parts, k - 1, b, base);
        let lo = len_upto(parts, k - 1);
        let part = parts[k - 1];
        assert(base + lo + part.len() <= b.len() && part == b.subrange(
            base + lo,
            base + lo + part.len(),
        ));
        assert(len_upto(parts, k) == lo + part.len());
        assert(concat_upto(parts, k) == concat_upto(parts, k - 1) + part);
        assert(b.subrange(base, base + lo) + b.subrange(base + lo, base + lo + part.len())
            =~= b.subrange(base, base + lo + part.len()));
    } else {
        assert(concat_upto(parts, k) =~= b.subrange(base, base + len_upto(parts, k)));
    }
}

/// The bytes of the points that are read from a stretch of `b` are that
/// stretch.
proof fn lemma_points_bytes_at(b: Seq<u8>, start: int, count: int)
    requires
        0 <= start,
        0 <= count,
        start + 12 * count <= b.len(),
    ensures
        points_bytes(points_at(b, start, count)) == b.subrange(start, start + 12 * count),
{
    let points = points_at(b, start, count);
    let parts = point_parts(points);
    assert forall|i: int| 0 <= i < count implies start + len_upto(parts, i) + (
    #[trigger] parts[i]).len() <= b.len() && parts[i] == b.subrange(
        start + len_upto(parts, i),
        start + len_upto(parts, i) + parts[i].len(),
    ) by {
        lemma_len_uniform_bytes(parts, i);
        lemma_point_bytes_at(b, start + 12 * i);
    }
    lemma_concat_window(parts, count, b, start);
    lemma_len_uniform_bytes(parts, count);
}

/// Parts of twelve bytes each add up to twelve for each.
proof fn lemma_len_uniform_bytes(parts: Seq<Seq<u8>>, k: int)
    requires
        0 <= k <= parts.len(),
        forall|j: int| 0 <= j < parts.len() ==> (#[trigger] parts[j]).len() == 12,
    ensures
        len_upto(parts, k) == 12 * k,
{
    lemma_len_uniform(parts, k, 12);
}

/// The bytes of the word that is read at a position are the bytes at that
/// position.
proof fn lemma_word_bytes_at(b: Seq<u8>, at: int)
    requires
        0 <= at,
        at + 4 <= b.len(),
    ensures
        u32_be(word_at(b, at)) == b.subrange(at, at + 4),
{
    lemma_u32_bytes_round_trip(b.subrange(at, at + 4));
}

/// The bytes of the metadata whose fields are read from `b` are the first
/// sixteen bytes of `b`.
proof fn lemma_metadata_window(b: Seq<u8>, m: Metadata)
    requires
        16 <= b.len(),
        m.aggregation.spec_code() == word_at(b, 0),
        m.max_retention == word_at(b, 4),
        m.x_files_factor == word_at(b, 8),
        m.archive_count == word_at(b, 12),
    ensures
        metadata_bytes(m) == b.subrange(0, 16),
{
    lemma_word_bytes_at(b, 0);
    lemma_word_bytes_at(b, 4);
    lemma_word_bytes_at(b, 8);
    lemma_word_bytes_at(b, 12);
    assert(b.subrange(0, 4) + b.subrange(4, 8) + b.subrange(8, 12) + b.subrange(12, 16)
        =~= b.subrange(0, 16));
}

/// The bytes of the descriptors that are read from `b` are the bytes of
/// `b` behind the metadata.
proof fn lemma_infos_window(b: Seq<u8>, count: int)
    requires
        0 <= count,
        16 + 12 * count <= b.len(),
    ensures
        infos_bytes(infos_at(b, count)) == b.subrange(16, 16 + 12 * count),
{
    let infos = infos_at(b, count);
    let parts = info_parts(infos);
    assert forall|i: int| 0 <= i < count implies (#[trigger] parts[i]).len() == 12 && parts[i]
        == b.subrange(16 + 12 * i, 16 + 12 * i + 12) by {
        lemma_info_bytes_at(b, 16 + 12 * i);
    }
    assert forall|i: int| 0 <= i < count implies 16 + len_upto(parts, i) + (
    #[trigger] parts[i]).len() <= b.len() && parts[i] == b.subrange(
        16 + len_upto(parts, i),
        16 + len_upto(parts, i) + parts[i].len(),
    ) by {
        lemma_len_uniform(parts, i, 12);
    }
    lemma_concat_window(parts, count, b, 16);
    lemma_len_uniform(parts, count, 12);
}

/// The bytes of a header whose fields are read from `b` are the first
/// bytes of `b`.
proof fn lemma_header_window(b: Seq<u8>, h: HeaderView)
    requires
        h.size() <= b.len(),
        h.metadata.aggregation.spec_code() == word_at(b, 0),
        h.metadata.max_retention == word_at(b, 4),
        h.metadata.x_files_factor == word_at(b, 8),
        h.metadata.archive_count == word_at(b, 12),
        h.archive_info == infos_at(b, h.metadata.archive_count as int),
    ensures
        header_bytes(h) == b.subrange(0, h.size()),
{
    lemma_metadata_window(b, h.metadata);
    lemma_infos_window(b, h.metadata.archive_count as int);
    assert(b.subrange(0, 16) + b.subrange(16, 16 + 12 * h.metadata.archive_count) =~= b.subrange(
        0,
        h.size(),
    ));
}

/// The bytes of the header that is decoded from `b` are the first bytes
/// of `b`.
proof fn lemma_header_bytes_at(b: Seq<u8>)
    requires
        parse_header(b) is Ok,
    ensures
        parse_header(b)->Ok_0.size() <= b.len(),
        header_bytes(parse_header(b)->Ok_0) == b.subrange(0, parse_header(b)->Ok_0.size()),
{
    lemma_header_window(b, parse_header(b)->Ok_0);
}

/// The bytes of the archives that are decoded from `b` are the bytes of
/// `b` behind the header.
proof fn lemma_data_bytes_at(b: Seq<u8>)
    requires
        parse_file(b) is Ok,
    ensures
        parse_file(b)->Ok_0.header.file_size() <= b.len(),
        data_bytes(parse_file(b)->Ok_0.data) == b.subrange(
            parse_file(b)->Ok_0.header.size(),
            parse_file(b)->Ok_0.header.file_size(),
        ),
{
    let f = parse_file(b)->Ok_0;
    let h = f.header;
    let infos = h.archive_info;
    let n = infos.len() as int;
    lemma_parsed_laid_out(b);
    let parts = archive_parts(f.data);
    assert forall|i: int| 0 <= i < n implies h.size() + len_upto(parts, i) + (
    #[trigger] parts[i]).len() <= b.len() && parts[i] == b.subrange(
        h.size() + len_upto(parts, i),
        h.size() + len_upto(parts, i) + parts[i].len(),
    ) by {
        lemma_chained_bounds(h, i);
        lemma_data_len(f, i);
        assert(infos[i].offset == h.start_of(i));
        lemma_points_bytes_at(b, infos[i].offset as int, infos[i].num_points as int);
    }
    lemma_concat_window(parts, n, b, h.size());
    lemma_data_len(f, n);
}

/// The bytes of what was decoded are the bytes that it was decoded from,
/// up to the end of the last archive.
pub proof fn lemma_encode_decode(b: Seq<u8>)
    requires
        parse_file(b) is Ok,
    ensures
        parse_file(b)->Ok_0.header.file_size() <= b.len(),
        file_bytes(parse_file(b)->Ok_0) == b.subrange(
            0,
            parse_file(b)->Ok_0.header.file_size(),
        ),
{
    let f = parse_file(b)->Ok_0;
    let h = f.header;
    lemma_header_bytes_at(b);
    lemma_data_bytes_at(b);
    lemma_points_before_grows(h.archive_info, 0, h.archive_info.len() as int);
    assert(b.subrange(0, h.size()) + b.subrange(h.size(), h.file_size()) =~= b.subrange(
        0,
        h.file_size(),
    ));
}

} // verus!
