//! The structures that make up a file: metadata, archive descriptors and
//! points, with the sizes and offsets that follow from them.
use vstd::prelude::*;

verus! {

/// How the points of a finer archive are combined into one point of the
/// next coarser archive.
#[derive(Debug, Clone, Copy, PartialEq, Eq, Hash)]
pub enum AggregationType {
    Average,
    Sum,
    Last,
    Max,
    Min,
    AvgZero,
    AbsMax,
    AbsMin,
}

impl Default for AggregationType {
    fn default() -> (r: AggregationType)
        ensures
            r == AggregationType::Average,
    {
        AggregationType::Average
    }
}

impl AggregationType {
    /// The number that stands for this method in a file.
    pub open spec fn spec_code(self) -> u32 {
        match self {
            AggregationType::Average => 1,
            AggregationType::Sum => 2,
            AggregationType::Last => 3,
            AggregationType::Max => 4,
            AggregationType::Min => 5,
            AggregationType::AvgZero => 6,
            AggregationType::AbsMax => 7,
            AggregationType::AbsMin => 8,
        }
    }

    /// The method that `code` stands for, if it stands for one.
    pub open spec fn spec_from_code(code: u32) -> Option<AggregationType> {
        if code == 1 {
            Some(AggregationType::Average)
        } else if code == 2 {
            Some(AggregationType::Sum)
        } else if code == 3 {
            Some(AggregationType::Last)
        } else if code == 4 {
            Some(AggregationType::Max)
        } else if code == 5 {
            Some(AggregationType::Min)
        } else if code == 6 {
            Some(AggregationType::AvgZero)
        } else if code == 7 {
            Some(AggregationType::AbsMax)
        } else if code == 8 {
            Some(AggregationType::AbsMin)
        } else {
            None
        }
    }

    /// The number that stands for this method in a file.
    pub fn code(self) -> (c: u32)
        ensures
            c == self.spec_code(),
            1 <= c <= 8,
    {
        match self {
            AggregationType::Average => 1,
            AggregationType::Sum => 2,
            AggregationType::Last => 3,
            AggregationType::Max => 4,
            AggregationType::Min => 5,
            AggregationType::AvgZero => 6,
            AggregationType::AbsMax => 7,
            AggregationType::AbsMin => 8,
        }
    }

    /// The method that `code` stands for; `None` for any number outside
    /// one to eight.
    pub fn from_code(code: u32) -> (r: Option<AggregationType>)
        ensures
            r == Self::spec_from_code(code),
            r is Some <==> 1 <= code <= 8,
            r is Some ==> r->0.spec_code() == code,
    {
        if code == 1 {
            Some(AggregationType::Average)
        } else if code == 2 {
            Some(AggregationType::Sum)
        } else if code == 3 {
            Some(AggregationType::Last)
        } else if code == 4 {
            Some(AggregationType::Max)
        } else if code == 5 {
            Some(AggregationType::Min)
        } else if code == 6 {
            Some(AggregationType::AvgZero)
        } else if code == 7 {
            Some(AggregationType::AbsMax)
        } else if code == 8 {
            Some(AggregationType::AbsMin)
        } else {
            None
        }
    }

    /// A method's code stands for that method and no other.
    pub proof fn lemma_code_round_trip(self)
        ensures
            Self::spec_from_code(self.spec_code()) == Some(self),
            1 <= self.spec_code() <= 8,
    {
    }
}

/// The bit pattern of the single-precision number one.
pub const XFF_ONE: u32 = 0x3F80_0000;

/// The bit pattern of the single-precision number minus zero.
pub const XFF_MINUS_ZERO: u32 = 0x8000_0000;

/// Whether `bits`, read as an IEEE-754 single-precision number, is a
/// number from zero to one.
///
/// The patterns of the non-negative numbers are ordered as the numbers
/// are, so these are the patterns up to that of one, and minus zero, which
/// equals zero. No pattern of a NaN is among them.
pub open spec fn unit_fraction(bits: u32) -> bool {
    bits <= XFF_ONE || bits == XFF_MINUS_ZERO
}

/// The fixed part of a header.
///
/// `x_files_factor` is held as the bit pattern of the single-precision
/// number that the file stores.
#[derive(Debug, Clone, Copy, Default, PartialEq)]
pub struct Metadata {
    pub aggregation: AggregationType,
    pub max_retention: u32,
    pub x_files_factor: u32,
    pub archive_count: u32,
}

impl Metadata {
    pub fn new(
        aggregation: AggregationType,
        max_retention: u32,
        x_files_factor: u32,
        archive_count: u32,
    ) -> (m: Metadata)
        ensures
            m == (Metadata { aggregation, max_retention, x_files_factor, archive_count }),
    {
        Metadata { aggregation, max_retention, x_files_factor, archive_count }
    }

    /// The bytes that a metadata block takes in a file.
    #[inline]
    pub fn storage() -> (n: u64)
        ensures
            n == 16,
    {
        16
    }

    #[inline]
    pub fn aggregation(&self) -> (a: AggregationType)
        ensures
            a == self.aggregation,
    {
        self.aggregation
    }

    #[inline]
    pub fn max_retention(&self) -> (r: u32)
        ensures
            r == self.max_retention,
    {
        self.max_retention
    }

    /// The bit pattern of the x-files factor.
    #[inline]
    pub fn x_files_factor(&self) -> (bits: u32)
        ensures
            bits == self.x_files_factor,
    {
        self.x_files_factor
    }

    #[inline]
    pub fn archive_count(&self) -> (n: u32)
        ensures
            n == self.archive_count,
    {
        self.archive_count
    }

    /// The bytes that the archive descriptors take in a file.
    #[inline]
    pub fn archive_info_size(&self) -> (n: u64)
        ensures
            n == 12 * self.archive_count,
    {
        self.archive_count as u64 * ArchiveInfo::storage()
    }
}

/// The descriptor of one archive: where its points start, how many seconds
/// one point covers, and how many points it holds.
#[derive(Debug, Clone, Copy, Default, PartialEq)]
pub struct ArchiveInfo {
    pub offset: u32,
    pub seconds_per_point: u32,
    pub num_points: u32,
}

impl ArchiveInfo {
    pub fn new(offset: u32, seconds_per_point: u32, num_points: u32) -> (a: ArchiveInfo)
        ensures
            a == (ArchiveInfo { offset, seconds_per_point, num_points }),
    {
        ArchiveInfo { offset, seconds_per_point, num_points }
    }

    /// The time span that the archive holds, in seconds.
    pub open spec fn spec_retention(self) -> int {
        self.num_points * self.seconds_per_point
    }

    /// The bytes that the archive's points take in a file.
    pub open spec fn spec_archive_size(self) -> int {
        12 * self.num_points
    }

    /// Where the archive's points end in a file.
    pub open spec fn end(self) -> int {
        self.offset + 12 * self.num_points
    }

    /// The bytes that a descriptor takes in a file.
    #[inline]
    pub fn storage() -> (n: u64)
        ensures
            n == 12,
    {
        12
    }

    /// The bytes that the archive's points take in a file.
    #[inline]
    pub fn archive_size(&self) -> (n: u64)
        ensures
            n == self.spec_archive_size(),
    {
        Point::storage() * self.num_points as u64
    }

    #[inline]
    pub fn offset(&self) -> (r: u32)
        ensures
            r == self.offset,
    {
        self.offset
    }

    #[inline]
    pub fn seconds_per_point(&self) -> (r: u32)
        ensures
            r == self.seconds_per_point,
    {
        self.seconds_per_point
    }

    #[inline]
    pub fn num_points(&self) -> (r: u32)
        ensures
            r == self.num_points,
    {
        self.num_points
    }

    /// The time span that the archive holds, in seconds. The product of
    /// two 32-bit numbers always fits the result.
    #[inline]
    pub fn retention(&self) -> (r: u64)
        ensures
            r == self.spec_retention(),
    {
        assert(self.num_points * self.seconds_per_point <= 0xFFFF_FFFF * 0xFFFF_FFFF)
            by (nonlinear_arith)
            requires
                self.num_points <= 0xFFFF_FFFF,
                self.seconds_per_point <= 0xFFFF_FFFF,
        ;
        self.num_points as u64 * self.seconds_per_point as u64
    }
}

/// One sample: a time in seconds since the epoch and a value, held as the
/// bit pattern of the double-precision number that the file stores.
#[derive(Debug, Clone, Copy, Default, PartialEq)]
pub struct Point {
    pub timestamp: u32,
    pub value: u64,
}

impl Point {
    pub fn new(timestamp: u32, value: u64) -> (p: Point)
        ensures
            p == (Point { timestamp, value }),
    {
        Point { timestamp, value }
    }

    /// The bytes that a point takes in a file.
    #[inline]
    pub fn storage() -> (n: u64)
        ensures
            n == 12,
    {
        12
    }

    #[inline]
    pub fn timestamp(&self) -> (t: u32)
        ensures
            t == self.timestamp,
    {
        self.timestamp
    }

    /// The bit pattern of the value.
    #[inline]
    pub fn value(&self) -> (bits: u64)
        ensures
            bits == self.value,
    {
        self.value
    }
}

/// The number of points in the first `i` archives.
pub open spec fn points_before(infos: Seq<ArchiveInfo>, i: int) -> int
    decreases i,
{
    if i <= 0 {
        0
    } else {
        points_before(infos, i - 1) + infos[i - 1].num_points
    }
}

/// What a header is: its metadata and its archive descriptors, in order.
pub struct HeaderView {
    pub metadata: Metadata,
    pub archive_info: Seq<ArchiveInfo>,
}

impl HeaderView {
    /// The bytes that the header takes in a file.
    pub open spec fn size(self) -> int {
        16 + 12 * self.metadata.archive_count
    }

    /// The bytes that the whole file takes.
    pub open spec fn file_size(self) -> int {
        self.size() + 12 * points_before(self.archive_info, self.archive_info.len() as int)
    }

    /// Where archive `i` starts when the archives follow the header without
    /// gaps.
    pub open spec fn start_of(self, i: int) -> int {
        self.size() + 12 * points_before(self.archive_info, i)
    }

    /// Whether there are as many descriptors as the metadata counts, and
    /// each archive starts where the one before it ends, the first one
    /// right after the header.
    pub open spec fn chained(self) -> bool {
        &&& self.metadata.archive_count == self.archive_info.len()
        &&& forall|i: int|
            0 <= i < self.archive_info.len() ==> self.archive_info[i].offset == #[trigger] self.start_of(
                i,
            )
    }
}

/// Whether the archive behind archive `i` is coarser than it: its step is
/// larger and a multiple, and its retention is larger.
pub open spec fn coarser_next(infos: Seq<ArchiveInfo>, i: int) -> bool {
    &&& infos[i].seconds_per_point < infos[i + 1].seconds_per_point
    &&& infos[i + 1].seconds_per_point % infos[i].seconds_per_point == 0
    &&& infos[i].spec_retention() < infos[i + 1].spec_retention()
}

/// Whether the archives run from the finest to the coarsest: every step is
/// positive, larger than the step before it and a multiple of it, and
/// every retention is positive and larger than the retention before it.
pub open spec fn well_ordered(infos: Seq<ArchiveInfo>) -> bool {
    &&& infos.len() > 0
    &&& infos[0].seconds_per_point > 0
    &&& infos[0].spec_retention() > 0
    &&& forall|i: int| 0 <= i < infos.len() - 1 ==> #[trigger] coarser_next(infos, i)
}

impl HeaderView {
    /// Whether the header describes a file that can be written to and read
    /// from: the archives are well ordered, the x-files factor is a number
    /// from zero to one, and the metadata counts the archives and names
    /// the retention of the last one.
    pub open spec fn valid(self) -> bool {
        &&& well_ordered(self.archive_info)
        &&& unit_fraction(self.metadata.x_files_factor)
        &&& self.metadata.archive_count == self.archive_info.len()
        &&& self.metadata.max_retention == self.archive_info.last().spec_retention()
    }

    /// Whether the header is valid and its archives follow one another
    /// behind it.
    pub open spec fn well_formed(self) -> bool {
        self.valid() && self.chained()
    }
}

/// The header of a file.
#[derive(Debug, Clone, Default, PartialEq)]
pub struct Header {
    metadata: Metadata,
    archive_info: Vec<ArchiveInfo>,
}

impl View for Header {
    type V = HeaderView;

    closed spec fn view(&self) -> HeaderView {
        HeaderView { metadata: self.metadata, archive_info: self.archive_info@ }
    }
}

impl Header {
    pub fn new(metadata: Metadata, archive_info: Vec<ArchiveInfo>) -> (h: Header)
        ensures
            h@ == (HeaderView { metadata, archive_info: archive_info@ }),
    {
        Header { metadata, archive_info }
    }

    #[inline]
    pub fn metadata(&self) -> (m: &Metadata)
        ensures
            *m == self@.metadata,
    {
        &self.metadata
    }

    #[inline]
    pub fn archive_info(&self) -> (infos: &[ArchiveInfo])
        ensures
            infos@ == self@.archive_info,
    {
        self.archive_info.as_slice()
    }

    /// The bytes that the header takes in a file.
    #[inline]
    pub fn size(&self) -> (n: u64)
        ensures
            n == self@.size(),
    {
        Metadata::storage() + (ArchiveInfo::storage() * self.metadata.archive_count() as u64)
    }

    /// Whether there are as many descriptors as the metadata counts, and
    /// each archive starts where the one before it ends, the first one
    /// right after the header.
    pub fn is_chained(&self) -> (ok: bool)
        ensures
            ok == self@.chained(),
    {
        if self.archive_info.len() as u64 != self.metadata.archive_count as u64 {
            return false;
        }
        let mut expected: u64 = self.size();
        let mut i: usize = 0;
        while i < self.archive_info.len()
            invariant
                i <= self.archive_info.len(),
                self.archive_info@.len() == self.metadata.archive_count,
                expected == self@.start_of(i as int),
                expected <= 14 * 0x1_0000_0000,
                forall|j: int|
                    0 <= j < i ==> self@.archive_info[j].offset == #[trigger] self@.start_of(j),
            decreases self.archive_info.len() - i,
        {
            if self.archive_info[i].offset as u64 != expected {
                return false;
            }
            expected = expected + self.archive_info[i].archive_size();
            i = i + 1;
        }
        true
    }

    /// The bytes that the whole file takes.
    pub fn file_size(&self) -> (n: u64)
        requires
            self@.file_size() <= u64::MAX,
        ensures
            n == self@.file_size(),
    {
        let mut total: u64 = self.size();
        let mut i: usize = 0;
        proof {
            lemma_points_before_grows(self@.archive_info, 0, self@.archive_info.len() as int);
        }
        while i < self.archive_info.len()
            invariant
                i <= self.archive_info.len(),
                total == self@.start_of(i as int),
                self@.file_size() <= u64::MAX,
            decreases self.archive_info.len() - i,
        {
            proof {
                lemma_points_before_grows(
                    self@.archive_info,
                    i + 1,
                    self@.archive_info.len() as int,
                );
            }
            total = total + self.archive_info[i].archive_size();
            i = i + 1;
        }
        total
    }
}

/// The number of points in the leading archives never shrinks as more
/// archives are counted.
pub proof fn lemma_points_before_grows(infos: Seq<ArchiveInfo>, i: int, j: int)
    requires
        i <= j,
    ensures
        0 <= points_before(infos, i) <= points_before(infos, j),
    decreases j - i, j,
{
    if i < j {
        lemma_points_before_grows(infos, i, j - 1);
    } else if i > 0 {
        lemma_points_before_grows(infos, i - 1, j - 1);
    }
}

/// One archive: its points, slot by slot.
#[derive(Debug, Clone, Default, PartialEq)]
pub struct Archive {
    points: Vec<Point>,
}

impl View for Archive {
    type V = Seq<Point>;

    closed spec fn view(&self) -> Seq<Point> {
        self.points@
    }
}

impl Archive {
    pub fn new(points: Vec<Point>) -> (a: Archive)
        ensures
            a@ == points@,
    {
        Archive { points }
    }

    #[inline]
    pub fn points(&self) -> (points: &[Point])
        ensures
            points@ == self@,
    {
        self.points.as_slice()
    }
}

/// The archives of a file, finest first.
#[derive(Debug, Clone, Default, PartialEq)]
pub struct Data {
    archives: Vec<Archive>,
}

impl View for Data {
    type V = Seq<Seq<Point>>;

    closed spec fn view(&self) -> Seq<Seq<Point>> {
        Seq::new(self.archives@.len(), |i: int| self.archives@[i]@)
    }
}

impl Data {
    pub fn new(archives: Vec<Archive>) -> (d: Data)
        ensures
            d@.len() == archives@.len(),
            forall|i: int| 0 <= i < archives@.len() ==> d@[i] == archives@[i]@,
    {
        Data { archives }
    }

    #[inline]
    pub fn archives(&self) -> (archives: &[Archive])
        ensures
            archives@.len() == self@.len(),
            forall|i: int| 0 <= i < archives@.len() ==> archives@[i]@ == self@[i],
    {
        self.archives.as_slice()
    }
}

/// What a file is: its header and the points of each archive.
pub struct DatabaseView {
    pub header: HeaderView,
    pub data: Seq<Seq<Point>>,
}

impl DatabaseView {
    /// Whether the file is laid out as the format asks: one archive of
    /// points for each descriptor, as long as the descriptor says, and the
    /// archives one after the other behind the header.
    pub open spec fn laid_out(self) -> bool {
        &&& self.header.chained()
        &&& self.data.len() == self.header.archive_info.len()
        &&& forall|i: int|
            0 <= i < self.data.len() ==> (#[trigger] self.data[i]).len()
                == self.header.archive_info[i].num_points
    }
}

/// A whole file in memory.
#[derive(Debug, Clone, Default, PartialEq)]
pub struct MementoDatabase {
    header: Header,
    data: Data,
}

impl View for MementoDatabase {
    type V = DatabaseView;

    closed spec fn view(&self) -> DatabaseView {
        DatabaseView { header: self.header@, data: self.data@ }
    }
}

impl MementoDatabase {
    pub fn new(header: Header, data: Data) -> (db: MementoDatabase)
        ensures
            db@ == (DatabaseView { header: header@, data: data@ }),
    {
        MementoDatabase { header, data }
    }

    #[inline]
    pub fn header(&self) -> (h: &Header)
        ensures
            h@ == self@.header,
    {
        &self.header
    }

    #[inline]
    pub fn data(&self) -> (d: &Data)
        ensures
            d@ == self@.data,
    {
        &self.data
    }
}

} // verus!
