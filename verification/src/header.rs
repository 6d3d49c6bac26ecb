//! The header of a file: its preamble and the table of archive descriptors.

use crate::archive::{region_slots, Archive, ArchiveView};
use crate::codec::{be_u32, lemma_u32_bytes_round_trip, lemma_u32_round_trip};
use crate::codec::{read_u32, u32_be, write_u32};
use crate::errors::HeaderError;
use crate::factor::{valid_factor, FACTOR_HALF, FACTOR_ONE};
use crate::schema::{archive_offset, lemma_regions_size_monotone, retention, size_on_disk};
use crate::schema::{valid_policy, valid_schema, RetentionPolicy, Schema};
use vstd::pervasive::unreached;
use vstd::prelude::*;
use vstd::slice::{slice_subrange, slice_to_vec};

verus! {

/// How the points of a finer archive are reduced to one point of a coarser one.
#[derive(Clone, Copy, Debug, PartialEq, Eq, Structural)]
pub enum AggregationType {
    Average,
    Sum,
    Last,
    Max,
    Min,
    Unknown,
}

/// The number that stands for an aggregation method in the file.
pub open spec fn aggregation_id(a: AggregationType) -> u32 {
    match a {
        AggregationType::Unknown => 0,
        AggregationType::Average => 1,
        AggregationType::Sum => 2,
        AggregationType::Last => 3,
        AggregationType::Max => 4,
        AggregationType::Min => 5,
    }
}

/// The aggregation method that `id` stands for, if there is one.
pub open spec fn aggregation_of(id: u32) -> Option<AggregationType> {
    if id == 0 {
        Some(AggregationType::Unknown)
    } else if id == 1 {
        Some(AggregationType::Average)
    } else if id == 2 {
        Some(AggregationType::Sum)
    } else if id == 3 {
        Some(AggregationType::Last)
    } else if id == 4 {
        Some(AggregationType::Max)
    } else if id == 5 {
        Some(AggregationType::Min)
    } else {
        None
    }
}

impl AggregationType {
    /// The number that stands for this method in the file.
    pub fn to_u32(&self) -> (id: u32)
        ensures
            id == aggregation_id(*self),
    {
        match self {
            AggregationType::Unknown => 0,
            AggregationType::Average => 1,
            AggregationType::Sum => 2,
            AggregationType::Last => 3,
            AggregationType::Max => 4,
            AggregationType::Min => 5,
        }
    }

    /// The method that `id` stands for; `None` for a number that stands for none.
    pub fn from_u32(id: u32) -> (a: Option<AggregationType>)
        ensures
            a == aggregation_of(id),
    {
        match id {
            0 => Some(AggregationType::Unknown),
            1 => Some(AggregationType::Average),
            2 => Some(AggregationType::Sum),
            3 => Some(AggregationType::Last),
            4 => Some(AggregationType::Max),
            5 => Some(AggregationType::Min),
            _ => None,
        }
    }
}

/// One archive as the header describes it.
#[derive(Clone, Copy, Debug, PartialEq, Eq, Structural)]
pub struct ArchiveInfo {
    /// Where the archive begins, in bytes from the start of the file.
    pub offset: u32,
    /// Seconds per point.
    pub precision: u32,
    /// How many points it holds.
    pub points: u32,
}

/// What a header says.
pub struct HeaderView {
    pub aggregation_type: AggregationType,
    /// Seconds that the coarsest archive covers.
    pub max_retention: u32,
    /// The aggregation threshold, as the bits of an IEEE-754 single.
    pub x_files_factor: u32,
    pub archive_infos: Seq<ArchiveInfo>,
}

/// The shape of a described archive.
pub open spec fn policy_of(a: ArchiveInfo) -> RetentionPolicy {
    RetentionPolicy { precision: a.precision, points: a.points }
}

/// The schema that a table of descriptors amounts to.
pub open spec fn policies_of(infos: Seq<ArchiveInfo>) -> Seq<RetentionPolicy> {
    Seq::new(infos.len(), |i: int| policy_of(infos[i]))
}

/// The descriptors of the archives of `s`, each at its place in the layout.
pub open spec fn infos_of(s: Seq<RetentionPolicy>) -> Seq<ArchiveInfo> {
    Seq::new(
        s.len(),
        |i: int|
            ArchiveInfo {
                offset: archive_offset(s, i) as u32,
                precision: s[i].precision,
                points: s[i].points,
            },
    )
}

/// A header that a file can have: a factor between zero and one, archives that
/// form a schema and lie where the layout of that schema puts them, and the
/// retention of the coarsest archive as the maximum.
pub open spec fn valid_header(h: HeaderView) -> bool {
    &&& valid_factor(h.x_files_factor)
    &&& valid_schema(policies_of(h.archive_infos))
    &&& h.archive_infos == infos_of(policies_of(h.archive_infos))
    &&& h.max_retention == retention(policies_of(h.archive_infos).last())
}

/// The header of a file newly laid out for `s`: no aggregation method yet, and a
/// factor of one half.
pub open spec fn header_of(s: Seq<RetentionPolicy>) -> HeaderView {
    HeaderView {
        aggregation_type: AggregationType::Unknown,
        max_retention: retention(s.last()) as u32,
        x_files_factor: FACTOR_HALF,
        archive_infos: infos_of(s),
    }
}

/// The twelve bytes of one descriptor.
pub open spec fn info_bytes(a: ArchiveInfo) -> Seq<u8> {
    u32_be(a.offset) + u32_be(a.precision) + u32_be(a.points)
}

/// The descriptor that begins at byte `at` of `b`.
pub open spec fn info_at(b: Seq<u8>, at: int) -> ArchiveInfo {
    ArchiveInfo {
        offset: be_u32(b.subrange(at, at + 4)),
        precision: be_u32(b.subrange(at + 4, at + 8)),
        points: be_u32(b.subrange(at + 8, at + 12)),
    }
}

/// The bytes of a table of descriptors.
pub open spec fn table_bytes(infos: Seq<ArchiveInfo>) -> Seq<u8> {
    Seq::new(12 * infos.len(), |k: int| info_bytes(infos[k / 12])[k % 12])
}

/// The first `n` descriptors of the table in `b`.
pub open spec fn table_at(b: Seq<u8>, n: int) -> Seq<ArchiveInfo> {
    Seq::new(n as nat, |i: int| info_at(b, 16 + 12 * i))
}

/// The bytes of a header: the preamble of four numbers, then the table.
pub open spec fn header_bytes(h: HeaderView) -> Seq<u8> {
    u32_be(aggregation_id(h.aggregation_type)) + u32_be(h.max_retention) + u32_be(
        h.x_files_factor,
    ) + u32_be(h.archive_infos.len() as u32) + table_bytes(h.archive_infos)
}

/// What the front of `b` says when read as a header, before any judgement on it.
pub open spec fn header_at(b: Seq<u8>) -> HeaderView {
    HeaderView {
        aggregation_type: match aggregation_of(be_u32(b.subrange(0, 4))) {
            Some(a) => a,
            None => AggregationType::Unknown,
        },
        max_retention: be_u32(b.subrange(4, 8)),
        x_files_factor: be_u32(b.subrange(8, 12)),
        archive_infos: table_at(b, be_u32(b.subrange(12, 16)) as int),
    }
}

/// The header at the front of `b`, or why there is none.
pub open spec fn parse_header(b: Seq<u8>) -> Result<HeaderView, HeaderError> {
    if b.len() < 16 || b.len() < 16 + 12 * be_u32(b.subrange(12, 16)) {
        Err(HeaderError::Truncated)
    } else if aggregation_of(be_u32(b.subrange(0, 4))) is None || !valid_header(header_at(b)) {
        Err(HeaderError::Malformed)
    } else {
        Ok(header_at(b))
    }
}

/// The archive that `info` describes, with the slots that `b` holds for it.
pub open spec fn archive_at(b: Seq<u8>, info: ArchiveInfo) -> ArchiveView {
    ArchiveView {
        offset: info.offset,
        precision: info.precision,
        points: info.points,
        slots: region_slots(b.subrange(info.offset as int, info.offset + 12 * info.points)),
    }
}

/// The header made for a schema is one that a file can have.
pub proof fn lemma_header_of_valid(s: Seq<RetentionPolicy>)
    requires
        valid_schema(s),
    ensures
        valid_header(header_of(s)),
        policies_of(infos_of(s)) == s,
{
    assert(policies_of(infos_of(s)) =~= s);
    assert(valid_policy(s[s.len() - 1]));
}

/// In a valid header every archive lies behind the table and within the file.
pub proof fn lemma_header_layout(h: HeaderView, i: int)
    requires
        valid_header(h),
        0 <= i < h.archive_infos.len(),
    ensures
        valid_policy(policy_of(h.archive_infos[i])),
        16 + 12 * h.archive_infos.len() <= h.archive_infos[i].offset,
        h.archive_infos[i].offset == archive_offset(policies_of(h.archive_infos), i),
        h.archive_infos[i].offset + 12 * h.archive_infos[i].points <= size_on_disk(
            policies_of(h.archive_infos),
        ) <= u32::MAX,
{
    let s = policies_of(h.archive_infos);
    assert(valid_policy(s[i]));
    lemma_regions_size_monotone(s, 0, i);
    lemma_regions_size_monotone(s, i + 1, s.len() as int);
    assert(h.archive_infos[i] == infos_of(s)[i]);
}

proof fn lemma_table_index(infos: Seq<ArchiveInfo>, i: int, j: int)
    requires
        0 <= i < infos.len(),
        0 <= j < 12,
    ensures
        table_bytes(infos)[12 * i + j] == info_bytes(infos[i])[j],
{
    assert((12 * i + j) / 12 == i);
    assert((12 * i + j) % 12 == j);
}

proof fn lemma_number_at(b: Seq<u8>, at: int, v: u32)
    requires
        0 <= at,
        at + 4 <= b.len(),
        forall|j: int| 0 <= j < 4 ==> b[at + j] == #[trigger] u32_be(v)[j],
    ensures
        be_u32(b.subrange(at, at + 4)) == v,
{
    assert(b.subrange(at, at + 4) =~= u32_be(v));
    lemma_u32_round_trip(v);
}

proof fn lemma_table_block(infos: Seq<ArchiveInfo>, i: int, front: Seq<u8>, rest: Seq<u8>)
    requires
        0 <= i < infos.len(),
        front.len() == 16,
    ensures
        info_at(front + table_bytes(infos) + rest, 16 + 12 * i) == infos[i],
{
    let table = table_bytes(infos);
    let b = front + table + rest;
    let a = infos[i];
    let at = 16 + 12 * i;
    assert forall|j: int| 0 <= j < 12 implies #[trigger] b[at + j] == info_bytes(a)[j] by {
        lemma_table_index(infos, i, j);
        assert(b[at + j] == table[12 * i + j]);
    }
    assert forall|j: int| 0 <= j < 4 implies b[at + j] == #[trigger] u32_be(a.offset)[j] by {
        assert(b[at + j] == info_bytes(a)[j]);
    }
    lemma_number_at(b, at, a.offset);
    assert forall|j: int| 0 <= j < 4 implies b[at + 4 + j] == #[trigger] u32_be(a.precision)[j] by {
        assert(b[at + (4 + j)] == info_bytes(a)[4 + j]);
    }
    lemma_number_at(b, at + 4, a.precision);
    assert forall|j: int| 0 <= j < 4 implies b[at + 8 + j] == #[trigger] u32_be(a.points)[j] by {
        assert(b[at + (8 + j)] == info_bytes(a)[8 + j]);
    }
    lemma_number_at(b, at + 8, a.points);
}

proof fn lemma_preamble(b: Seq<u8>, id: u32, max_retention: u32, factor: u32, count: u32)
    requires
        b.len() >= 16,
        b.subrange(0, 16) == u32_be(id) + u32_be(max_retention) + u32_be(factor) + u32_be(count),
    ensures
        be_u32(b.subrange(0, 4)) == id,
        be_u32(b.subrange(4, 8)) == max_retention,
        be_u32(b.subrange(8, 12)) == factor,
        be_u32(b.subrange(12, 16)) == count,
{
    let front = b.subrange(0, 16);
    assert forall|j: int| 0 <= j < 4 implies b[0 + j] == #[trigger] u32_be(id)[j] by {
        assert(b[j] == front[j]);
    }
    lemma_number_at(b, 0, id);
    assert forall|j: int| 0 <= j < 4 implies b[4 + j] == #[trigger] u32_be(max_retention)[j] by {
        assert(b[4 + j] == front[4 + j]);
    }
    lemma_number_at(b, 4, max_retention);
    assert forall|j: int| 0 <= j < 4 implies b[8 + j] == #[trigger] u32_be(factor)[j] by {
        assert(b[8 + j] == front[8 + j]);
    }
    lemma_number_at(b, 8, factor);
    assert forall|j: int| 0 <= j < 4 implies b[12 + j] == #[trigger] u32_be(count)[j] by {
        assert(b[12 + j] == front[12 + j]);
    }
    lemma_number_at(b, 12, count);
}

/// A valid header is read back from its bytes, whatever follows them.
pub proof fn lemma_parse_serialized(h: HeaderView, rest: Seq<u8>)
    requires
        valid_header(h),
    ensures
        header_bytes(h).len() == 16 + 12 * h.archive_infos.len(),
        parse_header(header_bytes(h) + rest) == Ok::<HeaderView, HeaderError>(h),
{
    let n = h.archive_infos.len();
    let b = header_bytes(h) + rest;
    let id = aggregation_id(h.aggregation_type);
    let front = u32_be(id) + u32_be(h.max_retention) + u32_be(h.x_files_factor) + u32_be(
        n as u32,
    );
    lemma_regions_size_monotone(policies_of(h.archive_infos), 0, n as int);
    assert(16 + 12 * n <= u32::MAX);
    assert(front.len() == 16);
    assert(b.subrange(0, 16) =~= front);
    lemma_preamble(b, id, h.max_retention, h.x_files_factor, n as u32);
    assert(b =~= front + table_bytes(h.archive_infos) + rest);
    assert forall|i: int| 0 <= i < n implies #[trigger] table_at(b, n as int)[i]
        == h.archive_infos[i] by {
        lemma_table_block(h.archive_infos, i, front, rest);
    }
    assert(table_at(b, n as int) =~= h.archive_infos);
    assert(aggregation_of(id) == Some(h.aggregation_type));
    assert(header_at(b) == h);
}

proof fn lemma_info_round_trip(b: Seq<u8>, at: int)
    requires
        0 <= at,
        at + 12 <= b.len(),
    ensures
        info_bytes(info_at(b, at)) == b.subrange(at, at + 12),
{
    lemma_u32_bytes_round_trip(b.subrange(at, at + 4));
    lemma_u32_bytes_round_trip(b.subrange(at + 4, at + 8));
    lemma_u32_bytes_round_trip(b.subrange(at + 8, at + 12));
    assert(b.subrange(at, at + 4) + b.subrange(at + 4, at + 8) + b.subrange(at + 8, at + 12)
        =~= b.subrange(at, at + 12));
}

proof fn lemma_table_round_trip(b: Seq<u8>, n: int)
    requires
        0 <= n,
        16 + 12 * n <= b.len(),
    ensures
        table_bytes(table_at(b, n)) == b.subrange(16, 16 + 12 * n),
{
    let infos = table_at(b, n);
    let table = table_bytes(infos);
    assert forall|k: int| 0 <= k < 12 * n implies #[trigger] table[k] == b[16 + k] by {
        let i = k / 12;
        let j = k % 12;
        lemma_info_round_trip(b, 16 + 12 * i);
        assert(infos[i] == info_at(b, 16 + 12 * i));
        assert(b.subrange(16 + 12 * i, 16 + 12 * i + 12)[j] == b[16 + k]);
    }
    assert(table =~= b.subrange(16, 16 + 12 * n));
}

proof fn lemma_preamble_round_trip(b: Seq<u8>)
    requires
        16 <= b.len(),
    ensures
        u32_be(be_u32(b.subrange(0, 4))) + u32_be(be_u32(b.subrange(4, 8))) + u32_be(
            be_u32(b.subrange(8, 12)),
        ) + u32_be(be_u32(b.subrange(12, 16))) == b.subrange(0, 16),
{
    lemma_u32_bytes_round_trip(b.subrange(0, 4));
    lemma_u32_bytes_round_trip(b.subrange(4, 8));
    lemma_u32_bytes_round_trip(b.subrange(8, 12));
    lemma_u32_bytes_round_trip(b.subrange(12, 16));
    assert(b.subrange(0, 4) + b.subrange(4, 8) + b.subrange(8, 12) + b.subrange(12, 16)
        =~= b.subrange(0, 16));
}

proof fn lemma_header_at_round_trip(b: Seq<u8>)
    requires
        16 <= b.len(),
        16 + 12 * be_u32(b.subrange(12, 16)) <= b.len(),
        aggregation_of(be_u32(b.subrange(0, 4))) is Some,
    ensures
        header_bytes(header_at(b)) == b.subrange(0, 16 + 12 * be_u32(b.subrange(12, 16))),
{
    let h = header_at(b);
    let n = be_u32(b.subrange(12, 16)) as int;
    lemma_preamble_round_trip(b);
    lemma_table_round_trip(b, n);
    assert(aggregation_id(h.aggregation_type) == be_u32(b.subrange(0, 4)));
    assert(h.archive_infos.len() as u32 == be_u32(b.subrange(12, 16)));
    assert(b.subrange(0, 16) + b.subrange(16, 16 + 12 * n) =~= b.subrange(0, 16 + 12 * n));
}

/// A header that was read from bytes is written out as those same bytes: a
/// header and the front of its file stand for each other.
pub proof fn lemma_serialize_parsed(b: Seq<u8>)
    requires
        parse_header(b) is Ok,
    ensures
        header_bytes(parse_header(b)->Ok_0) == b.subrange(
            0,
            16 + 12 * (parse_header(b)->Ok_0.archive_infos.len() as int),
        ),
{
    lemma_header_at_round_trip(b);
}

/// The header of a newly laid out file survives being written out and read back:
/// every field of it, and every descriptor.
pub proof fn lemma_new_header_round_trip(s: Seq<RetentionPolicy>)
    requires
        valid_schema(s),
    ensures
        parse_header(header_bytes(header_of(s))) == Ok::<HeaderView, HeaderError>(header_of(s)),
{
    lemma_header_of_valid(s);
    lemma_parse_serialized(header_of(s), Seq::empty());
    assert(header_bytes(header_of(s)) + Seq::<u8>::empty() =~= header_bytes(header_of(s)));
}

/// The header of a file. Every value of this type is a valid header.
#[derive(Debug, PartialEq, Eq)]
pub struct Header {
    aggregation_type: AggregationType,
    max_retention: u32,
    x_files_factor: u32,
    archive_infos: Vec<ArchiveInfo>,
}

impl View for Header {
    type V = HeaderView;

    closed spec fn view(&self) -> HeaderView {
        HeaderView {
            aggregation_type: self.aggregation_type,
            max_retention: self.max_retention,
            x_files_factor: self.x_files_factor,
            archive_infos: self.archive_infos@,
        }
    }
}

impl Header {
    #[verifier::type_invariant]
    pub open spec fn wf(&self) -> bool {
        valid_header(self@)
    }

    /// Where the archives begin in a file that has `archive_count` of them.
    pub fn archives_start(archive_count: u32) -> (start: u64)
        ensures
            start == 16 + 12 * archive_count,
    {
        16 + 12 * (archive_count as u64)
    }

    /// The header of a file newly laid out for `schema`.
    pub fn new(schema: &Schema) -> (header: Header)
        ensures
            header@ == header_of(schema@),
            valid_header(header@),
    {
        proof {
            use_type_invariant(schema);
            lemma_header_of_valid(schema@);
        }
        let ghost s = schema@;
        let policies = schema.retention_policies();
        let n = policies.len();
        let mut archive_infos: Vec<ArchiveInfo> = Vec::new();
        proof {
            lemma_regions_size_monotone(s, 0, n as int);
        }
        let mut offset: u32 = (16 + 12 * n) as u32;
        let mut i: usize = 0;
        while i < n
            invariant
                s == schema@,
                valid_schema(s),
                policies@ == s,
                n == s.len(),
                0 <= i <= n,
                offset == archive_offset(s, i as int),
                archive_infos@ == infos_of(s).subrange(0, i as int),
            decreases n - i,
        {
            let p = policies[i];
            archive_infos.push(ArchiveInfo { offset, precision: p.precision, points: p.points });
            proof {
                lemma_regions_size_monotone(s, i + 1, n as int);
                assert(archive_infos@ =~= infos_of(s).subrange(0, i + 1));
            }
            offset = offset + p.points * 12;
            i = i + 1;
        }
        assert(archive_infos@ =~= infos_of(s));
        Header {
            aggregation_type: AggregationType::Unknown,
            max_retention: schema.max_retention(),
            x_files_factor: FACTOR_HALF,
            archive_infos,
        }
    }

    /// Reads the header at the front of `bytes` and checks it. The result is `Ok`
    /// exactly when the bytes hold a whole header that is valid.
    pub fn new_from_slice(bytes: &[u8]) -> (r: Result<Header, HeaderError>)
        ensures
            match r {
                Ok(header) => parse_header(bytes@) == Ok::<HeaderView, HeaderError>(header@),
                Err(e) => parse_header(bytes@) == Err::<HeaderView, HeaderError>(e),
            },
    {
        let ghost b = bytes@;
        if bytes.len() < 16 {
            return Err(HeaderError::Truncated);
        }
        let id = read_u32(bytes);
        let max_retention = read_u32(slice_subrange(bytes, 4, 8));
        let x_files_factor = read_u32(slice_subrange(bytes, 8, 12));
        let count = read_u32(slice_subrange(bytes, 12, 16));
        proof {
            assert(b.subrange(4, 8).subrange(0, 4) =~= b.subrange(4, 8));
            assert(b.subrange(8, 12).subrange(0, 4) =~= b.subrange(8, 12));
            assert(b.subrange(12, 16).subrange(0, 4) =~= b.subrange(12, 16));
        }
        if (bytes.len() as u64) < 16 + 12 * (count as u64) {
            return Err(HeaderError::Truncated);
        }
        let n = count as usize;
        let mut archive_infos: Vec<ArchiveInfo> = Vec::new();
        let mut policies: Vec<RetentionPolicy> = Vec::new();
        let mut i: usize = 0;
        while i < n
            invariant
                b == bytes@,
                16 + 12 * n <= b.len() <= usize::MAX,
                0 <= i <= n,
                archive_infos@ == table_at(b, i as int),
                policies@ == policies_of(archive_infos@),
            decreases n - i,
        {
            let at: usize = 16 + 12 * i;
            let offset = read_u32(slice_subrange(bytes, at, at + 4));
            let precision = read_u32(slice_subrange(bytes, at + 4, at + 8));
            let points = read_u32(slice_subrange(bytes, at + 8, at + 12));
            proof {
                assert(b.subrange(at as int, at + 4).subrange(0, 4) =~= b.subrange(
                    at as int,
                    at + 4,
                ));
                assert(b.subrange(at + 4, at + 8).subrange(0, 4) =~= b.subrange(at + 4, at + 8));
                assert(b.subrange(at + 8, at + 12).subrange(0, 4) =~= b.subrange(
                    at + 8,
                    at + 12,
                ));
            }
            archive_infos.push(ArchiveInfo { offset, precision, points });
            policies.push(RetentionPolicy { precision, points });
            proof {
                assert(archive_infos@ =~= table_at(b, i + 1));
                assert(policies@ =~= policies_of(archive_infos@));
            }
            i = i + 1;
        }
        let ghost infos = archive_infos@;
        let ghost s = policies@;
        assert(header_at(b).archive_infos == infos);
        let aggregation_type = match AggregationType::from_u32(id) {
            Some(a) => a,
            None => {
                return Err(HeaderError::Malformed);
            },
        };
        if x_files_factor > FACTOR_ONE {
            return Err(HeaderError::Malformed);
        }
        let schema = match Schema::new(policies) {
            Ok(schema) => schema,
            Err(_) => {
                return Err(HeaderError::Malformed);
            },
        };
        if max_retention != schema.max_retention() {
            return Err(HeaderError::Malformed);
        }
        proof {
            lemma_regions_size_monotone(s, 0, n as int);
        }
        let ghost h = header_at(b);
        assert(parse_header(b) == if valid_header(h) {
            Ok::<HeaderView, HeaderError>(h)
        } else {
            Err::<HeaderView, HeaderError>(HeaderError::Malformed)
        });
        let mut offset: u32 = (16 + 12 * n) as u32;
        let mut j: usize = 0;
        while j < n
            invariant
                b == bytes@,
                h.archive_infos == infos,
                parse_header(b) == if valid_header(h) {
                    Ok::<HeaderView, HeaderError>(h)
                } else {
                    Err::<HeaderView, HeaderError>(HeaderError::Malformed)
                },
                infos == archive_infos@,
                s == policies_of(infos),
                valid_schema(s),
                n == infos.len(),
                0 <= j <= n,
                offset == archive_offset(s, j as int),
                forall|k: int| 0 <= k < j ==> infos[k] == #[trigger] infos_of(s)[k],
            decreases n - j,
        {
            let info = archive_infos[j];
            if info.offset != offset {
                assert(infos[j as int] != infos_of(s)[j as int]);
                return Err(HeaderError::Malformed);
            }
            proof {
                lemma_regions_size_monotone(s, j + 1, n as int);
                assert(s[j as int] == policy_of(infos[j as int]));
            }
            offset = offset + info.points * 12;
            j = j + 1;
        }
        assert(infos =~= infos_of(s));
        Ok(Header { aggregation_type, max_retention, x_files_factor, archive_infos })
    }

    /// The bytes of the header, as they stand at the front of the file.
    pub fn serialize(&self) -> (out: Vec<u8>)
        ensures
            out@ == header_bytes(self@),
            out@.len() == 16 + 12 * self@.archive_infos.len(),
    {
        proof {
            use_type_invariant(self);
            lemma_regions_size_monotone(
                policies_of(self@.archive_infos),
                0,
                self@.archive_infos.len() as int,
            );
        }
        let ghost infos = self@.archive_infos;
        let n = self.archive_infos.len();
        let mut out: Vec<u8> = Vec::new();
        out.extend_from_slice(write_u32(self.aggregation_type.to_u32()).as_slice());
        out.extend_from_slice(write_u32(self.max_retention).as_slice());
        out.extend_from_slice(write_u32(self.x_files_factor).as_slice());
        out.extend_from_slice(write_u32(n as u32).as_slice());
        let ghost front = out@;
        let mut i: usize = 0;
        while i < n
            invariant
                infos == self.archive_infos@,
                n == infos.len(),
                0 <= i <= n,
                front.len() == 16,
                out@ == front + table_bytes(infos.subrange(0, i as int)),
            decreases n - i,
        {
            let info = self.archive_infos[i];
            let ghost before = out@;
            out.extend_from_slice(write_u32(info.offset).as_slice());
            out.extend_from_slice(write_u32(info.precision).as_slice());
            out.extend_from_slice(write_u32(info.points).as_slice());
            proof {
                assert(out@ == before + info_bytes(info));
                let longer = table_bytes(infos.subrange(0, i + 1));
                let shorter = table_bytes(infos.subrange(0, i as int));
                assert forall|k: int| 0 <= k < 12 * (i + 1) implies longer[k] == (shorter
                    + info_bytes(info))[k] by {
                    if k < 12 * i {
                        assert(infos.subrange(0, i + 1)[k / 12] == infos.subrange(0, i as int)[k
                            / 12]);
                    } else {
                        assert(k / 12 == i);
                        assert(k % 12 == k - 12 * i);
                    }
                }
                assert(longer =~= shorter + info_bytes(info));
            }
            i = i + 1;
        }
        assert(infos.subrange(0, n as int) =~= infos);
        out
    }

    /// The aggregation method of the file.
    pub fn aggregation_type(&self) -> (a: AggregationType)
        ensures
            a == self@.aggregation_type,
    {
        self.aggregation_type
    }

    /// Seconds that the coarsest archive covers.
    pub fn max_retention(&self) -> (r: u32)
        ensures
            r == self@.max_retention,
    {
        self.max_retention
    }

    /// The aggregation threshold, as the bits of an IEEE-754 single.
    pub fn x_files_factor(&self) -> (bits: u32)
        ensures
            bits == self@.x_files_factor,
            valid_factor(bits),
    {
        proof {
            use_type_invariant(self);
        }
        self.x_files_factor
    }

    /// The descriptors of the archives, finest first.
    pub fn archive_infos(&self) -> (infos: &Vec<ArchiveInfo>)
        ensures
            infos@ == self@.archive_infos,
            valid_header(self@),
    {
        proof {
            use_type_invariant(self);
        }
        &self.archive_infos
    }

    /// Bytes of the file that this header describes.
    pub fn size_on_disk(&self) -> (size: u32)
        ensures
            size == size_on_disk(policies_of(self@.archive_infos)),
    {
        proof {
            use_type_invariant(self);
        }
        let n = self.archive_infos.len();
        let last = self.archive_infos[n - 1];
        proof {
            lemma_header_layout(self@, n - 1);
        }
        last.offset + 12 * last.points
    }

    /// Cuts the image `bytes` of a file with this header into its archives. Fails
    /// with `ShortFile` exactly when the image ends before the last archive does.
    pub fn mmap_to_archives(&self, bytes: &[u8]) -> (r: Result<Vec<Archive>, HeaderError>)
        ensures
            match r {
                Ok(archives) => {
                    &&& bytes@.len() >= size_on_disk(policies_of(self@.archive_infos))
                    &&& archives@.len() == self@.archive_infos.len()
                    &&& forall|i: int|
                        0 <= i < archives@.len() ==> (#[trigger] archives@[i])@ == archive_at(
                            bytes@,
                            self@.archive_infos[i],
                        )
                },
                Err(e) => e == HeaderError::ShortFile && bytes@.len() < size_on_disk(
                    policies_of(self@.archive_infos),
                ),
            },
    {
        proof {
            use_type_invariant(self);
        }
        let size = self.size_on_disk();
        if bytes.len() < size as usize {
            return Err(HeaderError::ShortFile);
        }
        let ghost b = bytes@;
        let ghost infos = self@.archive_infos;
        let n = self.archive_infos.len();
        let mut archives: Vec<Archive> = Vec::new();
        let mut i: usize = 0;
        while i < n
            invariant
                b == bytes@,
                infos == self.archive_infos@,
                valid_header(self@),
                infos == self@.archive_infos,
                size == size_on_disk(policies_of(infos)),
                b.len() >= size,
                n == infos.len(),
                0 <= i <= n,
                archives@.len() == i,
                forall|k: int|
                    0 <= k < i ==> (#[trigger] archives@[k])@ == archive_at(b, infos[k]),
            decreases n - i,
        {
            let info = self.archive_infos[i];
            proof {
                lemma_header_layout(self@, i as int);
            }
            let from: usize = info.offset as usize;
            let to: usize = from + 12 * (info.points as usize);
            let region = slice_to_vec(slice_subrange(bytes, from, to));
            match Archive::new(info.offset, info.precision, info.points, region) {
                Some(archive) => {
                    archives.push(archive);
                },
                None => {
                    unreached::<()>();
                },
            }
            i = i + 1;
        }
        Ok(archives)
    }
}

} // verus!
