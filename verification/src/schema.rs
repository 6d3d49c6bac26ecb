//! Retention policies, the schema they form, and the file layout that follows from it.

use crate::errors::SchemaError;
use vstd::prelude::*;

verus! {

/// Bytes of the file's preamble, before the archive descriptors.
pub const METADATA_SIZE: usize = 16;

/// Bytes of one archive descriptor in the header.
pub const ARCHIVE_INFO_SIZE: usize = 12;

/// One archive's shape: seconds per point, and how many points it holds.
#[derive(Clone, Copy, Debug, PartialEq, Eq, Structural)]
pub struct RetentionPolicy {
    pub precision: u32,
    pub points: u32,
}

/// Seconds that an archive of this shape covers before it wraps.
pub open spec fn retention(p: RetentionPolicy) -> int {
    p.precision * p.points
}

/// A policy that an archive can have.
pub open spec fn valid_policy(p: RetentionPolicy) -> bool {
    &&& p.precision > 0
    &&& p.points > 0
    &&& retention(p) <= u32::MAX
}

/// `coarse` may directly follow `fine` in a schema.
pub open spec fn refines(fine: RetentionPolicy, coarse: RetentionPolicy) -> bool {
    &&& fine.precision < coarse.precision
    &&& coarse.precision % fine.precision == 0
    &&& retention(fine) < retention(coarse)
}

/// Bytes of a header that describes `n` archives.
pub open spec fn header_size(n: int) -> int {
    16 + 12 * n
}

/// Bytes that the first `n` archives of `s` occupy together.
pub open spec fn regions_size(s: Seq<RetentionPolicy>, n: int) -> int
    decreases n,
{
    if n <= 0 {
        0
    } else {
        regions_size(s, n - 1) + s[n - 1].points * 12
    }
}

/// Where archive `i` of `s` begins in the file; for `i == s.len()`, where the file ends.
pub open spec fn archive_offset(s: Seq<RetentionPolicy>, i: int) -> int {
    header_size(s.len() as int) + regions_size(s, i)
}

/// Bytes of a file laid out for `s`.
pub open spec fn size_on_disk(s: Seq<RetentionPolicy>) -> int {
    archive_offset(s, s.len() as int)
}

/// A well-formed schema: at least one archive, finest first, each one valid and a
/// refinement of the next, in a file that 32-bit offsets can address.
pub open spec fn valid_schema(s: Seq<RetentionPolicy>) -> bool {
    &&& s.len() > 0
    &&& forall|i: int| 0 <= i < s.len() ==> valid_policy(#[trigger] s[i])
    &&& forall|i: int| 0 < i < s.len() ==> refines(s[i - 1], #[trigger] s[i])
    &&& size_on_disk(s) <= u32::MAX
}

/// What is wrong with archive `i` of `s`, given that the archives before it are sound.
pub open spec fn policy_fault(s: Seq<RetentionPolicy>, i: int) -> Option<SchemaError> {
    let p = s[i];
    if p.precision == 0 {
        Some(SchemaError::ZeroPrecision)
    } else if p.points == 0 {
        Some(SchemaError::ZeroPoints)
    } else if retention(p) > u32::MAX {
        Some(SchemaError::RetentionTooLong)
    } else if i > 0 && p.precision <= s[i - 1].precision {
        Some(SchemaError::PrecisionNotIncreasing)
    } else if i > 0 && p.precision % s[i - 1].precision != 0 {
        Some(SchemaError::PrecisionNotMultiple)
    } else if i > 0 && retention(p) <= retention(s[i - 1]) {
        Some(SchemaError::RetentionNotIncreasing)
    } else if archive_offset(s, i + 1) > u32::MAX {
        Some(SchemaError::TooLarge)
    } else {
        None
    }
}

/// The fault of the first faulty archive of `s` at or after `i`.
pub open spec fn first_fault(s: Seq<RetentionPolicy>, i: int) -> Option<SchemaError>
    decreases s.len() - i,
{
    if i < 0 || i >= s.len() {
        None
    } else if policy_fault(s, i) is Some {
        policy_fault(s, i)
    } else {
        first_fault(s, i + 1)
    }
}

/// Why `s` is not a schema, or `None` when it is one.
pub open spec fn schema_fault(s: Seq<RetentionPolicy>) -> Option<SchemaError> {
    if s.len() == 0 {
        Some(SchemaError::Empty)
    } else {
        first_fault(s, 0)
    }
}

/// The archives occupy more room the more of them are counted.
pub proof fn lemma_regions_size_monotone(s: Seq<RetentionPolicy>, i: int, j: int)
    requires
        0 <= i <= j,
    ensures
        0 <= regions_size(s, i) <= regions_size(s, j),
    decreases j,
{
    if j > 0 {
        if i < j {
            lemma_regions_size_monotone(s, i, j - 1);
        } else {
            lemma_regions_size_monotone(s, i - 1, j - 1);
        }
    }
}

proof fn lemma_first_fault(s: Seq<RetentionPolicy>, i: int)
    requires
        0 <= i <= s.len(),
    ensures
        first_fault(s, i) is None <==> forall|j: int|
            i <= j < s.len() ==> (#[trigger] policy_fault(s, j)) is None,
    decreases s.len() - i,
{
    if i < s.len() {
        lemma_first_fault(s, i + 1);
    }
}

/// A sequence of policies has no fault exactly when it is a well-formed schema.
pub proof fn lemma_fault_free_is_valid(s: Seq<RetentionPolicy>)
    ensures
        schema_fault(s) is None <==> valid_schema(s),
{
    if s.len() > 0 {
        lemma_first_fault(s, 0);
        if schema_fault(s) is None {
            assert forall|i: int| 0 <= i < s.len() implies valid_policy(#[trigger] s[i]) by {
                assert(policy_fault(s, i) is None);
            }
            assert forall|i: int| 0 < i < s.len() implies refines(s[i - 1], #[trigger] s[i]) by {
                assert(policy_fault(s, i) is None);
                assert(policy_fault(s, i - 1) is None);
            }
            assert(policy_fault(s, s.len() - 1) is None);
        }
        if valid_schema(s) {
            assert forall|j: int| 0 <= j < s.len() implies (#[trigger] policy_fault(s, j))
                is None by {
                lemma_regions_size_monotone(s, j + 1, s.len() as int);
                assert(valid_policy(s[j]));
                if j > 0 {
                    assert(refines(s[j - 1], s[j]));
                }
            }
        }
    }
}

/// A file laid out for a well-formed schema has sixteen bytes of preamble, twelve
/// for each archive's descriptor, and twelve for each point of each archive.
/// Every archive lies behind the descriptors and within the file, and begins
/// where the one before it ends.
pub proof fn lemma_layout(s: Seq<RetentionPolicy>, i: int)
    requires
        valid_schema(s),
        0 <= i < s.len(),
    ensures
        size_on_disk(s) == 16 + 12 * s.len() + regions_size(s, s.len() as int),
        archive_offset(s, 0) == 16 + 12 * s.len(),
        archive_offset(s, i + 1) == archive_offset(s, i) + s[i].points * 12,
        16 + 12 * s.len() <= archive_offset(s, i),
        archive_offset(s, i) + s[i].points * 12 <= size_on_disk(s) <= u32::MAX,
{
    lemma_regions_size_monotone(s, 0, i);
    lemma_regions_size_monotone(s, i + 1, s.len() as int);
}

/// In a well-formed schema the offsets of the archives increase strictly, and no
/// two archives overlap: a finer archive ends before any coarser one begins.
pub proof fn lemma_archives_apart(s: Seq<RetentionPolicy>, i: int, j: int)
    requires
        valid_schema(s),
        0 <= i < j < s.len(),
    ensures
        archive_offset(s, i) < archive_offset(s, j),
        archive_offset(s, i) + s[i].points * 12 <= archive_offset(s, j),
{
    assert(valid_policy(s[i]));
    lemma_regions_size_monotone(s, i + 1, j);
}

impl RetentionPolicy {
    pub fn new(precision: u32, points: u32) -> (p: RetentionPolicy)
        ensures
            p == (RetentionPolicy { precision, points }),
    {
        RetentionPolicy { precision, points }
    }

    /// How many points the archive holds.
    pub fn points(&self) -> (n: u32)
        ensures
            n == self.points,
    {
        self.points
    }

    /// Seconds that the archive covers before it wraps.
    pub fn retention(&self) -> (r: u64)
        ensures
            r == retention(*self),
    {
        let precision = self.precision as u64;
        let points = self.points as u64;
        assert(precision * points <= 0xffff_ffff * 0xffff_ffff) by (nonlinear_arith)
            requires
                precision <= 0xffff_ffff,
                points <= 0xffff_ffff,
        ;
        precision * points
    }

    /// Bytes that the archive's slots occupy in the file.
    pub fn size_on_disk(&self) -> (r: u64)
        ensures
            r == self.points * 12,
    {
        self.points as u64 * 12
    }
}

/// Where archive `i` of `s` begins, cut off at 2^32.
spec fn clamped_offset(s: Seq<RetentionPolicy>, i: int) -> int {
    if archive_offset(s, i) > 0x1_0000_0000 {
        0x1_0000_0000
    } else {
        archive_offset(s, i)
    }
}

/// Examines archive `i`, which begins at `start`: its fault, or where it ends.
fn check_policy(policies: &Vec<RetentionPolicy>, i: usize, start: u64) -> (r: Result<
    u64,
    SchemaError,
>)
    requires
        i < policies@.len(),
        i > 0 ==> policies@[i - 1].precision > 0,
        start == clamped_offset(policies@, i as int),
    ensures
        match r {
            Ok(end) => policy_fault(policies@, i as int) is None && end == clamped_offset(
                policies@,
                i + 1,
            ),
            Err(e) => policy_fault(policies@, i as int) == Some(e),
        },
{
    let p = policies[i];
    if p.precision == 0 {
        return Err(SchemaError::ZeroPrecision);
    }
    if p.points == 0 {
        return Err(SchemaError::ZeroPoints);
    }
    let kept = p.retention();
    if kept > 0xffff_ffff {
        return Err(SchemaError::RetentionTooLong);
    }
    if i > 0 {
        let before = policies[i - 1];
        if p.precision <= before.precision {
            return Err(SchemaError::PrecisionNotIncreasing);
        }
        if p.precision % before.precision != 0 {
            return Err(SchemaError::PrecisionNotMultiple);
        }
        if kept <= before.retention() {
            return Err(SchemaError::RetentionNotIncreasing);
        }
    }
    let end = start + p.size_on_disk();
    proof {
        lemma_regions_size_monotone(policies@, i as int, i + 1);
    }
    if end > 0xffff_ffff {
        return Err(SchemaError::TooLarge);
    }
    Ok(end)
}

/// The archives of one metric, finest first. Every value of this type is a
/// well-formed schema.
#[derive(Debug, PartialEq, Eq)]
pub struct Schema {
    retention_policies: Vec<RetentionPolicy>,
}

impl View for Schema {
    type V = Seq<RetentionPolicy>;

    closed spec fn view(&self) -> Seq<RetentionPolicy> {
        self.retention_policies@
    }
}

impl Schema {
    #[verifier::type_invariant]
    pub open spec fn wf(&self) -> bool {
        valid_schema(self@)
    }

    /// Checks `policies` and makes them a schema. The result is `Ok` exactly when
    /// they form a well-formed schema; otherwise it is the first fault found.
    pub fn new(policies: Vec<RetentionPolicy>) -> (r: Result<Schema, SchemaError>)
        ensures
            match r {
                Ok(schema) => schema@ == policies@ && valid_schema(policies@),
                Err(e) => schema_fault(policies@) == Some(e) && !valid_schema(policies@),
            },
    {
        let ghost s = policies@;
        let n = policies.len();
        if n == 0 {
            return Err(SchemaError::Empty);
        }
        // Where the archive under examination begins, or 2^32 when that is out of reach.
        let mut end: u64 = if n > 357_913_940 {
            0x1_0000_0000
        } else {
            16 + 12 * (n as u64)
        };
        let mut i: usize = 0;
        while i < n
            invariant
                s == policies@,
                n == s.len(),
                0 <= i <= n,
                first_fault(s, 0) == first_fault(s, i as int),
                i > 0 ==> s[i - 1].precision > 0,
                end == clamped_offset(s, i as int),
            decreases n - i,
        {
            match check_policy(&policies, i, end) {
                Err(e) => {
                    proof {
                        lemma_fault_free_is_valid(s);
                    }
                    return Err(e);
                },
                Ok(next) => {
                    end = next;
                },
            }
            i = i + 1;
        }
        proof {
            lemma_fault_free_is_valid(s);
        }
        Ok(Schema { retention_policies: policies })
    }

    /// The policies of the archives, finest first.
    pub fn retention_policies(&self) -> (policies: &Vec<RetentionPolicy>)
        ensures
            policies@ == self@,
    {
        &self.retention_policies
    }

    /// How many archives the schema has.
    pub fn len(&self) -> (n: usize)
        ensures
            n == self@.len(),
            n > 0,
    {
        proof {
            use_type_invariant(self);
        }
        self.retention_policies.len()
    }

    /// Seconds that the coarsest archive covers.
    pub fn max_retention(&self) -> (r: u32)
        ensures
            r == retention(self@.last()),
    {
        proof {
            use_type_invariant(self);
        }
        let last = self.retention_policies[self.retention_policies.len() - 1];
        assert(valid_policy(self@[self@.len() - 1]));
        last.retention() as u32
    }

    /// Where archive `index` begins in the file; `None` when the schema has no such archive.
    pub fn archive_offset(&self, index: usize) -> (offset: Option<u32>)
        ensures
            offset == if index < self@.len() {
                Some(archive_offset(self@, index as int) as u32)
            } else {
                None
            },
            index < self@.len() ==> archive_offset(self@, index as int) <= u32::MAX,
    {
        proof {
            use_type_invariant(self);
        }
        if index >= self.retention_policies.len() {
            return None;
        }
        let end = self.end_of(index);
        Some(end)
    }

    /// Bytes of a file laid out for this schema.
    pub fn size_on_disk(&self) -> (size: u32)
        ensures
            size == size_on_disk(self@),
    {
        self.end_of(self.retention_policies.len())
    }

    /// Where the first `count` archives end.
    fn end_of(&self, count: usize) -> (end: u32)
        requires
            count <= self@.len(),
        ensures
            end == archive_offset(self@, count as int),
    {
        proof {
            use_type_invariant(self);
        }
        let ghost s = self@;
        let n = self.retention_policies.len();
        proof {
            lemma_regions_size_monotone(s, 0, n as int);
        }
        let mut end: u32 = (16 + 12 * n) as u32;
        let mut i: usize = 0;
        while i < count
            invariant
                s == self@,
                valid_schema(s),
                n == s.len(),
                0 <= i <= count <= n,
                end == archive_offset(s, i as int),
            decreases count - i,
        {
            proof {
                lemma_regions_size_monotone(s, i + 1, n as int);
            }
            end = end + self.retention_policies[i].points * 12;
            i = i + 1;
        }
        end
    }
}

} // verus!
