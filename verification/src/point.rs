//! One sample of a metric and its twelve-byte form on disk.

use crate::codec::{be_u32, be_u64, read_u32, read_u64, u32_be, u64_be, write_u32, write_u64};
use crate::codec::{lemma_u32_bytes_round_trip, lemma_u32_round_trip, lemma_u32_zero};
use crate::codec::{lemma_u64_bytes_round_trip, lemma_u64_round_trip};
use vstd::prelude::*;
use vstd::slice::slice_subrange;

verus! {

/// Bytes that one slot occupies: a four-byte timestamp and an eight-byte value.
pub const POINT_SIZE: usize = 12;

/// A sample: seconds since the epoch, and the bits of an IEEE-754 double.
///
/// A stored timestamp of zero marks a slot that holds no data, whatever its value.
#[derive(Clone, Copy, Debug, PartialEq, Eq, Structural)]
pub struct Point {
    pub timestamp: u32,
    pub value: u64,
}

/// The twelve bytes of a slot that holds `p`.
pub open spec fn point_bytes(p: Point) -> Seq<u8> {
    u32_be(p.timestamp) + u64_be(p.value)
}

/// The point that the first twelve bytes of `b` hold.
pub open spec fn bytes_point(b: Seq<u8>) -> Point
    recommends
        b.len() >= 12,
{
    Point { timestamp: be_u32(b.subrange(0, 4)), value: be_u64(b.subrange(4, 12)) }
}

/// A point survives being written to a slot and read back.
pub proof fn lemma_point_round_trip(p: Point)
    ensures
        bytes_point(point_bytes(p)) == p,
{
    lemma_u32_round_trip(p.timestamp);
    lemma_u64_round_trip(p.value);
    assert(point_bytes(p).subrange(0, 4) =~= u32_be(p.timestamp));
    assert(point_bytes(p).subrange(4, 12) =~= u64_be(p.value));
}

/// Twelve bytes are the slot form of exactly the point they decode to.
pub proof fn lemma_point_bytes_round_trip(b: Seq<u8>)
    requires
        b.len() == 12,
    ensures
        point_bytes(bytes_point(b)) == b,
{
    lemma_u32_bytes_round_trip(b.subrange(0, 4));
    lemma_u64_bytes_round_trip(b.subrange(4, 12));
    assert(b.subrange(0, 4) + b.subrange(4, 12) =~= b);
}

/// A slot of zero bytes holds the point of timestamp zero and value zero.
pub proof fn lemma_zero_point(b: Seq<u8>)
    requires
        b.len() >= 12,
        forall|i: int| 0 <= i < 12 ==> b[i] == 0,
    ensures
        bytes_point(b) == (Point { timestamp: 0, value: 0 }),
{
    lemma_u32_zero(b.subrange(0, 4));
    lemma_u32_zero(b.subrange(4, 12).subrange(0, 4));
    lemma_u32_zero(b.subrange(4, 12).subrange(4, 8));
}

impl Point {
    pub fn new(timestamp: u32, value: u64) -> (p: Point)
        ensures
            p == (Point { timestamp, value }),
    {
        Point { timestamp, value }
    }

    /// Whether this is the content of a slot that was never written.
    pub open spec fn spec_is_gap(&self) -> bool {
        self.timestamp == 0
    }

    #[verifier::when_used_as_spec(spec_is_gap)]
    pub fn is_gap(&self) -> (gap: bool)
        ensures
            gap == self.spec_is_gap(),
    {
        self.timestamp == 0
    }

    /// The slot form of this point.
    pub fn encode(&self) -> (out: Vec<u8>)
        ensures
            out@ == point_bytes(*self),
    {
        let ts = write_u32(self.timestamp);
        let value = write_u64(self.value);
        let mut out: Vec<u8> = Vec::new();
        out.extend_from_slice(ts.as_slice());
        out.extend_from_slice(value.as_slice());
        out
    }

    /// Reads the point at the front of `bytes`; `None` when fewer than twelve bytes
    /// are given.
    pub fn decode(bytes: &[u8]) -> (out: Option<Point>)
        ensures
            out == if bytes@.len() >= 12 {
                Some(bytes_point(bytes@))
            } else {
                None
            },
    {
        if bytes.len() < POINT_SIZE {
            return None;
        }
        let timestamp = read_u32(bytes);
        let tail = slice_subrange(bytes, 4, POINT_SIZE);
        let value = read_u64(tail);
        assert(tail@.subrange(0, 8) =~= bytes@.subrange(4, 12));
        Some(Point { timestamp, value })
    }
}

} // verus!
