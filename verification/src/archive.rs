//! One archive: a circular buffer of slots at one precision.

use crate::codec::overwrite;
use crate::point::{bytes_point, lemma_point_bytes_round_trip, lemma_point_round_trip};
use crate::point::{point_bytes, Point, POINT_SIZE};
use crate::schema::{valid_policy, RetentionPolicy};
use vstd::arithmetic::div_mod::{lemma_fundamental_div_mod, lemma_fundamental_div_mod_converse};
use vstd::arithmetic::div_mod::{lemma_div_multiples_vanish, lemma_mod_multiples_vanish};
use vstd::arithmetic::div_mod::{lemma_mod_bound, lemma_mod_decreases};
use vstd::prelude::*;
use vstd::slice::slice_subrange;

verus! {

/// What an archive is, apart from how its slots are laid out in bytes.
pub struct ArchiveView {
    /// Where the archive begins in the file.
    pub offset: u32,
    /// Seconds per point.
    pub precision: u32,
    /// How many slots it has.
    pub points: u32,
    /// The content of each slot.
    pub slots: Seq<Point>,
}

/// An archive with a valid shape whose slots lie within reach of a 32-bit offset.
pub open spec fn valid_archive(a: ArchiveView) -> bool {
    &&& valid_policy(RetentionPolicy { precision: a.precision, points: a.points })
    &&& a.slots.len() == a.points
    &&& a.offset + 12 * a.points <= u32::MAX
}

/// The slots that a region of bytes holds, twelve bytes each.
pub open spec fn region_slots(bytes: Seq<u8>) -> Seq<Point> {
    Seq::new((bytes.len() / 12) as nat, |i: int| bytes_point(bytes.subrange(12 * i, 12 * i + 12)))
}

/// The bytes of a region that holds `slots`.
pub open spec fn slots_region(slots: Seq<Point>) -> Seq<u8> {
    Seq::new(12 * slots.len(), |k: int| point_bytes(slots[k / 12])[k % 12])
}

/// `timestamp` moved down to the nearest multiple of `precision`.
pub open spec fn aligned(timestamp: int, precision: int) -> int {
    timestamp - timestamp % precision
}

/// The slot in which `a` keeps the interval of `timestamp`.
///
/// Slot 0 holds the base interval; an archive whose slot 0 was never written has
/// no base yet, and its first point goes to slot 0. Every other interval lies as
/// many slots from slot 0 as it lies intervals from the base, counted round the
/// buffer, backwards for an interval before the base.
pub open spec fn slot_index(a: ArchiveView, timestamp: int) -> int {
    let base = a.slots[0].timestamp as int;
    if base == 0 {
        0
    } else {
        ((aligned(timestamp, a.precision as int) - base) / (a.precision as int)) % (
        a.points as int)
    }
}

/// `a` after `p` was written to it: the slot of `p`'s interval holds the interval's
/// timestamp and `p`'s value, and every other slot is as before.
pub open spec fn stored(a: ArchiveView, p: Point) -> ArchiveView {
    let timestamp = aligned(p.timestamp as int, a.precision as int) as u32;
    ArchiveView {
        slots: a.slots.update(
            slot_index(a, p.timestamp as int),
            Point { timestamp, value: p.value },
        ),
        ..a
    }
}

/// Whether `a` holds data for the interval that begins at `t`.
pub open spec fn known_at(a: ArchiveView, t: int) -> bool {
    0 < t <= u32::MAX && a.slots[slot_index(a, t)].timestamp == t
}

/// The values that `a` holds for the first `count` intervals from `interval` on,
/// oldest first; intervals without data are passed over.
pub open spec fn window_values(a: ArchiveView, interval: int, count: int) -> Seq<u64>
    decreases count,
{
    if count <= 0 {
        Seq::empty()
    } else {
        let before = window_values(a, interval, count - 1);
        let t = interval + (count - 1) * a.precision;
        if known_at(a, t) {
            before.push(a.slots[slot_index(a, t)].value)
        } else {
            before
        }
    }
}

/// Whether a point of `timestamp` is older than what `a` retains at time `now`.
pub open spec fn too_old(a: ArchiveView, timestamp: u32, now: u32) -> bool {
    timestamp < now - a.precision * a.points
}

/// The slots of a region are read back from its bytes.
pub proof fn lemma_slots_round_trip(slots: Seq<Point>)
    ensures
        slots_region(slots).len() == 12 * slots.len(),
        region_slots(slots_region(slots)) == slots,
{
    let bytes = slots_region(slots);
    assert forall|j: int| 0 <= j < slots.len() implies #[trigger] region_slots(bytes)[j]
        == slots[j] by {
        let block = bytes.subrange(12 * j, 12 * j + 12);
        assert forall|k: int| 0 <= k < 12 implies block[k] == point_bytes(slots[j])[k] by {
            assert((12 * j + k) / 12 == j);
            assert((12 * j + k) % 12 == k);
        }
        assert(block =~= point_bytes(slots[j]));
        lemma_point_round_trip(slots[j]);
    }
    assert(region_slots(bytes) =~= slots);
}

/// The bytes of a region of whole slots are those of the slots that it holds.
pub proof fn lemma_region_round_trip(bytes: Seq<u8>)
    requires
        bytes.len() % 12 == 0,
    ensures
        region_slots(bytes).len() * 12 == bytes.len(),
        slots_region(region_slots(bytes)) == bytes,
{
    let slots = region_slots(bytes);
    assert forall|k: int| 0 <= k < bytes.len() implies bytes[k] == point_bytes(slots[k / 12])[k
        % 12] by {
        let i = k / 12;
        let block = bytes.subrange(12 * i, 12 * i + 12);
        lemma_point_bytes_round_trip(block);
        assert(block[k % 12] == bytes[k]);
    }
    assert(slots_region(slots) =~= bytes);
}

/// The slot of a timestamp is one of the archive's slots.
pub proof fn lemma_slot_in_range(a: ArchiveView, timestamp: int)
    requires
        valid_archive(a),
    ensures
        0 <= slot_index(a, timestamp) < a.points,
{
    let base = a.slots[0].timestamp as int;
    if base != 0 {
        lemma_mod_bound(
            (aligned(timestamp, a.precision as int) - base) / (a.precision as int),
            a.points as int,
        );
    }
}

/// An archive whose base interval stands at a multiple of its retention keeps
/// every interval in the slot counted from the epoch.
pub proof fn lemma_epoch_slot(a: ArchiveView, timestamp: int)
    requires
        valid_archive(a),
        0 <= timestamp,
        a.slots[0].timestamp != 0,
        a.slots[0].timestamp as int % (a.precision * a.points) == 0,
    ensures
        slot_index(a, timestamp) == (timestamp / a.precision as int) % (a.points as int),
{
    let p = a.precision as int;
    let n = a.points as int;
    let base = a.slots[0].timestamp as int;
    let rounds = base / (p * n);
    let q = timestamp / p;
    assert(p * n > 0) by (nonlinear_arith)
        requires
            p > 0,
            n > 0,
    ;
    lemma_fundamental_div_mod(base, p * n);
    lemma_fundamental_div_mod(timestamp, p);
    assert(aligned(timestamp, p) - base == p * (q - rounds * n)) by (nonlinear_arith)
        requires
            base == (p * n) * rounds,
            aligned(timestamp, p) == p * q,
    ;
    lemma_div_multiples_vanish(q - rounds * n, p);
    assert((q - rounds * n) * p == p * (q - rounds * n)) by (nonlinear_arith);
    lemma_mod_multiples_vanish(-rounds, q, n);
    assert(n * (-rounds) + q == q - rounds * n) by (nonlinear_arith);
}

/// A point that was written stands in the slot of its interval, with the
/// timestamp of the interval and its own value, in an archive of the same shape.
pub proof fn lemma_stored_is_read_back(a: ArchiveView, p: Point)
    requires
        valid_archive(a),
    ensures
        0 <= slot_index(a, p.timestamp as int) < a.points,
        stored(a, p).slots[slot_index(a, p.timestamp as int)] == (Point {
            timestamp: aligned(p.timestamp as int, a.precision as int) as u32,
            value: p.value,
        }),
        valid_archive(stored(a, p)),
        forall|i: int|
            0 <= i < a.points && i != slot_index(a, p.timestamp as int) ==> stored(a, p).slots[i]
                == a.slots[i],
{
    lemma_slot_in_range(a, p.timestamp as int);
}

/// Of two points written one after the other to the same slot, the slot holds the
/// second, whichever of the two is the older.
pub proof fn lemma_last_write_wins(a: ArchiveView, first: Point, second: Point)
    requires
        valid_archive(a),
        slot_index(stored(a, first), second.timestamp as int) == slot_index(
            a,
            first.timestamp as int,
        ),
    ensures
        stored(stored(a, first), second).slots[slot_index(a, first.timestamp as int)] == (Point {
            timestamp: aligned(second.timestamp as int, a.precision as int) as u32,
            value: second.value,
        }),
{
    lemma_stored_is_read_back(a, first);
    lemma_stored_is_read_back(stored(a, first), second);
}

/// Rounding down the quotient of a negative number: `-(diff)` over `p` is minus
/// the quotient of `diff` over `p`, rounded up.
proof fn lemma_div_negative(diff: int, p: int)
    requires
        diff > 0,
        p > 0,
    ensures
        (-diff) / p == -((diff + p - 1) / p),
{
    let q = (diff + p - 1) / p;
    let r = (diff + p - 1) % p;
    lemma_fundamental_div_mod(diff + p - 1, p);
    assert(-diff == (-q) * p + (p - 1 - r)) by (nonlinear_arith)
        requires
            diff + p - 1 == p * q + r,
    ;
    lemma_fundamental_div_mod_converse(-diff, p, -q, p - 1 - r);
}

/// Counting `q` slots backwards round a buffer of `n` slots.
proof fn lemma_mod_negative(q: int, n: int)
    requires
        q >= 0,
        n > 0,
    ensures
        (-q) % n == if q % n == 0 {
            0
        } else {
            n - q % n
        },
{
    let k = q / n;
    let m = q % n;
    lemma_fundamental_div_mod(q, n);
    if m == 0 {
        assert(-q == (-k) * n + 0) by (nonlinear_arith)
            requires
                q == n * k + m,
                m == 0,
        ;
        lemma_fundamental_div_mod_converse(-q, n, -k, 0);
    } else {
        assert(-q == (-k - 1) * n + (n - m)) by (nonlinear_arith)
            requires
                q == n * k + m,
        ;
        lemma_fundamental_div_mod_converse(-q, n, -k - 1, n - m);
    }
}

/// `timestamp` moved down to the nearest multiple of `precision`.
pub(crate) fn align(timestamp: u32, precision: u32) -> (interval: u32)
    requires
        precision > 0,
    ensures
        interval == aligned(timestamp as int, precision as int),
        interval <= timestamp,
{
    proof {
        lemma_mod_decreases(timestamp as nat, precision as nat);
    }
    timestamp - timestamp % precision
}

/// The slot of `timestamp` in a buffer of `points` slots whose slot 0 holds `base`.
fn slot_from(base: u32, precision: u32, points: u32, timestamp: u32) -> (slot: u32)
    requires
        base != 0,
        precision > 0,
        points > 0,
    ensures
        slot < points,
        slot == ((aligned(timestamp as int, precision as int) - base) / (precision as int)) % (
        points as int),
{
    let interval: u32 = align(timestamp, precision);
    if interval >= base {
        ((interval - base) / precision) % points
    } else {
        let diff: u64 = (base - interval) as u64;
        let back: u64 = (diff + (precision as u64 - 1)) / (precision as u64);
        let rest: u64 = back % (points as u64);
        proof {
            lemma_div_negative(diff as int, precision as int);
            lemma_mod_negative(back as int, points as int);
        }
        if rest == 0 {
            0
        } else {
            (points as u64 - rest) as u32
        }
    }
}

/// One archive of a file: its place and shape, and the bytes of its slots.
#[derive(Debug, PartialEq, Eq)]
pub struct Archive {
    offset: u32,
    precision: u32,
    points: u32,
    region: Vec<u8>,
}

impl View for Archive {
    type V = ArchiveView;

    closed spec fn view(&self) -> ArchiveView {
        ArchiveView {
            offset: self.offset,
            precision: self.precision,
            points: self.points,
            slots: region_slots(self.region@),
        }
    }
}

impl Archive {
    #[verifier::type_invariant]
    closed spec fn inv(&self) -> bool {
        &&& valid_archive(self@)
        &&& self.region@.len() == 12 * self.points
    }

    /// An archive over `region`. `None` when the shape is not valid, when the slots
    /// would end beyond a 32-bit offset, or when `region` has not twelve bytes for
    /// each point.
    pub fn new(offset: u32, precision: u32, points: u32, region: Vec<u8>) -> (r: Option<Archive>)
        ensures
            r is Some <==> {
                &&& valid_policy(RetentionPolicy { precision, points })
                &&& offset + 12 * points <= u32::MAX
                &&& region@.len() == 12 * points
            },
            r matches Some(a) ==> a@ == (ArchiveView {
                offset,
                precision,
                points,
                slots: region_slots(region@),
            }) && valid_archive(a@),
    {
        if precision == 0 || points == 0 {
            return None;
        }
        if RetentionPolicy::new(precision, points).retention() > 0xffff_ffff {
            return None;
        }
        let size: u64 = 12 * (points as u64);
        if offset as u64 + size > 0xffff_ffff || region.len() as u64 != size {
            return None;
        }
        Some(Archive { offset, precision, points, region })
    }

    /// Seconds per point.
    pub fn seconds_per_point(&self) -> (precision: u32)
        ensures
            precision == self@.precision,
            precision > 0,
    {
        proof {
            use_type_invariant(self);
        }
        self.precision
    }

    /// How many slots the archive has.
    pub fn points(&self) -> (points: u32)
        ensures
            points == self@.points,
            points > 0,
    {
        proof {
            use_type_invariant(self);
        }
        self.points
    }

    /// Where the archive begins in the file.
    pub fn offset(&self) -> (offset: u32)
        ensures
            offset == self@.offset,
    {
        self.offset
    }

    /// Bytes that the archive's slots occupy.
    pub fn size(&self) -> (size: usize)
        ensures
            size == 12 * self@.points,
    {
        proof {
            use_type_invariant(self);
        }
        self.region.len()
    }

    /// Seconds that the archive covers before it wraps.
    pub fn retention(&self) -> (r: u32)
        ensures
            r == self@.precision * self@.points,
    {
        proof {
            use_type_invariant(self);
        }
        RetentionPolicy::new(self.precision, self.points).retention() as u32
    }

    /// The bytes of the archive's slots.
    pub fn as_bytes(&self) -> (bytes: &[u8])
        ensures
            bytes@ == slots_region(self@.slots),
    {
        proof {
            use_type_invariant(self);
            lemma_region_round_trip(self.region@);
        }
        self.region.as_slice()
    }

    /// The content of slot `slot`; `None` when the archive has no such slot.
    pub fn read(&self, slot: usize) -> (p: Option<Point>)
        ensures
            p == if slot < self@.points {
                Some(self@.slots[slot as int])
            } else {
                None
            },
    {
        proof {
            use_type_invariant(self);
        }
        if slot >= self.points as usize {
            return None;
        }
        let at: usize = slot * POINT_SIZE;
        let bytes = slice_subrange(self.region.as_slice(), at, at + POINT_SIZE);
        Point::decode(bytes)
    }

    /// The slot that holds, or would now receive, the interval of `timestamp`.
    pub fn slot_for(&self, timestamp: u32) -> (slot: usize)
        ensures
            slot == slot_index(self@, timestamp as int),
            slot < self@.points,
    {
        proof {
            use_type_invariant(self);
        }
        let base = self.base();
        if base == 0 {
            0
        } else {
            slot_from(base, self.precision, self.points, timestamp) as usize
        }
    }

    /// The timestamp in slot 0, by which the other slots are placed.
    fn base(&self) -> (base: u32)
        ensures
            base == self@.slots[0].timestamp,
    {
        proof {
            use_type_invariant(self);
        }
        match self.read(0) {
            Some(p) => p.timestamp,
            None => 0,
        }
    }

    /// Whether a point of `timestamp` is older than what the archive retains at `now`.
    pub fn is_too_old(&self, timestamp: u32, now: u32) -> (old: bool)
        ensures
            old == too_old(self@, timestamp, now),
    {
        let kept = self.retention();
        now >= kept && timestamp < now - kept
    }

    /// Stores `point` in the slot of its interval, over whatever the slot held and
    /// whatever the age of the point.
    pub fn store(&mut self, point: &Point)
        ensures
            final(self)@ == stored(old(self)@, *point),
            valid_archive(final(self)@),
    {
        let (slot, bytes) = self.slot_bytes(point);
        self.place(slot, &bytes);
        assert(self@.slots =~= stored(old(self)@, *point).slots);
    }

    /// Where `point` is to go, and the twelve bytes that are to stand there.
    pub(crate) fn slot_bytes(&self, point: &Point) -> (r: (usize, Vec<u8>))
        ensures
            r.0 == slot_index(self@, point.timestamp as int),
            r.0 < self@.points,
            r.1@.len() == 12,
            bytes_point(r.1@) == stored(self@, *point).slots[r.0 as int],
            valid_archive(self@),
    {
        proof {
            use_type_invariant(self);
        }
        let slot = self.slot_for(point.timestamp);
        let kept = Point::new(align(point.timestamp, self.precision), point.value);
        proof {
            lemma_point_round_trip(kept);
        }
        (slot, kept.encode())
    }

    /// Puts the twelve bytes of a point into slot `slot`.
    pub(crate) fn place(&mut self, slot: usize, bytes: &Vec<u8>)
        requires
            slot < old(self)@.points,
            bytes@.len() == 12,
        ensures
            final(self)@ == (ArchiveView {
                slots: old(self)@.slots.update(slot as int, bytes_point(bytes@)),
                ..old(self)@
            }),
            valid_archive(final(self)@),
        no_unwind
    {
        proof {
            use_type_invariant(&*self);
        }
        let at: usize = slot * POINT_SIZE;
        let ghost before = self.region@;
        overwrite(&mut self.region, at, bytes);
        proof {
            let kept = bytes_point(bytes@);
            let after = self.region@;
            assert forall|i: int| 0 <= i < self.points implies #[trigger] region_slots(after)[i]
                == region_slots(before).update(slot as int, kept)[i] by {
                if i == slot {
                    assert(after.subrange(12 * i, 12 * i + 12) =~= bytes@);
                } else {
                    assert(after.subrange(12 * i, 12 * i + 12) =~= before.subrange(
                        12 * i,
                        12 * i + 12,
                    ));
                }
            }
            assert(region_slots(after) =~= region_slots(before).update(slot as int, kept));
        }
    }

    /// The values held for the `count` intervals that begin at `interval`, oldest
    /// first, without those for which the archive has no data.
    pub fn window(&self, interval: u32, count: u32) -> (values: Vec<u64>)
        ensures
            values@ == window_values(self@, interval as int, count as int),
    {
        proof {
            use_type_invariant(self);
        }
        let base = self.base();
        let mut values: Vec<u64> = Vec::new();
        let mut t: u64 = interval as u64;
        let mut k: u32 = 0;
        while k < count
            invariant
                self.inv(),
                base == self@.slots[0].timestamp,
                0 <= k <= count,
                t == interval + k * self.precision,
                values@ == window_values(self@, interval as int, k as int),
            decreases count - k,
        {
            if base != 0 && 0 < t && t <= 0xffff_ffff {
                let slot = slot_from(base, self.precision, self.points, t as u32) as usize;
                match self.read(slot) {
                    Some(p) => {
                        if p.timestamp as u64 == t {
                            values.push(p.value);
                        }
                    },
                    None => {},
                }
            }
            assert((k + 1) * self.precision == k * self.precision + self.precision)
                by (nonlinear_arith);
            assert(k * self.precision <= 0xffff_ffff * 0xffff_ffff) by (nonlinear_arith)
                requires
                    k <= 0xffff_ffff,
                    self.precision <= 0xffff_ffff,
            ;
            t = t + self.precision as u64;
            k = k + 1;
        }
        values
    }
}

} // verus!
