//! A whole file: its header and its archives, and the writing of points into it.

use crate::archive::{align, aligned, region_slots, slots_region, stored, too_old, valid_archive};
use crate::archive::{lemma_last_write_wins, lemma_stored_is_read_back, slot_index};
use crate::archive::{lemma_region_round_trip, lemma_slots_round_trip};
use crate::archive::{window_values, Archive, ArchiveView};
use crate::clock::now;
use crate::errors::{HeaderError, WriteError};
use crate::factor::{meets_factor, reaches_factor};
use crate::header::{archive_at, header_bytes, header_of, parse_header, policies_of};
use crate::header::{lemma_header_layout, lemma_parse_serialized, lemma_serialize_parsed};
use crate::header::valid_header;
use crate::header::{AggregationType, ArchiveInfo, Header, HeaderView};
use crate::point::{bytes_point, lemma_zero_point, Point};
use crate::schema::{archive_offset, lemma_regions_size_monotone, refines, regions_size};
use crate::schema::size_on_disk;
use crate::schema::{RetentionPolicy, Schema};
use vstd::pervasive::unreached;
use vstd::prelude::*;

verus! {

/// What a file is, apart from how it is laid out in bytes.
pub struct WhisperFileView {
    pub path: Seq<char>,
    pub header: HeaderView,
    pub archives: Seq<ArchiveView>,
}

/// `a` is the archive that `info` describes.
pub open spec fn describes(info: ArchiveInfo, a: ArchiveView) -> bool {
    &&& a.offset == info.offset
    &&& a.precision == info.precision
    &&& a.points == info.points
    &&& a.slots.len() == info.points
}

/// A file with a valid header whose archives are the ones that the header describes.
pub open spec fn valid_file(f: WhisperFileView) -> bool {
    &&& valid_header(f.header)
    &&& f.archives.len() == f.header.archive_infos.len()
    &&& forall|i: int|
        #![trigger f.archives[i]]
        #![trigger f.header.archive_infos[i]]
        0 <= i < f.archives.len() ==> describes(f.header.archive_infos[i], f.archives[i])
}

/// What a write leaves for the caller to do.
#[derive(Debug, PartialEq, Eq)]
pub enum Propagation {
    /// Nothing: every archive that the point reaches has been written.
    Settled,
    /// Archive `level` awaits the aggregate of `values`, to be stored for the
    /// interval that begins at `interval`. The values are those of the next finer
    /// archive within that interval, oldest first.
    Pending { level: usize, interval: u32, aggregation: AggregationType, values: Vec<u64> },
}

/// What a `Propagation` says.
pub enum PropagationView {
    Settled,
    Pending { level: int, interval: u32, aggregation: AggregationType, values: Seq<u64> },
}

impl View for Propagation {
    type V = PropagationView;

    open spec fn view(&self) -> PropagationView {
        match *self {
            Propagation::Settled => PropagationView::Settled,
            Propagation::Pending { level, interval, aggregation, values } => {
                PropagationView::Pending {
                    level: level as int,
                    interval,
                    aggregation,
                    values: values@,
                }
            },
        }
    }
}

/// The interval of the archive `coarse` in which `timestamp` lies, reckoned from
/// the interval of `fine` in which it lies.
pub open spec fn interval_above(fine: ArchiveView, coarse: ArchiveView, timestamp: u32) -> int {
    aligned(aligned(timestamp as int, fine.precision as int), coarse.precision as int)
}

/// How many intervals of `fine` make up one interval of `coarse`.
pub open spec fn intervals_within(fine: ArchiveView, coarse: ArchiveView) -> int {
    coarse.precision as int / fine.precision as int
}

/// The values that `fine` holds within the interval of `coarse` in which
/// `timestamp` lies, oldest first.
pub open spec fn values_within(fine: ArchiveView, coarse: ArchiveView, timestamp: u32) -> Seq<
    u64,
> {
    window_values(
        fine,
        interval_above(fine, coarse, timestamp),
        intervals_within(fine, coarse),
    )
}

/// Whether `known` values out of `total` intervals are enough to aggregate: at
/// least one, and a fraction of at least the factor.
pub open spec fn confident(known: nat, total: int, factor: u32) -> bool {
    known > 0 && meets_factor(known, total as nat, factor)
}

/// The archives after `p` was written to archive `level` and carried on into the
/// coarser ones, and what is left to do.
///
/// The point is stored in archive `level`. If there is a coarser archive and the
/// file has an aggregation method, the values that archive `level` holds within
/// the coarser interval of the point are gathered. If at least one is known and
/// the known ones are a large enough fraction of the interval, they are reduced
/// to one value, which is written to the coarser archive in the same way. The
/// method `Last` picks the newest value, and the writing goes on at once; any
/// other method needs arithmetic on the values, and is left pending.
pub open spec fn cascade(
    archives: Seq<ArchiveView>,
    aggregation: AggregationType,
    factor: u32,
    level: int,
    p: Point,
) -> (Seq<ArchiveView>, PropagationView)
    decreases archives.len() - level,
{
    let written = archives.update(level, stored(archives[level], p));
    if level < 0 || level + 1 >= archives.len() || aggregation == AggregationType::Unknown {
        (written, PropagationView::Settled)
    } else {
        let fine = written[level];
        let coarse = written[level + 1];
        let interval = interval_above(fine, coarse, p.timestamp) as u32;
        let values = values_within(fine, coarse, p.timestamp);
        if !confident(values.len(), intervals_within(fine, coarse), factor) {
            (written, PropagationView::Settled)
        } else if aggregation == AggregationType::Last {
            cascade(
                written,
                aggregation,
                factor,
                level + 1,
                Point { timestamp: interval, value: values.last() },
            )
        } else {
            (written, PropagationView::Pending { level: level + 1, interval, aggregation, values })
        }
    }
}

/// The file after `p` was written to archive `level` and carried on.
pub open spec fn written(f: WhisperFileView, level: int, p: Point) -> WhisperFileView {
    WhisperFileView {
        archives: cascade(
            f.archives,
            f.header.aggregation_type,
            f.header.x_files_factor,
            level,
            p,
        ).0,
        ..f
    }
}

/// What is left to do after `p` was written to archive `level` of `f`.
pub open spec fn pending(f: WhisperFileView, level: int, p: Point) -> PropagationView {
    cascade(f.archives, f.header.aggregation_type, f.header.x_files_factor, level, p).1
}

/// What a `write` at time `now` does to a file and returns: a point older than
/// what the finest archive retains is refused and the file left as it was; any
/// other point is written to the finest archive and carried on.
pub open spec fn wrote_at(
    before: WhisperFileView,
    p: Point,
    now: u32,
    after: WhisperFileView,
    r: Result<Propagation, WriteError>,
) -> bool {
    if too_old(before.archives[0], p.timestamp, now) {
        r == Err::<Propagation, WriteError>(WriteError::PointTooOld) && after == before
    } else {
        r is Ok && r->Ok_0@ == pending(before, 0, p) && after == written(before, 0, p)
    }
}

/// A newly laid out file: the header made for the schema, and no slot written.
pub open spec fn new_file(path: Seq<char>, s: Seq<RetentionPolicy>) -> WhisperFileView {
    let header = header_of(s);
    WhisperFileView {
        path,
        header,
        archives: Seq::new(
            s.len(),
            |i: int|
                ArchiveView {
                    offset: header.archive_infos[i].offset,
                    precision: s[i].precision,
                    points: s[i].points,
                    slots: Seq::new(s[i].points as nat, |j: int| Point { timestamp: 0, value: 0 }),
                },
        ),
    }
}

/// The archives that `infos` describe, with the slots that `b` holds for them.
pub open spec fn archives_at(b: Seq<u8>, infos: Seq<ArchiveInfo>) -> Seq<ArchiveView> {
    Seq::new(infos.len(), |i: int| archive_at(b, infos[i]))
}

/// The file that the image `b` holds, or why it holds none.
pub open spec fn open_file(path: Seq<char>, b: Seq<u8>) -> Result<WhisperFileView, HeaderError> {
    match parse_header(b) {
        Err(e) => Err(e),
        Ok(header) => if b.len() < size_on_disk(policies_of(header.archive_infos)) {
            Err(HeaderError::ShortFile)
        } else {
            Ok(WhisperFileView { path, header, archives: archives_at(b, header.archive_infos) })
        },
    }
}

/// The bytes of the first `n` archives, one after another.
pub open spec fn regions_bytes(archives: Seq<ArchiveView>, n: int) -> Seq<u8>
    decreases n,
{
    if n <= 0 {
        Seq::empty()
    } else {
        regions_bytes(archives, n - 1) + slots_region(archives[n - 1].slots)
    }
}

/// The image of a file: the header, then the archives.
pub open spec fn image(f: WhisperFileView) -> Seq<u8> {
    header_bytes(f.header) + regions_bytes(f.archives, f.archives.len() as int)
}

/// What each of `archives` is.
pub open spec fn views(archives: Seq<Archive>) -> Seq<ArchiveView> {
    Seq::new(archives.len(), |i: int| archives[i]@)
}

/// A window holds at most one value for each of its intervals.
pub proof fn lemma_window_len(a: ArchiveView, interval: int, count: int)
    requires
        0 <= count,
    ensures
        window_values(a, interval, count).len() <= count,
    decreases count,
{
    if count > 0 {
        lemma_window_len(a, interval, count - 1);
    }
}

/// A write into archive `level` leaves the finer archives as they were, stores the
/// point in archive `level`, and leaves every archive valid and of the shape it had.
pub proof fn lemma_cascade_shape(
    archives: Seq<ArchiveView>,
    aggregation: AggregationType,
    factor: u32,
    level: int,
    p: Point,
)
    requires
        0 <= level < archives.len(),
        forall|j: int| 0 <= j < archives.len() ==> valid_archive(#[trigger] archives[j]),
    ensures
        cascade(archives, aggregation, factor, level, p).0.len() == archives.len(),
        cascade(archives, aggregation, factor, level, p).0[level] == stored(archives[level], p),
        forall|j: int|
            0 <= j < level ==> #[trigger] cascade(archives, aggregation, factor, level, p).0[j]
                == archives[j],
        forall|j: int|
            #![trigger cascade(archives, aggregation, factor, level, p).0[j]]
            0 <= j < archives.len() ==> {
                let after = cascade(archives, aggregation, factor, level, p).0[j];
                &&& valid_archive(after)
                &&& after.offset == archives[j].offset
                &&& after.precision == archives[j].precision
                &&& after.points == archives[j].points
            },
    decreases archives.len() - level,
{
    let written = archives.update(level, stored(archives[level], p));
    lemma_stored_is_read_back(archives[level], p);
    assert forall|j: int| 0 <= j < written.len() implies valid_archive(#[trigger] written[j]) by {
        if j != level {
            assert(written[j] == archives[j]);
        }
    }
    if level + 1 < archives.len() && aggregation == AggregationType::Last {
        let fine = written[level];
        let coarse = written[level + 1];
        let values = values_within(fine, coarse, p.timestamp);
        if confident(values.len(), intervals_within(fine, coarse), factor) {
            let carried = Point {
                timestamp: interval_above(fine, coarse, p.timestamp) as u32,
                value: values.last(),
            };
            lemma_cascade_shape(written, aggregation, factor, level + 1, carried);
            let after = cascade(archives, aggregation, factor, level, p).0;
            assert(after == cascade(written, aggregation, factor, level + 1, carried).0);
            assert forall|j: int| 0 <= j < archives.len() implies {
                &&& valid_archive(#[trigger] after[j])
                &&& after[j].offset == archives[j].offset
                &&& after[j].precision == archives[j].precision
                &&& after[j].points == archives[j].points
            } by {
                assert(written[j].offset == archives[j].offset);
            }
        }
    }
}

/// A write leaves a valid file valid.
pub proof fn lemma_written_valid(f: WhisperFileView, level: int, p: Point)
    requires
        valid_file(f),
        0 <= level < f.archives.len(),
    ensures
        valid_file(written(f, level, p)),
{
    assert forall|j: int| 0 <= j < f.archives.len() implies valid_archive(
        #[trigger] f.archives[j],
    ) by {
        lemma_file_archive(f, j);
    }
    lemma_cascade_shape(
        f.archives,
        f.header.aggregation_type,
        f.header.x_files_factor,
        level,
        p,
    );
    let after = written(f, level, p);
    assert forall|i: int| 0 <= i < after.archives.len() implies describes(
        after.header.archive_infos[i],
        after.archives[i],
    ) by {
        assert(describes(f.header.archive_infos[i], f.archives[i]));
    }
}

/// After a write the finest archive is what it was, but for the stored point.
pub proof fn lemma_written_finest(f: WhisperFileView, p: Point)
    requires
        valid_file(f),
    ensures
        written(f, 0, p).archives[0] == stored(f.archives[0], p),
{
    assert forall|j: int| 0 <= j < f.archives.len() implies valid_archive(
        #[trigger] f.archives[j],
    ) by {
        lemma_file_archive(f, j);
    }
    lemma_header_layout(f.header, 0);
    lemma_cascade_shape(f.archives, f.header.aggregation_type, f.header.x_files_factor, 0, p);
}

/// A point written at the time of its own timestamp is accepted, and is read back
/// from the slot of its interval counted from the epoch, with the timestamp of
/// the interval and its own value, provided that this is the slot in which the
/// archive keeps the interval. It is so when the archive's base interval stands
/// at a multiple of the archive's retention.
pub proof fn lemma_write_now_read_back(f: WhisperFileView, p: Point, now: u32)
    requires
        valid_file(f),
        p.timestamp == now,
        slot_index(f.archives[0], now as int) == (now as int / f.archives[0].precision as int) % (
        f.archives[0].points as int),
    ensures
        !too_old(f.archives[0], p.timestamp, now),
        written(f, 0, p).archives[0].slots[(now as int / f.archives[0].precision as int) % (
        f.archives[0].points as int)] == (Point {
            timestamp: aligned(now as int, f.archives[0].precision as int) as u32,
            value: p.value,
        }),
{
    lemma_file_archive(f, 0);
    lemma_written_valid(f, 0, p);
    lemma_written_finest(f, p);
    lemma_stored_is_read_back(f.archives[0], p);
    assert(f.archives[0].precision * f.archives[0].points >= 0) by (nonlinear_arith);
}

/// Of two points written one after the other to the same slot of the finest
/// archive, the slot holds the second, whichever of the two is the older.
pub proof fn lemma_later_write_wins(f: WhisperFileView, first: Point, second: Point)
    requires
        valid_file(f),
        slot_index(written(f, 0, first).archives[0], second.timestamp as int) == slot_index(
            f.archives[0],
            first.timestamp as int,
        ),
    ensures
        written(written(f, 0, first), 0, second).archives[0].slots[slot_index(
            f.archives[0],
            first.timestamp as int,
        )] == (Point {
            timestamp: aligned(second.timestamp as int, f.archives[0].precision as int) as u32,
            value: second.value,
        }),
{
    lemma_file_archive(f, 0);
    lemma_written_finest(f, first);
    lemma_written_valid(f, 0, first);
    lemma_written_finest(written(f, 0, first), second);
    lemma_last_write_wins(f.archives[0], first, second);
}

/// Where the known values of an interval are a smaller fraction of it than the
/// factor asks for, a write goes no further: every coarser archive stays as it
/// was, so that a gap there stays a gap, and nothing is left pending.
pub proof fn lemma_sparse_interval_is_not_aggregated(f: WhisperFileView, level: int, p: Point)
    requires
        valid_file(f),
        0 <= level,
        level + 1 < f.archives.len(),
        !meets_factor(
            values_within(stored(f.archives[level], p), f.archives[level + 1], p.timestamp).len(),
            intervals_within(f.archives[level], f.archives[level + 1]) as nat,
            f.header.x_files_factor,
        ),
    ensures
        pending(f, level, p) == PropagationView::Settled,
        forall|j: int|
            level < j < f.archives.len() ==> #[trigger] written(f, level, p).archives[j]
                == f.archives[j],
{
}

/// Each archive of a valid file is valid, and each but the finest is refined by
/// the one before it.
pub proof fn lemma_file_archive(f: WhisperFileView, i: int)
    requires
        valid_file(f),
        0 <= i < f.archives.len(),
    ensures
        valid_archive(f.archives[i]),
        i > 0 ==> refines(
            RetentionPolicy {
                precision: f.archives[i - 1].precision,
                points: f.archives[i - 1].points,
            },
            RetentionPolicy { precision: f.archives[i].precision, points: f.archives[i].points },
        ),
{
    lemma_header_layout(f.header, i);
    let s = policies_of(f.header.archive_infos);
    assert(describes(f.header.archive_infos[i], f.archives[i]));
    if i > 0 {
        assert(describes(f.header.archive_infos[i - 1], f.archives[i - 1]));
        assert(refines(s[i - 1], s[i]));
    }
}

/// The first `n` archives of a valid file take the room that the layout gives them.
proof fn lemma_regions_len(f: WhisperFileView, n: int)
    requires
        valid_file(f),
        0 <= n <= f.archives.len(),
    ensures
        regions_bytes(f.archives, n).len() == regions_size(policies_of(f.header.archive_infos), n),
    decreases n,
{
    if n > 0 {
        lemma_regions_len(f, n - 1);
        assert(describes(f.header.archive_infos[n - 1], f.archives[n - 1]));
    }
}

/// Archive `i` of a valid file stands in the bytes of the first `n` archives where
/// the layout puts it.
proof fn lemma_region_in_regions(f: WhisperFileView, i: int, n: int)
    requires
        valid_file(f),
        0 <= i < n <= f.archives.len(),
    ensures
        regions_bytes(f.archives, n).subrange(
            regions_size(policies_of(f.header.archive_infos), i),
            regions_size(policies_of(f.header.archive_infos), i + 1),
        ) == slots_region(f.archives[i].slots),
    decreases n,
{
    let s = policies_of(f.header.archive_infos);
    lemma_regions_len(f, i);
    lemma_regions_len(f, i + 1);
    if n == i + 1 {
        assert(regions_bytes(f.archives, n).subrange(regions_size(s, i), regions_size(s, i + 1))
            =~= slots_region(f.archives[i].slots));
    } else {
        lemma_region_in_regions(f, i, n - 1);
        lemma_regions_len(f, n - 1);
        lemma_regions_size_monotone(s, i + 1, n - 1);
        assert(regions_bytes(f.archives, n).subrange(regions_size(s, i), regions_size(s, i + 1))
            =~= regions_bytes(f.archives, n - 1).subrange(
            regions_size(s, i),
            regions_size(s, i + 1),
        ));
    }
}

/// A valid file is read back from its image: the image has the size that the
/// layout gives the file, and opening it yields the file, header and slots.
pub proof fn lemma_open_image(f: WhisperFileView)
    requires
        valid_file(f),
    ensures
        image(f).len() == size_on_disk(policies_of(f.header.archive_infos)),
        open_file(f.path, image(f)) == Ok::<WhisperFileView, HeaderError>(f),
{
    let s = policies_of(f.header.archive_infos);
    let n = f.archives.len() as int;
    let b = image(f);
    let regions = regions_bytes(f.archives, n);
    lemma_parse_serialized(f.header, regions);
    lemma_regions_len(f, n);
    let opened = archives_at(b, f.header.archive_infos);
    assert forall|i: int| 0 <= i < n implies #[trigger] opened[i] == f.archives[i] by {
        let info = f.header.archive_infos[i];
        lemma_header_layout(f.header, i);
        assert(describes(info, f.archives[i]));
        lemma_region_in_regions(f, i, n);
        lemma_slots_round_trip(f.archives[i].slots);
        lemma_regions_size_monotone(s, i + 1, n);
        assert(b.subrange(info.offset as int, info.offset + 12 * info.points) =~= regions.subrange(
            regions_size(s, i),
            regions_size(s, i + 1),
        ));
    }
    assert(opened =~= f.archives);
}

/// The archives that an image holds, written out one after another, are the
/// bytes of the image behind its header.
proof fn lemma_regions_opened(b: Seq<u8>, infos: Seq<ArchiveInfo>, n: int)
    requires
        0 <= n <= infos.len(),
        forall|i: int|
            0 <= i < infos.len() ==> (#[trigger] infos[i]).offset == archive_offset(
                policies_of(infos),
                i,
            ),
        archive_offset(policies_of(infos), infos.len() as int) <= b.len(),
    ensures
        regions_bytes(archives_at(b, infos), n) == b.subrange(
            16 + 12 * (infos.len() as int),
            archive_offset(policies_of(infos), n),
        ),
    decreases n,
{
    let s = policies_of(infos);
    let archives = archives_at(b, infos);
    let start = 16 + 12 * (infos.len() as int);
    lemma_regions_size_monotone(s, 0, n);
    lemma_regions_size_monotone(s, n, infos.len() as int);
    if n == 0 {
        assert(regions_bytes(archives, n) =~= b.subrange(start, archive_offset(s, n)));
    } else {
        lemma_regions_opened(b, infos, n - 1);
        lemma_regions_size_monotone(s, 0, n - 1);
        let info = infos[n - 1];
        let from = archive_offset(s, n - 1);
        let to = archive_offset(s, n);
        assert(info.offset == from);
        assert(to == from + 12 * info.points);
        let region = b.subrange(from, to);
        lemma_region_round_trip(region);
        assert(archives[n - 1].slots == region_slots(region));
        assert(regions_bytes(archives, n) == regions_bytes(archives, n - 1) + region);
        assert(b.subrange(start, from) + region =~= b.subrange(start, to));
    }
}

proof fn lemma_image_parts(path: Seq<char>, b: Seq<u8>, h: HeaderView)
    requires
        valid_header(h),
        size_on_disk(policies_of(h.archive_infos)) <= b.len(),
        header_bytes(h) == b.subrange(0, 16 + 12 * (h.archive_infos.len() as int)),
    ensures
        image(WhisperFileView { path, header: h, archives: archives_at(b, h.archive_infos) })
            == b.subrange(0, size_on_disk(policies_of(h.archive_infos))),
{
    let infos = h.archive_infos;
    let s = policies_of(infos);
    let n = infos.len() as int;
    let archives = archives_at(b, infos);
    assert forall|i: int| 0 <= i < infos.len() implies (#[trigger] infos[i]).offset
        == archive_offset(s, i) by {
        lemma_header_layout(h, i);
    }
    lemma_regions_opened(b, infos, n);
    lemma_regions_size_monotone(s, 0, n);
    assert(b.subrange(0, 16 + 12 * n) + b.subrange(16 + 12 * n, size_on_disk(s)) =~= b.subrange(
        0,
        size_on_disk(s),
    ));
}

/// A file that was opened from an image has that image, as far as the file goes:
/// a file and its bytes stand for each other.
pub proof fn lemma_image_opened(path: Seq<char>, b: Seq<u8>)
    requires
        open_file(path, b) is Ok,
    ensures
        image(open_file(path, b)->Ok_0) == b.subrange(
            0,
            size_on_disk(policies_of(open_file(path, b)->Ok_0.header.archive_infos)),
        ),
{
    lemma_serialize_parsed(b);
    lemma_image_parts(path, b, parse_header(b)->Ok_0);
}

/// An open file: its path, its header and its archives, finest first. Every value
/// of this type is a valid file.
#[derive(Debug, PartialEq, Eq)]
pub struct WhisperFile {
    path: String,
    header: Header,
    archives: Vec<Archive>,
}

impl View for WhisperFile {
    type V = WhisperFileView;

    closed spec fn view(&self) -> WhisperFileView {
        WhisperFileView {
            path: self.path@,
            header: self.header@,
            archives: views(self.archives@),
        }
    }
}

impl WhisperFile {
    #[verifier::type_invariant]
    pub open spec fn wf(&self) -> bool {
        valid_file(self@)
    }

    /// A file newly laid out for `schema`, with no point in it.
    pub fn new(path: String, schema: &Schema) -> (file: WhisperFile)
        ensures
            file@ == new_file(path@, schema@),
            valid_file(file@),
    {
        proof {
            use_type_invariant(schema);
        }
        let ghost s = schema@;
        let header = Header::new(schema);
        let infos = header.archive_infos();
        let n = infos.len();
        let mut archives: Vec<Archive> = Vec::new();
        let mut i: usize = 0;
        while i < n
            invariant
                valid_header(header@),
                header@ == header_of(s),
                infos@ == header@.archive_infos,
                n == infos@.len(),
                n == s.len(),
                0 <= i <= n,
                archives@.len() == i,
                forall|k: int|
                    0 <= k < i ==> (#[trigger] archives@[k])@ == new_file(path@, s).archives[k],
            decreases n - i,
        {
            let info = infos[i];
            proof {
                lemma_header_layout(header@, i as int);
            }
            let region: Vec<u8> = vec![0u8; 12 * (info.points as usize)];
            proof {
                let zero = Point { timestamp: 0, value: 0 };
                assert forall|j: int| 0 <= j < info.points implies #[trigger] region_slots(
                    region@,
                )[j] == zero by {
                    lemma_zero_point(region@.subrange(12 * j, 12 * j + 12));
                }
                assert(region_slots(region@) =~= Seq::new(info.points as nat, |j: int| zero));
            }
            match Archive::new(info.offset, info.precision, info.points, region) {
                Some(archive) => {
                    archives.push(archive);
                },
                None => {
                    unreached::<()>();
                },
            }
            i = i + 1;
        }
        assert(views(archives@) =~= new_file(path@, s).archives);
        WhisperFile { path, header, archives }
    }

    /// The file that the image `bytes` holds. Fails when the header is cut short
    /// or malformed, and when the image ends before the last archive does; bytes
    /// behind the last archive are passed over.
    pub fn open(path: String, bytes: &[u8]) -> (r: Result<WhisperFile, HeaderError>)
        ensures
            match r {
                Ok(file) => open_file(path@, bytes@) == Ok::<WhisperFileView, HeaderError>(file@),
                Err(e) => open_file(path@, bytes@) == Err::<WhisperFileView, HeaderError>(e),
            },
    {
        let header = match Header::new_from_slice(bytes) {
            Ok(header) => header,
            Err(e) => {
                return Err(e);
            },
        };
        let archives = match header.mmap_to_archives(bytes) {
            Ok(archives) => archives,
            Err(e) => {
                return Err(e);
            },
        };
        proof {
            use_type_invariant(&header);
            assert(views(archives@) =~= archives_at(bytes@, header@.archive_infos));
            assert forall|i: int| 0 <= i < archives@.len() implies describes(
                header@.archive_infos[i],
                #[trigger] views(archives@)[i],
            ) by {
                lemma_header_layout(header@, i);
            }
        }
        Ok(WhisperFile { path, header, archives })
    }

    /// The path that the file was opened under.
    pub fn path(&self) -> (path: &String)
        ensures
            path@ == self@.path,
    {
        &self.path
    }

    /// The header of the file.
    pub fn header(&self) -> (header: &Header)
        ensures
            header@ == self@.header,
    {
        &self.header
    }

    /// The archives of the file, finest first.
    pub fn archives(&self) -> (archives: &Vec<Archive>)
        ensures
            views(archives@) == self@.archives,
            valid_file(self@),
    {
        proof {
            use_type_invariant(self);
        }
        &self.archives
    }

    /// The image of the file: what a file on disk holds when it is in this state.
    pub fn to_bytes(&self) -> (out: Vec<u8>)
        ensures
            out@ == image(self@),
    {
        let mut out = self.header.serialize();
        let n = self.archives.len();
        let ghost front = out@;
        let mut i: usize = 0;
        while i < n
            invariant
                n == self.archives@.len(),
                0 <= i <= n,
                front == header_bytes(self@.header),
                out@ == front + regions_bytes(self@.archives, i as int),
            decreases n - i,
        {
            out.extend_from_slice(self.archives[i].as_bytes());
            i = i + 1;
        }
        out
    }

    /// Writes `point` at the current time, as `write_at` does at a given time.
    pub fn write(&mut self, point: &Point) -> (r: Result<Propagation, WriteError>)
        ensures
            exists|now: u32| #[trigger] wrote_at(old(self)@, *point, now, final(self)@, r),
    {
        let now = now();
        let r = self.write_at(point, now);
        assert(wrote_at(old(self)@, *point, now, self@, r));
        r
    }

    /// Writes `point` to the finest archive and carries it on into the coarser
    /// ones, unless at time `now` it is older than what the finest archive retains.
    pub fn write_at(&mut self, point: &Point, now: u32) -> (r: Result<Propagation, WriteError>)
        ensures
            wrote_at(old(self)@, *point, now, final(self)@, r),
    {
        proof {
            use_type_invariant(&*self);
            lemma_header_layout(self@.header, 0);
        }
        if self.archives[0].is_too_old(point.timestamp, now) {
            return Err(WriteError::PointTooOld);
        }
        Ok(self.carry(0, *point))
    }

    /// Stores the aggregate `value` that archive `level` awaited for `interval`, and
    /// carries it on. Fails, and writes nothing, when `level` is not a coarser
    /// archive of the file.
    pub fn propagate(&mut self, level: usize, interval: u32, value: u64) -> (r: Result<
        Propagation,
        WriteError,
    >)
        ensures
            match r {
                Ok(step) => {
                    &&& 0 < level < old(self)@.archives.len()
                    &&& step@ == pending(
                        old(self)@,
                        level as int,
                        Point { timestamp: interval, value },
                    )
                    &&& final(self)@ == written(
                        old(self)@,
                        level as int,
                        Point { timestamp: interval, value },
                    )
                },
                Err(e) => {
                    &&& e == WriteError::NoSuchArchive
                    &&& !(0 < level < old(self)@.archives.len())
                    &&& final(self)@ == old(self)@
                },
            },
    {
        if level == 0 || level >= self.archives.len() {
            return Err(WriteError::NoSuchArchive);
        }
        Ok(self.carry(level, Point::new(interval, value)))
    }

    /// Writes `point` to archive `level` and carries it on.
    fn carry(&mut self, level: usize, point: Point) -> (step: Propagation)
        requires
            level < old(self)@.archives.len(),
        ensures
            step@ == pending(old(self)@, level as int, point),
            final(self)@ == written(old(self)@, level as int, point),
    {
        let aggregation = self.header.aggregation_type();
        let factor = self.header.x_files_factor();
        let n = self.archives.len();
        let ghost goal = cascade(old(self)@.archives, aggregation, factor, level as int, point);
        let mut at = level;
        let mut carried = point;
        loop
            invariant
                n == self@.archives.len(),
                at < n,
                self@.path == old(self)@.path,
                self@.header == old(self)@.header,
                aggregation == self@.header.aggregation_type,
                factor == self@.header.x_files_factor,
                cascade(self@.archives, aggregation, factor, at as int, carried) == goal,
                goal.0 == written(old(self)@, level as int, point).archives,
                goal.1 == pending(old(self)@, level as int, point),
            decreases n - at,
        {
            self.put(at, &carried);
            if at + 1 >= n || aggregation == AggregationType::Unknown {
                return Propagation::Settled;
            }
            let (interval, values, enough) = self.gather(at, carried.timestamp);
            if !enough {
                return Propagation::Settled;
            }
            match aggregation {
                AggregationType::Last => {
                    carried = Point::new(interval, values[values.len() - 1]);
                    at = at + 1;
                },
                _ => {
                    return Propagation::Pending { level: at + 1, interval, aggregation, values };
                },
            }
        }
    }

    /// Stores `point` in archive `level`.
    fn put(&mut self, level: usize, point: &Point)
        requires
            level < old(self)@.archives.len(),
        ensures
            final(self)@ == (WhisperFileView {
                archives: old(self)@.archives.update(
                    level as int,
                    stored(old(self)@.archives[level as int], *point),
                ),
                ..old(self)@
            }),
    {
        proof {
            use_type_invariant(&*self);
        }
        let (slot, bytes) = self.archives[level].slot_bytes(point);
        place_in(&mut self.archives, level, slot, &bytes);
    }

    /// What archive `level` holds within the interval of the next coarser archive
    /// in which `timestamp` lies: where that interval begins, the known values, and
    /// whether they are enough to aggregate.
    fn gather(&self, level: usize, timestamp: u32) -> (r: (u32, Vec<u64>, bool))
        requires
            level + 1 < self@.archives.len(),
        ensures
            r.0 == interval_above(
                self@.archives[level as int],
                self@.archives[level + 1],
                timestamp,
            ),
            r.1@ == values_within(
                self@.archives[level as int],
                self@.archives[level + 1],
                timestamp,
            ),
            r.2 == confident(
                r.1@.len(),
                intervals_within(self@.archives[level as int], self@.archives[level + 1]),
                self@.header.x_files_factor,
            ),
    {
        let n = self.archives.len();
        assert(n == self@.archives.len());
        let fine = &self.archives[level];
        let coarse = &self.archives[level + 1];
        let factor = self.header.x_files_factor();
        let interval = align(
            align(timestamp, fine.seconds_per_point()),
            coarse.seconds_per_point(),
        );
        let total: u32 = coarse.seconds_per_point() / fine.seconds_per_point();
        let values = fine.window(interval, total);
        proof {
            lemma_window_len(fine@, interval as int, total as int);
        }
        let known: usize = values.len();
        let enough = known > 0 && reaches_factor(known as u32, total, factor);
        (interval, values, enough)
    }
}

/// Puts the twelve bytes of a point into slot `slot` of archive `level`.
fn place_in(archives: &mut Vec<Archive>, level: usize, slot: usize, bytes: &Vec<u8>)
    requires
        level < old(archives)@.len(),
        slot < old(archives)@[level as int]@.points,
        bytes@.len() == 12,
    ensures
        views(final(archives)@) == views(old(archives)@).update(
            level as int,
            ArchiveView {
                slots: old(archives)@[level as int]@.slots.update(
                    slot as int,
                    bytes_point(bytes@),
                ),
                ..old(archives)@[level as int]@
            },
        ),
    no_unwind
{
    archives[level].place(slot, bytes);
    assert(views(archives@) =~= views(old(archives)@).update(
        level as int,
        ArchiveView {
            slots: old(archives)@[level as int]@.slots.update(slot as int, bytes_point(bytes@)),
            ..old(archives)@[level as int]@
        },
    ));
}

} // verus!
