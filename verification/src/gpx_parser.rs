//! From a GPX document to the summary of its route.

use vstd::prelude::*;

use crate::binary64::Binary64;
use crate::elevation::{elevation_gain_loss, elevation_range, elevations, gain_and_loss, highest, lowest};
use crate::gpx_time::{convertible_times, has_convertible_times};
use crate::license::{first_occurrence, has_empty_license, no_tag_no_empty_license, opening_tag, remove_empty_license_elements, without_empty_licenses};
use crate::types::{RoutePoint, RouteSummary, MAX_LATITUDE_BITS, MAX_LONGITUDE_BITS};

verus! {

/// Why a document could not be read.
#[derive(Clone, Copy, Debug, PartialEq, Eq, Structural)]
pub enum GpxFailure {
    /// An element that must hold text is empty.
    NoStringContent,
    /// Universal time has no date for a time of the document.
    TimeOutOfRange,
    /// Any other defect.
    Malformed,
}

/// Why a document gives no route.
#[derive(Clone, Copy, Debug, PartialEq, Eq, Structural)]
pub enum RouteError {
    /// The document cannot be read.
    InvalidDocument,
    /// The tracks hold fewer than two points.
    TooFewPoints,
}

/// Whether latitude and longitude are numbers within the bounds of the globe.
pub open spec fn on_globe(point: RoutePoint) -> bool {
    &&& !point.lat.nan() && !point.lon.nan()
    &&& -MAX_LATITUDE_BITS <= point.lat.rank() <= MAX_LATITUDE_BITS
    &&& -MAX_LONGITUDE_BITS <= point.lon.rank() < MAX_LONGITUDE_BITS
}

/// The points of the segments of the tracks.
pub open spec fn tracks_view(tracks: Vec<Vec<Vec<RoutePoint>>>) -> Seq<Seq<Seq<RoutePoint>>> {
    tracks@.map_values(
        |track: Vec<Vec<RoutePoint>>| track@.map_values(|segment: Vec<RoutePoint>| segment@),
    )
}

/// What `gpx::read` makes of a document: the points of each segment of each
/// track, with latitude, longitude and elevation by their bit patterns.
pub uninterp spec fn gpx_document(bytes: Seq<u8>) -> Result<Seq<Seq<Seq<RoutePoint>>>, GpxFailure>;

/// Whether `document` is what `read` says was read of a document.
pub open spec fn holds_document(
    document: Result<Vec<Vec<Vec<RoutePoint>>>, GpxFailure>,
    read: Result<Seq<Seq<Seq<RoutePoint>>>, GpxFailure>,
) -> bool {
    match document {
        Ok(tracks) => {
            &&& read == Ok::<Seq<Seq<Seq<RoutePoint>>>, GpxFailure>(tracks_view(tracks))
            &&& forall|t: int, s: int, p: int|
                0 <= t < tracks@.len() && 0 <= s < tracks@[t]@.len() && 0 <= p
                    < tracks@[t]@[s]@.len() ==> on_globe(#[trigger] tracks@[t]@[s]@[p])
        },
        Err(failure) => read == Err::<Seq<Seq<Seq<RoutePoint>>>, GpxFailure>(failure),
    }
}

/// Calls `gpx::read` on the bytes.
///
/// The result is a function of the bytes alone. Of a document that is read,
/// every point has a latitude from -90 to 90 degrees and a longitude from -180
/// up to but not including 180 degrees, since `gpx::read` rejects the others.
/// How a document is parsed beyond that is left unsaid.
///
/// `gpx::read` goes through the parts that `xml::EventReader` finds, reads the text of
/// each time as `time::OffsetDateTime::parse` does and moves it to universal time. It
/// panics where universal time has no date for it, so no such time may be read.
#[verifier::external_body]
fn read_gpx(bytes: &[u8]) -> (document: Result<Vec<Vec<Vec<RoutePoint>>>, GpxFailure>)
    requires
        convertible_times(bytes@),
    ensures
        holds_document(document, gpx_document(bytes@)),
{
    let point = |p: gpx::Waypoint| RoutePoint {
        lat: Binary64 { bits: p.point().y().to_bits() },
        lon: Binary64 { bits: p.point().x().to_bits() },
        ele: p.elevation.map(|e| Binary64 { bits: e.to_bits() }),
    };
    let segment = |s: gpx::TrackSegment| s.points.into_iter().map(point).collect();
    match gpx::read(std::io::Cursor::new(bytes)) {
        Ok(document) => Ok(
            document.tracks.into_iter().map(|t| t.segments.into_iter().map(segment).collect()).collect(),
        ),
        Err(gpx::errors::GpxError::NoStringContent) => Err(GpxFailure::NoStringContent),
        Err(_) => Err(GpxFailure::Malformed),
    }
}

/// What is read of a document: nothing where universal time has no date for one of
/// its times.
pub open spec fn readable_document(bytes: Seq<u8>) -> Result<
    Seq<Seq<Seq<RoutePoint>>>,
    GpxFailure,
> {
    if convertible_times(bytes) {
        gpx_document(bytes)
    } else {
        Err(GpxFailure::TimeOutOfRange)
    }
}

/// What is read of a document when empty `license` elements are tolerated.
pub open spec fn tolerated_document(bytes: Seq<u8>) -> Result<
    Seq<Seq<Seq<RoutePoint>>>,
    GpxFailure,
> {
    match readable_document(bytes) {
        Err(GpxFailure::NoStringContent) => if has_empty_license(bytes, 0) {
            readable_document(without_empty_licenses(bytes, 0))
        } else {
            Err(GpxFailure::NoStringContent)
        },
        document => document,
    }
}

/// The tolerance changes nothing for a document that can be read as it is, for one
/// that fails for another reason, and for one without a `license` element.
pub proof fn tolerance_changes_only_empty_licenses(bytes: Seq<u8>)
    ensures
        readable_document(bytes) != Err::<Seq<Seq<Seq<RoutePoint>>>, GpxFailure>(
            GpxFailure::NoStringContent,
        ) ==> tolerated_document(bytes) == readable_document(bytes),
        first_occurrence(bytes, opening_tag(), 0) is None ==> tolerated_document(bytes)
            == readable_document(bytes),
{
    if first_occurrence(bytes, opening_tag(), 0) is None {
        no_tag_no_empty_license(bytes);
    }
}

/// Reads a document unless universal time has no date for one of its times.
fn read_gpx_within_calendar(bytes: &[u8]) -> (document: Result<
    Vec<Vec<Vec<RoutePoint>>>,
    GpxFailure,
>)
    ensures
        holds_document(document, readable_document(bytes@)),
{
    if has_convertible_times(bytes) {
        read_gpx(bytes)
    } else {
        Err(GpxFailure::TimeOutOfRange)
    }
}

/// Reads a document; where it fails for want of text, reads it once more without
/// its empty `license` elements.
fn read_gpx_tolerating_empty_metadata(bytes: &[u8]) -> (document: Result<
    Vec<Vec<Vec<RoutePoint>>>,
    GpxFailure,
>)
    ensures
        holds_document(document, tolerated_document(bytes@)),
{
    match read_gpx_within_calendar(bytes) {
        Err(GpxFailure::NoStringContent) => match remove_empty_license_elements(bytes) {
            Some(normalized) => read_gpx_within_calendar(normalized.as_slice()),
            None => Err(GpxFailure::NoStringContent),
        },
        document => document,
    }
}

/// The points of some segments, one segment after the other.
pub open spec fn segment_points(segments: Seq<Seq<RoutePoint>>) -> Seq<RoutePoint>
    decreases segments.len(),
{
    if segments.len() == 0 {
        Seq::empty()
    } else {
        segment_points(segments.drop_last()) + segments.last()
    }
}

/// The points of all tracks, one track after the other.
pub open spec fn track_points(tracks: Seq<Seq<Seq<RoutePoint>>>) -> Seq<RoutePoint>
    decreases tracks.len(),
{
    if tracks.len() == 0 {
        Seq::empty()
    } else {
        track_points(tracks.drop_last()) + segment_points(tracks.last())
    }
}

/// Collects the points of all tracks in document order.
fn collect_points(tracks: &Vec<Vec<Vec<RoutePoint>>>) -> (points: Vec<RoutePoint>)
    ensures
        points@ == track_points(tracks_view(*tracks)),
{
    let ghost all = tracks_view(*tracks);
    let mut points: Vec<RoutePoint> = Vec::new();
    let mut t: usize = 0;
    while t < tracks.len()
        invariant
            t <= tracks@.len(),
            all == tracks_view(*tracks),
            points@ == track_points(all.take(t as int)),
        decreases tracks@.len() - t,
    {
        let track = &tracks[t];
        let ghost segments = all[t as int];
        let ghost start = points@;
        let mut s: usize = 0;
        assert(points@ =~= start + segment_points(segments.take(0)));
        while s < track.len()
            invariant
                s <= track@.len(),
                segments == track@.map_values(|segment: Vec<RoutePoint>| segment@),
                points@ == start + segment_points(segments.take(s as int)),
            decreases track@.len() - s,
        {
            points.extend_from_slice(track[s].as_slice());
            assert(segments.take(s + 1).drop_last() =~= segments.take(s as int));
            assert(segments.take(s + 1).last() == track@[s as int]@);
            assert(points@ =~= start + segment_points(segments.take(s + 1)));
            s = s + 1;
        }
        assert(segments.take(segments.len() as int) =~= segments);
        assert(all.take(t + 1).drop_last() =~= all.take(t as int));
        t = t + 1;
    }
    assert(all.take(all.len() as int) =~= all);
    points
}

/// Whether `totals` are the distances along the points: none at the first point,
/// and at each other point what `advance` gives for the leg that leads there.
pub open spec fn distance_trace<D>(
    advance: D,
    points: Seq<RoutePoint>,
    totals: Seq<Binary64>,
) -> bool where D: Fn(Binary64, RoutePoint, RoutePoint) -> Binary64 {
    &&& totals.len() == if points.len() == 0 {
        1
    } else {
        points.len()
    }
    &&& totals[0] == Binary64::spec_zero()
    &&& forall|i: int|
        0 <= i < points.len() - 1 ==> call_ensures(
            advance,
            (totals[i], points[i], points[i + 1]),
            #[trigger] totals[i + 1],
        )
}

/// Whether `distance` is the length of the way through the points.
pub open spec fn way_length<D>(
    advance: D,
    points: Seq<RoutePoint>,
    distance: Binary64,
) -> bool where D: Fn(Binary64, RoutePoint, RoutePoint) -> Binary64 {
    exists|totals: Seq<Binary64>|
        #[trigger] distance_trace(advance, points, totals) && distance == totals.last()
}

/// Whether `summary` is the summary of the points.
pub open spec fn summarizes<D, R, A>(
    advance: D,
    reaches: R,
    accumulate: A,
    points: Seq<RoutePoint>,
    summary: RouteSummary,
) -> bool where
    D: Fn(Binary64, RoutePoint, RoutePoint) -> Binary64,
    R: Fn(Binary64, Binary64, Binary64) -> bool,
    A: Fn(Binary64, Binary64, Binary64) -> Binary64,
 {
    &&& summary.points@ == points
    &&& way_length(advance, points, summary.distance_m)
    &&& gain_and_loss(
        reaches,
        accumulate,
        elevations(points),
        summary.elevation_gain_m,
        summary.elevation_loss_m,
    )
    &&& summary.min_elevation_m == lowest(points)
    &&& summary.max_elevation_m == highest(points)
}

fn measure_way<D>(points: &Vec<RoutePoint>, advance: &D) -> (distance: Binary64) where
    D: Fn(Binary64, RoutePoint, RoutePoint) -> Binary64,

    requires
        forall|d: Binary64, a: RoutePoint, b: RoutePoint| call_requires(*advance, (d, a, b)),
    ensures
        way_length(*advance, points@, distance),
{
    let mut distance = Binary64::zero();
    let ghost mut totals: Seq<Binary64> = seq![distance];
    let mut i: usize = 1;
    while i < points.len()
        invariant
            1 <= i,
            points@.len() == 0 ==> i == 1,
            points@.len() > 0 ==> i <= points@.len(),
            forall|d: Binary64, a: RoutePoint, b: RoutePoint| call_requires(*advance, (d, a, b)),
            totals.len() == i,
            totals[0] == Binary64::spec_zero(),
            distance == totals.last(),
            forall|k: int|
                0 <= k < i - 1 ==> call_ensures(
                    *advance,
                    (totals[k], points@[k], points@[k + 1]),
                    #[trigger] totals[k + 1],
                ),
        decreases points@.len() - i,
    {
        distance = advance(distance, points[i - 1], points[i]);
        proof {
            totals = totals.push(distance);
        }
        i = i + 1;
    }
    assert(distance_trace(*advance, points@, totals));
    distance
}

/// Summarises a route.
///
/// The arithmetic is the caller's: `advance(total, a, b)` adds the distance from
/// `a` to `b`; `reaches` and `accumulate` serve the elevation.
pub fn summarize_route<D, R, A>(
    points: Vec<RoutePoint>,
    advance: &D,
    reaches: &R,
    accumulate: &A,
) -> (summary: RouteSummary) where
    D: Fn(Binary64, RoutePoint, RoutePoint) -> Binary64,
    R: Fn(Binary64, Binary64, Binary64) -> bool,
    A: Fn(Binary64, Binary64, Binary64) -> Binary64,

    requires
        forall|d: Binary64, a: RoutePoint, b: RoutePoint| call_requires(*advance, (d, a, b)),
        forall|a: Binary64, b: Binary64, c: Binary64| call_requires(*reaches, (a, b, c)),
        forall|a: Binary64, b: Binary64, c: Binary64| call_requires(*accumulate, (a, b, c)),
    ensures
        summarizes(*advance, *reaches, *accumulate, points@, summary),
{
    let (min_elevation_m, max_elevation_m) = elevation_range(&points);
    let distance_m = measure_way(&points, advance);
    let (elevation_gain_m, elevation_loss_m) = elevation_gain_loss(&points, reaches, accumulate);
    RouteSummary {
        distance_m,
        elevation_gain_m,
        elevation_loss_m,
        min_elevation_m,
        max_elevation_m,
        points,
    }
}

/// The route that the tracks of a document describe.
pub fn route_from_tracks<D, R, A>(
    tracks: &Vec<Vec<Vec<RoutePoint>>>,
    advance: &D,
    reaches: &R,
    accumulate: &A,
) -> (route: Result<RouteSummary, RouteError>) where
    D: Fn(Binary64, RoutePoint, RoutePoint) -> Binary64,
    R: Fn(Binary64, Binary64, Binary64) -> bool,
    A: Fn(Binary64, Binary64, Binary64) -> Binary64,

    requires
        forall|d: Binary64, a: RoutePoint, b: RoutePoint| call_requires(*advance, (d, a, b)),
        forall|a: Binary64, b: Binary64, c: Binary64| call_requires(*reaches, (a, b, c)),
        forall|a: Binary64, b: Binary64, c: Binary64| call_requires(*accumulate, (a, b, c)),
    ensures
        match route {
            Ok(summary) => {
                &&& track_points(tracks_view(*tracks)).len() >= 2
                &&& summarizes(
                    *advance,
                    *reaches,
                    *accumulate,
                    track_points(tracks_view(*tracks)),
                    summary,
                )
            },
            Err(error) => error == RouteError::TooFewPoints && track_points(
                tracks_view(*tracks),
            ).len() < 2,
        },
        route is Ok <==> points_in_tracks(tracks@, tracks@.len() as int) >= 2,
        route matches Ok(summary) ==> {
            &&& summary.points@.len() == points_in_tracks(tracks@, tracks@.len() as int)
            &&& forall|t: int, s: int, p: int|
                0 <= t < tracks@.len() && 0 <= s < tracks@[t]@.len() && 0 <= p
                    < tracks@[t]@[s]@.len() ==> summary.points@[point_index(
                    tracks@,
                    t,
                    s,
                    p,
                )] == #[trigger] tracks@[t]@[s]@[p]
        },
{
    proof {
        every_point_is_read(*tracks);
        assert forall|t: int, s: int, p: int|
            0 <= t < tracks@.len() && 0 <= s < tracks@[t]@.len() && 0 <= p
                < tracks@[t]@[s]@.len() implies track_points(tracks_view(*tracks))[point_index(
            tracks@,
            t,
            s,
            p,
        )] == #[trigger] tracks@[t]@[s]@[p] by {
            points_are_read_in_order(*tracks, t, s, p);
        }
    }
    let points = collect_points(tracks);
    if points.len() < 2 {
        return Err(RouteError::TooFewPoints);
    }
    Ok(summarize_route(points, advance, reaches, accumulate))
}

/// The route that a GPX document describes.
///
/// A document with empty `license` elements is read as if they were not there. One
/// with a time that universal time has no date for is not read.
pub fn parse_gpx_route<D, R, A>(
    bytes: &[u8],
    advance: &D,
    reaches: &R,
    accumulate: &A,
) -> (route: Result<RouteSummary, RouteError>) where
    D: Fn(Binary64, RoutePoint, RoutePoint) -> Binary64,
    R: Fn(Binary64, Binary64, Binary64) -> bool,
    A: Fn(Binary64, Binary64, Binary64) -> Binary64,

    requires
        forall|d: Binary64, a: RoutePoint, b: RoutePoint| call_requires(*advance, (d, a, b)),
        forall|a: Binary64, b: Binary64, c: Binary64| call_requires(*reaches, (a, b, c)),
        forall|a: Binary64, b: Binary64, c: Binary64| call_requires(*accumulate, (a, b, c)),
    ensures
        match tolerated_document(bytes@) {
            Err(_) => route == Err::<RouteSummary, RouteError>(RouteError::InvalidDocument),
            Ok(tracks) => if track_points(tracks).len() < 2 {
                route == Err::<RouteSummary, RouteError>(RouteError::TooFewPoints)
            } else {
                &&& route is Ok
                &&& summarizes(*advance, *reaches, *accumulate, track_points(tracks), route->Ok_0)
                &&& forall|i: int|
                    0 <= i < route->Ok_0.points@.len() ==> on_globe(
                        #[trigger] route->Ok_0.points@[i],
                    )
            },
        },
{
    match read_gpx_tolerating_empty_metadata(bytes) {
        Err(_) => Err(RouteError::InvalidDocument),
        Ok(tracks) => {
            proof {
                lemma_points_on_globe(tracks);
            }
            route_from_tracks(&tracks, advance, reaches, accumulate)
        },
    }
}

proof fn lemma_segment_points_on_globe(segments: Seq<Seq<RoutePoint>>)
    requires
        forall|s: int, p: int|
            0 <= s < segments.len() && 0 <= p < segments[s].len() ==> on_globe(
                #[trigger] segments[s][p],
            ),
    ensures
        forall|i: int|
            0 <= i < segment_points(segments).len() ==> on_globe(
                #[trigger] segment_points(segments)[i],
            ),
    decreases segments.len(),
{
    if segments.len() > 0 {
        let rest = segments.drop_last();
        assert forall|s: int, p: int|
            0 <= s < rest.len() && 0 <= p < rest[s].len() implies on_globe(
            #[trigger] rest[s][p],
        ) by {
            assert(on_globe(segments[s][p]));
        }
        lemma_segment_points_on_globe(rest);
        assert forall|i: int| 0 <= i < segment_points(segments).len() implies on_globe(
            #[trigger] segment_points(segments)[i],
        ) by {
            if i >= segment_points(rest).len() {
                let p = i - segment_points(rest).len();
                assert(on_globe(segments[segments.len() - 1][p]));
            } else {
                assert(on_globe(segment_points(rest)[i]));
            }
        }
    }
}

proof fn lemma_track_points_on_globe(tracks: Seq<Seq<Seq<RoutePoint>>>)
    requires
        forall|t: int, s: int, p: int|
            0 <= t < tracks.len() && 0 <= s < tracks[t].len() && 0 <= p < tracks[t][s].len()
                ==> on_globe(#[trigger] tracks[t][s][p]),
    ensures
        forall|i: int|
            0 <= i < track_points(tracks).len() ==> on_globe(#[trigger] track_points(tracks)[i]),
    decreases tracks.len(),
{
    if tracks.len() > 0 {
        let rest = tracks.drop_last();
        assert forall|t: int, s: int, p: int|
            0 <= t < rest.len() && 0 <= s < rest[t].len() && 0 <= p
                < rest[t][s].len() implies on_globe(#[trigger] rest[t][s][p]) by {
            assert(on_globe(tracks[t][s][p]));
        }
        lemma_track_points_on_globe(rest);
        let last = tracks.last();
        assert forall|s: int, p: int|
            0 <= s < last.len() && 0 <= p < last[s].len() implies on_globe(
            #[trigger] last[s][p],
        ) by {
            assert(on_globe(tracks[tracks.len() - 1][s][p]));
        }
        lemma_segment_points_on_globe(last);
        assert forall|i: int| 0 <= i < track_points(tracks).len() implies on_globe(
            #[trigger] track_points(tracks)[i],
        ) by {
            if i >= track_points(rest).len() {
                assert(on_globe(segment_points(last)[i - track_points(rest).len()]));
            } else {
                assert(on_globe(track_points(rest)[i]));
            }
        }
    }
}

proof fn lemma_points_on_globe(tracks: Vec<Vec<Vec<RoutePoint>>>)
    requires
        forall|t: int, s: int, p: int|
            0 <= t < tracks@.len() && 0 <= s < tracks@[t]@.len() && 0 <= p
                < tracks@[t]@[s]@.len() ==> on_globe(#[trigger] tracks@[t]@[s]@[p]),
    ensures
        forall|i: int|
            0 <= i < track_points(tracks_view(tracks)).len() ==> on_globe(
                #[trigger] track_points(tracks_view(tracks))[i],
            ),
{
    let view = tracks_view(tracks);
    assert forall|t: int, s: int, p: int|
        0 <= t < view.len() && 0 <= s < view[t].len() && 0 <= p < view[t][s].len() implies on_globe(
        #[trigger] view[t][s][p],
    ) by {
        assert(on_globe(tracks@[t]@[s]@[p]));
    }
    lemma_track_points_on_globe(view);
}

/// How many points stand in the first `n` segments of a track.
pub open spec fn points_in_segments(track: Seq<Vec<RoutePoint>>, n: int) -> int
    decreases n,
{
    if n <= 0 {
        0
    } else {
        points_in_segments(track, n - 1) + track[n - 1]@.len()
    }
}

/// How many points stand in the first `n` tracks.
pub open spec fn points_in_tracks(tracks: Seq<Vec<Vec<RoutePoint>>>, n: int) -> int
    decreases n,
{
    if n <= 0 {
        0
    } else {
        points_in_tracks(tracks, n - 1) + points_in_segments(
            tracks[n - 1]@,
            tracks[n - 1]@.len() as int,
        )
    }
}

/// Where point `p` of segment `s` of track `t` stands in the route.
pub open spec fn point_index(tracks: Seq<Vec<Vec<RoutePoint>>>, t: int, s: int, p: int) -> int {
    points_in_tracks(tracks, t) + points_in_segments(tracks[t]@, s) + p
}

proof fn lemma_segment_points(
    track: Seq<Vec<RoutePoint>>,
    segments: Seq<Seq<RoutePoint>>,
    n: int,
    s: int,
    p: int,
)
    requires
        0 <= n <= track.len(),
        segments.len() == track.len(),
        forall|i: int| 0 <= i < track.len() ==> #[trigger] segments[i] == track[i]@,
    ensures
        segment_points(segments.take(n)).len() == points_in_segments(track, n),
        0 <= s < n && 0 <= p < track[s]@.len() ==> {
            &&& 0 <= points_in_segments(track, s) + p < segment_points(segments.take(n)).len()
            &&& segment_points(segments.take(n))[points_in_segments(track, s) + p] == track[s]@[p]
        },
    decreases n,
{
    if n > 0 {
        lemma_segment_points(track, segments, n - 1, s, p);
        assert(segments.take(n).drop_last() =~= segments.take(n - 1));
        assert(segments.take(n).last() == track[n - 1]@);
        assert(segment_points(segments.take(n)) =~= segment_points(segments.take(n - 1))
            + track[n - 1]@);
    }
}

proof fn lemma_track_points(tracks: Vec<Vec<Vec<RoutePoint>>>, n: int, t: int, s: int, p: int)
    requires
        0 <= n <= tracks@.len(),
    ensures
        track_points(tracks_view(tracks).take(n)).len() == points_in_tracks(tracks@, n),
        0 <= t < n && 0 <= s < tracks@[t]@.len() && 0 <= p < tracks@[t]@[s]@.len() ==> {
            &&& 0 <= point_index(tracks@, t, s, p) < track_points(tracks_view(tracks).take(n)).len()
            &&& track_points(tracks_view(tracks).take(n))[point_index(tracks@, t, s, p)]
                == tracks@[t]@[s]@[p]
        },
    decreases n,
{
    let all = tracks_view(tracks);
    if n > 0 {
        lemma_track_points(tracks, n - 1, t, s, p);
        let last = tracks@[n - 1]@;
        let segments = all[n - 1];
        assert(all.take(n).drop_last() =~= all.take(n - 1));
        assert(all.take(n).last() == segments);
        assert(segments.len() == last.len());
        assert forall|i: int| 0 <= i < last.len() implies #[trigger] segments[i] == last[i]@ by {}
        lemma_segment_points(last, segments, last.len() as int, s, p);
        assert(segments.take(last.len() as int) =~= segments);
        assert(track_points(all.take(n)) =~= track_points(all.take(n - 1)) + segment_points(
            segments,
        ));
    }
}

/// A route has as many points as all segments of all tracks together.
pub proof fn every_point_is_read(tracks: Vec<Vec<Vec<RoutePoint>>>)
    ensures
        track_points(tracks_view(tracks)).len() == points_in_tracks(
            tracks@,
            tracks@.len() as int,
        ),
{
    lemma_track_points(tracks, tracks@.len() as int, 0, 0, 0);
    assert(tracks_view(tracks).take(tracks@.len() as int) =~= tracks_view(tracks));
}

/// Every point of every segment of every track stands in the route, behind all points
/// of the tracks and segments before its own and the points before it in its segment.
pub proof fn points_are_read_in_order(
    tracks: Vec<Vec<Vec<RoutePoint>>>,
    t: int,
    s: int,
    p: int,
)
    requires
        0 <= t < tracks@.len(),
        0 <= s < tracks@[t]@.len(),
        0 <= p < tracks@[t]@[s]@.len(),
    ensures
        0 <= point_index(tracks@, t, s, p) < track_points(tracks_view(tracks)).len(),
        track_points(tracks_view(tracks))[point_index(tracks@, t, s, p)] == tracks@[t]@[s]@[p],
{
    lemma_track_points(tracks, tracks@.len() as int, t, s, p);
    assert(tracks_view(tracks).take(tracks@.len() as int) =~= tracks_view(tracks));
}

proof fn lemma_segments_append(a: Seq<Seq<RoutePoint>>, b: Seq<Seq<RoutePoint>>)
    ensures
        segment_points(a + b) == segment_points(a) + segment_points(b),
    decreases b.len(),
{
    if b.len() == 0 {
        assert(a + b =~= a);
        assert(segment_points(a) + segment_points(b) =~= segment_points(a));
    } else {
        assert((a + b).drop_last() =~= a + b.drop_last());
        lemma_segments_append(a, b.drop_last());
        assert(segment_points(a + b) =~= segment_points(a) + segment_points(b));
    }
}

/// The points of a document are those of its parts: cutting the tracks in two, or the
/// segments of a track, loses and adds nothing, and one segment gives its own points.
pub proof fn documents_are_read_part_by_part(
    before: Seq<Seq<Seq<RoutePoint>>>,
    after: Seq<Seq<Seq<RoutePoint>>>,
    one: Seq<Seq<RoutePoint>>,
    other: Seq<Seq<RoutePoint>>,
    segment: Seq<RoutePoint>,
)
    ensures
        track_points(before + after) == track_points(before) + track_points(after),
        track_points(seq![one + other]) == track_points(seq![one]) + track_points(seq![other]),
        track_points(seq![seq![segment]]) == segment,
    decreases after.len(),
{
    if after.len() == 0 {
        assert(before + after =~= before);
        assert(track_points(before) + track_points(after) =~= track_points(before));
    } else {
        assert((before + after).drop_last() =~= before + after.drop_last());
        documents_are_read_part_by_part(before, after.drop_last(), one, other, segment);
        assert(track_points(before + after) =~= track_points(before) + track_points(after));
    }
    lemma_segments_append(one, other);
    lemma_single_track(one);
    lemma_single_track(other);
    lemma_single_track(one + other);
    lemma_single_track(seq![segment]);
    assert(seq![segment].drop_last() =~= Seq::empty());
    reveal_with_fuel(segment_points, 2);
    assert(segment_points(seq![segment]) =~= segment);
}

proof fn lemma_single_track(segments: Seq<Seq<RoutePoint>>)
    ensures
        track_points(seq![segments]) == segment_points(segments),
{
    assert(seq![segments].drop_last() =~= Seq::empty());
    reveal_with_fuel(track_points, 2);
    assert(track_points(seq![segments]) =~= segment_points(segments));
}

/// The way from the first point to the one before the last, and the leg from there to
/// the last point, make up the whole way; a single point makes none.
pub proof fn every_leg_adds_to_the_way<D>(
    advance: D,
    points: Seq<RoutePoint>,
    distance: Binary64,
) where D: Fn(Binary64, RoutePoint, RoutePoint) -> Binary64
    requires
        way_length(advance, points, distance),
    ensures
        points.len() <= 1 ==> distance.bits == 0,
        points.len() == 2 ==> call_ensures(
            advance,
            (Binary64 { bits: 0 }, points[0], points[1]),
            distance,
        ),
        points.len() >= 2 ==> exists|before: Binary64|
            way_length(advance, points.drop_last(), before) && #[trigger] call_ensures(
                advance,
                (before, points[points.len() - 2], points[points.len() - 1]),
                distance,
            ),
{
    let totals = choose|totals: Seq<Binary64>|
        #[trigger] distance_trace(advance, points, totals) && distance == totals.last();
    if points.len() >= 2 {
        let n = points.len();
        let fewer = totals.drop_last();
        let shorter = points.drop_last();
        assert(call_ensures(
            advance,
            (totals[n - 2], points[n - 2], points[n - 2 + 1]),
            totals[n - 2 + 1],
        ));
        assert forall|i: int| 0 <= i < shorter.len() - 1 implies call_ensures(
            advance,
            (fewer[i], shorter[i], shorter[i + 1]),
            #[trigger] fewer[i + 1],
        ) by {
            assert(call_ensures(advance, (totals[i], points[i], points[i + 1]), totals[i + 1]));
        }
        assert(distance_trace(advance, shorter, fewer));
        assert(fewer.last() == totals[n - 2]);
        assert(way_length(advance, shorter, totals[n - 2]));
    }
}

/// The sum of the lengths of all legs.
pub open spec fn legs_length(
    length: spec_fn(RoutePoint, RoutePoint) -> int,
    points: Seq<RoutePoint>,
) -> int
    decreases points.len(),
{
    if points.len() < 2 {
        0
    } else {
        length(points[0], points[1]) + legs_length(length, points.drop_first())
    }
}

/// Whether `advance` adds lengths exactly, as long as the totals stay within `limit`.
pub open spec fn adds_lengths<D>(
    advance: D,
    length: spec_fn(RoutePoint, RoutePoint) -> int,
    value: spec_fn(Binary64) -> int,
    limit: int,
) -> bool where D: Fn(Binary64, RoutePoint, RoutePoint) -> Binary64 {
    &&& value(Binary64 { bits: 0 }) == 0
    &&& forall|a: RoutePoint, b: RoutePoint| #[trigger] length(a, b) >= 0
    &&& forall|total: Binary64, a: RoutePoint, b: RoutePoint, sum: Binary64| #[trigger]
        call_ensures(advance, (total, a, b), sum) && value(total) + length(a, b) <= limit ==> value(
            sum,
        ) == value(total) + length(a, b)
}

proof fn lemma_legs_push(
    length: spec_fn(RoutePoint, RoutePoint) -> int,
    points: Seq<RoutePoint>,
)
    requires
        points.len() >= 2,
    ensures
        legs_length(length, points) == legs_length(length, points.drop_last()) + length(
            points[points.len() - 2],
            points[points.len() - 1],
        ),
    decreases points.len(),
{
    if points.len() == 2 {
        assert(legs_length(length, points.drop_first()) == 0);
        assert(legs_length(length, points.drop_last()) == 0);
    } else {
        let rest = points.drop_first();
        lemma_legs_push(length, rest);
        assert(rest.drop_last() =~= points.drop_last().drop_first());
        assert(points.drop_last()[0] == points[0] && points.drop_last()[1] == points[1]);
    }
}

/// The length of a route is the sum of the lengths of all its legs.
pub proof fn distance_is_the_sum_of_all_legs<D>(
    advance: D,
    length: spec_fn(RoutePoint, RoutePoint) -> int,
    value: spec_fn(Binary64) -> int,
    limit: int,
    points: Seq<RoutePoint>,
    distance: Binary64,
) where D: Fn(Binary64, RoutePoint, RoutePoint) -> Binary64
    requires
        adds_lengths(advance, length, value, limit),
        legs_length(length, points) <= limit,
        way_length(advance, points, distance),
    ensures
        value(distance) == legs_length(length, points),
    decreases points.len(),
{
    every_leg_adds_to_the_way(advance, points, distance);
    if points.len() >= 2 {
        let n = points.len();
        let before = choose|before: Binary64|
            way_length(advance, points.drop_last(), before) && #[trigger] call_ensures(
                advance,
                (before, points[n - 2], points[n - 1]),
                distance,
            );
        lemma_legs_push(length, points);
        assert(length(points[n - 2], points[n - 1]) >= 0);
        distance_is_the_sum_of_all_legs(
            advance,
            length,
            value,
            limit,
            points.drop_last(),
            before,
        );
    } else {
        assert(distance == Binary64 { bits: 0 });
    }
}

proof fn lemma_legs_reverse(
    length: spec_fn(RoutePoint, RoutePoint) -> int,
    points: Seq<RoutePoint>,
)
    requires
        forall|a: RoutePoint, b: RoutePoint| #[trigger] length(a, b) == length(b, a),
    ensures
        legs_length(length, points.reverse()) == legs_length(length, points),
    decreases points.len(),
{
    if points.len() >= 2 {
        let back = points.reverse();
        let n = points.len();
        lemma_legs_push(length, points);
        lemma_legs_reverse(length, points.drop_last());
        assert(back.drop_first() =~= points.drop_last().reverse());
        assert(back[0] == points[n - 1] && back[1] == points[n - 2]);
        assert(length(back[0], back[1]) == length(points[n - 2], points[n - 1]));
    }
}

/// The way back is as long as the way there.
pub proof fn reversed_routes_are_as_long<D>(
    advance: D,
    length: spec_fn(RoutePoint, RoutePoint) -> int,
    value: spec_fn(Binary64) -> int,
    limit: int,
    points: Seq<RoutePoint>,
    there: Binary64,
    back: Binary64,
) where D: Fn(Binary64, RoutePoint, RoutePoint) -> Binary64
    requires
        adds_lengths(advance, length, value, limit),
        forall|a: RoutePoint, b: RoutePoint| #[trigger] length(a, b) == length(b, a),
        legs_length(length, points) <= limit,
        way_length(advance, points, there),
        way_length(advance, points.reverse(), back),
    ensures
        value(there) == value(back),
{
    lemma_legs_reverse(length, points);
    distance_is_the_sum_of_all_legs(advance, length, value, limit, points, there);
    distance_is_the_sum_of_all_legs(advance, length, value, limit, points.reverse(), back);
}

/// A summary holds the points as they are, the way through all of them, and the
/// elevations of the lowest and the highest of them.
pub proof fn summaries_describe_their_points<D, R, A>(
    advance: D,
    reaches: R,
    accumulate: A,
    points: Seq<RoutePoint>,
    summary: RouteSummary,
) where
    D: Fn(Binary64, RoutePoint, RoutePoint) -> Binary64,
    R: Fn(Binary64, Binary64, Binary64) -> bool,
    A: Fn(Binary64, Binary64, Binary64) -> Binary64,

    requires
        summarizes(advance, reaches, accumulate, points, summary),
    ensures
        summary.points@ == points,
        gain_and_loss(
            reaches,
            accumulate,
            elevations(points),
            summary.elevation_gain_m,
            summary.elevation_loss_m,
        ),
        way_length(advance, points, summary.distance_m),
        points.len() <= 1 ==> summary.distance_m.bits == 0,
        points.len() == 2 ==> call_ensures(
            advance,
            (Binary64 { bits: 0 }, points[0], points[1]),
            summary.distance_m,
        ),
        (summary.min_elevation_m is None) == forall|i: int|
            0 <= i < points.len() ==> (#[trigger] points[i]).ele is None,
        (summary.max_elevation_m is None) == (summary.min_elevation_m is None),
        forall|i: int|
            0 <= i < points.len() && (#[trigger] points[i]).ele is Some && !points[i].ele->0.nan()
                ==> {
                &&& summary.min_elevation_m->0.rank() <= points[i].ele->0.rank()
                &&& points[i].ele->0.rank() <= summary.max_elevation_m->0.rank()
            },
        summary.min_elevation_m is Some ==> exists|i: int|
            0 <= i < points.len() && (#[trigger] points[i]).ele == summary.min_elevation_m,
        summary.max_elevation_m is Some ==> exists|i: int|
            0 <= i < points.len() && (#[trigger] points[i]).ele == summary.max_elevation_m,
{
    every_leg_adds_to_the_way(advance, points, summary.distance_m);
    crate::elevation::range_is_attained(points);
    assert forall|i: int|
        0 <= i < points.len() && (#[trigger] points[i]).ele is Some
            && !points[i].ele->0.nan() implies {
        &&& summary.min_elevation_m->0.rank() <= points[i].ele->0.rank()
        &&& points[i].ele->0.rank() <= summary.max_elevation_m->0.rank()
    } by {
        crate::elevation::range_bounds_every_elevation(points, i);
    }
}

/// A document whose times universal time all has dates for is read as `gpx` reads it, any
/// other is refused; one that fails for want of text is read once more without its empty
/// `license` elements, and only then.
pub proof fn documents_are_read_as_they_are(bytes: Seq<u8>)
    ensures
        convertible_times(bytes) ==> readable_document(bytes) == gpx_document(bytes),
        !convertible_times(bytes) ==> readable_document(bytes) == Err::<
            Seq<Seq<Seq<RoutePoint>>>,
            GpxFailure,
        >(GpxFailure::TimeOutOfRange),
        readable_document(bytes) is Ok ==> tolerated_document(bytes) == readable_document(bytes),
        readable_document(bytes) == Err::<Seq<Seq<Seq<RoutePoint>>>, GpxFailure>(
            GpxFailure::NoStringContent,
        ) && has_empty_license(bytes, 0) ==> tolerated_document(bytes) == readable_document(
            without_empty_licenses(bytes, 0),
        ),
        readable_document(bytes) is Err && !has_empty_license(bytes, 0) ==> tolerated_document(
            bytes,
        ) == readable_document(bytes),
{
}

} // verus!
