//! Water points along a route.
//!
//! Which stretch of the route is nearest, and how far, is the caller's to
//! compute; the library cuts the route into stretches and hands them over, keeps
//! the water points that are close enough and puts them in order.

use vstd::prelude::*;

use crate::binary64::Binary64;
use crate::order::{stable_order, stable_ordering, SortKey};
use crate::text::copy_text;
use crate::types::{OsmWaterPoint, RoutePoint, RouteSummary, WaterPointResult};

verus! {

/// Where a point lies relative to a route.
#[derive(Clone, Copy, Debug, PartialEq, Eq, Structural)]
pub struct Projection {
    pub distance_to_route_m: Binary64,
    pub position_m: Binary64,
}

/// A stretch of a route between two points that are apart.
#[derive(Clone, Copy, Debug, PartialEq, Eq, Structural)]
pub struct RouteSegment {
    pub start: RoutePoint,
    pub end: RoutePoint,
    /// The distance along the route at which the stretch begins.
    pub start_m: Binary64,
    pub length_m: Binary64,
}

/// Whether a value is a number above zero.
pub open spec fn positive(value: Binary64) -> bool {
    !value.nan() && value.rank() > 0
}

/// The measures of the legs of a route: `lengths[i]` leads from point `i` to
/// point `i + 1`, and `starts[i]` is the way before it.
pub open spec fn leg_trace<L, S>(
    length: L,
    sum: S,
    points: Seq<RoutePoint>,
    lengths: Seq<Binary64>,
    starts: Seq<Binary64>,
) -> bool where
    L: Fn(RoutePoint, RoutePoint) -> Binary64,
    S: Fn(Binary64, Binary64) -> Binary64,
 {
    &&& lengths.len() + 1 == points.len()
    &&& starts.len() == points.len()
    &&& starts[0] == Binary64::spec_zero()
    &&& forall|i: int|
        0 <= i < lengths.len() ==> {
            &&& call_ensures(length, (points[i], points[i + 1]), #[trigger] lengths[i])
            &&& if positive(lengths[i]) {
                call_ensures(sum, (starts[i], lengths[i]), starts[i + 1])
            } else {
                starts[i + 1] == starts[i]
            }
        }
}

/// The stretches of positive length among the first `n` legs, in order.
pub open spec fn stretches(
    points: Seq<RoutePoint>,
    lengths: Seq<Binary64>,
    starts: Seq<Binary64>,
    n: int,
) -> Seq<RouteSegment>
    decreases n,
{
    if n <= 0 {
        Seq::empty()
    } else {
        let rest = stretches(points, lengths, starts, n - 1);
        if positive(lengths[n - 1]) {
            rest.push(
                RouteSegment {
                    start: points[n - 1],
                    end: points[n],
                    start_m: starts[n - 1],
                    length_m: lengths[n - 1],
                },
            )
        } else {
            rest
        }
    }
}

/// Whether `segments` are the stretches of positive length of the route.
pub open spec fn cuts_route<L, S>(
    length: L,
    sum: S,
    points: Seq<RoutePoint>,
    segments: Seq<RouteSegment>,
) -> bool where
    L: Fn(RoutePoint, RoutePoint) -> Binary64,
    S: Fn(Binary64, Binary64) -> Binary64,
 {
    if points.len() == 0 {
        segments.len() == 0
    } else {
        exists|lengths: Seq<Binary64>, starts: Seq<Binary64>|
            #[trigger] leg_trace(length, sum, points, lengths, starts) && segments == stretches(
                points,
                lengths,
                starts,
                points.len() - 1,
            )
    }
}

/// Cuts a route into its stretches of positive length.
///
/// `length(a, b)` is the distance from `a` to `b`; `sum(x, y)` is `x + y`.
pub fn route_segments<L, S>(points: &Vec<RoutePoint>, length: &L, sum: &S) -> (segments: Vec<
    RouteSegment,
>) where L: Fn(RoutePoint, RoutePoint) -> Binary64, S: Fn(Binary64, Binary64) -> Binary64
    requires
        forall|a: RoutePoint, b: RoutePoint| call_requires(*length, (a, b)),
        forall|a: Binary64, b: Binary64| call_requires(*sum, (a, b)),
    ensures
        cuts_route(*length, *sum, points@, segments@),
{
    let mut segments: Vec<RouteSegment> = Vec::new();
    if points.len() == 0 {
        return segments;
    }
    let mut start = Binary64::zero();
    let ghost mut lengths: Seq<Binary64> = Seq::empty();
    let ghost mut starts: Seq<Binary64> = seq![start];
    let mut i: usize = 1;
    while i < points.len()
        invariant
            1 <= i <= points@.len(),
            forall|a: RoutePoint, b: RoutePoint| call_requires(*length, (a, b)),
            forall|a: Binary64, b: Binary64| call_requires(*sum, (a, b)),
            lengths.len() + 1 == i,
            starts.len() == i,
            starts[0] == Binary64::spec_zero(),
            start == starts.last(),
            segments@ == stretches(points@, lengths, starts, i - 1),
            forall|k: int|
                0 <= k < lengths.len() ==> {
                    &&& call_ensures(*length, (points@[k], points@[k + 1]), #[trigger] lengths[k])
                    &&& if positive(lengths[k]) {
                        call_ensures(*sum, (starts[k], lengths[k]), starts[k + 1])
                    } else {
                        starts[k + 1] == starts[k]
                    }
                },
        decreases points@.len() - i,
    {
        let leg = length(points[i - 1], points[i]);
        let begin = start;
        if !leg.is_nan() && leg.order_rank() > 0 {
            segments.push(
                RouteSegment { start: points[i - 1], end: points[i], start_m: begin, length_m: leg },
            );
            start = sum(start, leg);
        }
        proof {
            let ghost lengths2 = lengths.push(leg);
            let ghost starts2 = starts.push(start);
            lemma_stretches_ignore_later(points@, lengths, starts, lengths2, starts2, i - 1);
            lengths = lengths2;
            starts = starts2;
        }
        i = i + 1;
    }
    assert(leg_trace(*length, *sum, points@, lengths, starts));
    segments
}

proof fn lemma_stretches_ignore_later(
    points: Seq<RoutePoint>,
    lengths: Seq<Binary64>,
    starts: Seq<Binary64>,
    lengths2: Seq<Binary64>,
    starts2: Seq<Binary64>,
    n: int,
)
    requires
        n <= lengths.len() <= lengths2.len(),
        n <= starts.len() <= starts2.len(),
        forall|k: int| 0 <= k < lengths.len() ==> lengths[k] == lengths2[k],
        forall|k: int| 0 <= k < starts.len() ==> starts[k] == starts2[k],
    ensures
        stretches(points, lengths, starts, n) == stretches(points, lengths2, starts2, n),
    decreases n,
{
    if n > 0 {
        lemma_stretches_ignore_later(points, lengths, starts, lengths2, starts2, n - 1);
    }
}

/// Whether `index` is what `build` makes of the first point and the stretches of a
/// route; a route without a stretch has none.
pub open spec fn indexes_route<L, S, B, I>(
    length: L,
    sum: S,
    build: B,
    points: Seq<RoutePoint>,
    index: Option<I>,
) -> bool where
    L: Fn(RoutePoint, RoutePoint) -> Binary64,
    S: Fn(Binary64, Binary64) -> Binary64,
    B: Fn(RoutePoint, Vec<RouteSegment>) -> I,
 {
    exists|segments: Vec<RouteSegment>| #[trigger]
        cuts_route(length, sum, points, segments@) && match index {
            None => segments@.len() == 0,
            Some(built) => segments@.len() > 0 && call_ensures(build, (points[0], segments), built),
        }
}

/// Cuts a route into stretches and lets the caller build an index of them.
fn route_index<L, S, B, I>(points: &Vec<RoutePoint>, length: &L, sum: &S, build: &B) -> (index:
    Option<I>) where
    L: Fn(RoutePoint, RoutePoint) -> Binary64,
    S: Fn(Binary64, Binary64) -> Binary64,
    B: Fn(RoutePoint, Vec<RouteSegment>) -> I,

    requires
        forall|a: RoutePoint, b: RoutePoint| call_requires(*length, (a, b)),
        forall|a: Binary64, b: Binary64| call_requires(*sum, (a, b)),
        forall|a: RoutePoint, b: Vec<RouteSegment>| call_requires(*build, (a, b)),
    ensures
        indexes_route(*length, *sum, *build, points@, index),
{
    let segments = route_segments(points, length, sum);
    let ghost cut = segments;
    assert(cuts_route(*length, *sum, points@, cut@));
    if segments.len() == 0 {
        return None;
    }
    Some(build(points[0], segments))
}

/// The nearest place on a route; nothing where the route has no stretch.
///
/// `build` makes an index of the first point and the stretches of the route, and
/// `project` finds the nearest place in it.
pub fn project_point<L, S, B, I, P>(
    route: &RouteSummary,
    lat: Binary64,
    lon: Binary64,
    length: &L,
    sum: &S,
    build: &B,
    project: &P,
) -> (projection: Option<Projection>) where
    L: Fn(RoutePoint, RoutePoint) -> Binary64,
    S: Fn(Binary64, Binary64) -> Binary64,
    B: Fn(RoutePoint, Vec<RouteSegment>) -> I,
    P: Fn(&I, Binary64, Binary64) -> Option<Projection>,

    requires
        forall|a: RoutePoint, b: RoutePoint| call_requires(*length, (a, b)),
        forall|a: Binary64, b: Binary64| call_requires(*sum, (a, b)),
        forall|a: RoutePoint, b: Vec<RouteSegment>| call_requires(*build, (a, b)),
        forall|i: &I, a: Binary64, b: Binary64| call_requires(*project, (i, a, b)),
    ensures
        exists|index: Option<I>| #[trigger]
            indexes_route(*length, *sum, *build, route.points@, index) && match index {
                None => projection is None,
                Some(built) => call_ensures(*project, (&built, lat, lon), projection),
            },
{
    let index = route_index(&route.points, length, sum, build);
    match &index {
        None => None,
        Some(built) => project(built, lat, lon),
    }
}

/// What the caller's arithmetic says about one water point.
pub struct Measured {
    pub projection: Option<Projection>,
    /// The kilometre at which it lies, as shown.
    pub km: Binary64,
    /// The distance to the route, as shown.
    pub distance: Binary64,
}

/// Whether a water point is close enough to the route.
pub open spec fn within_reach(measured: Measured, max_distance_m: Binary64) -> bool {
    measured.projection matches Some(p) && p.distance_to_route_m.le(max_distance_m)
}

/// Whether `measured[i]` is what the arithmetic says about water point `i`.
pub open spec fn measures<I, P, K, W>(
    index: I,
    project: P,
    kilometre: K,
    whole: W,
    max_distance_m: Binary64,
    points: Seq<OsmWaterPoint>,
    measured: Seq<Measured>,
) -> bool where
    P: Fn(&I, Binary64, Binary64) -> Option<Projection>,
    K: Fn(Binary64) -> Binary64,
    W: Fn(Binary64) -> Binary64,
 {
    &&& measured.len() == points.len()
    &&& forall|i: int|
        0 <= i < points.len() ==> {
            let m = #[trigger] measured[i];
            &&& call_ensures(project, (&index, points[i].lat, points[i].lon), m.projection)
            &&& within_reach(m, max_distance_m) ==> {
                &&& call_ensures(kilometre, (m.projection->0.position_m,), m.km)
                &&& call_ensures(whole, (m.projection->0.distance_to_route_m,), m.distance)
            }
        }
}

/// The positions of the water points within reach, in order.
pub open spec fn reachable(measured: Seq<Measured>, max_distance_m: Binary64) -> Seq<usize>
    decreases measured.len(),
{
    if measured.len() == 0 {
        Seq::empty()
    } else {
        let rest = reachable(measured.drop_last(), max_distance_m);
        if within_reach(measured.last(), max_distance_m) {
            rest.push((measured.len() - 1) as usize)
        } else {
            rest
        }
    }
}

/// By what the results are ordered: the kilometre, then the distance.
pub open spec fn shown_key(measured: Measured) -> SortKey {
    SortKey { major: measured.km.rank() as i128, minor: measured.distance.rank() as i128 }
}

/// The keys of the water points at some positions.
pub open spec fn keys_at(measured: Seq<Measured>, positions: Seq<usize>) -> Seq<SortKey> {
    Seq::new(positions.len(), |k: int| shown_key(measured[positions[k] as int]))
}

/// Whether `result` describes the water point with these measures.
pub open spec fn describes(result: WaterPointResult, point: OsmWaterPoint, measured: Measured) -> bool {
    &&& result.osm_type == point.osm_type
    &&& result.osm_id == point.osm_id
    &&& result.name == point.name
    &&& result.lat == point.lat
    &&& result.lon == point.lon
    &&& result.km == measured.km
    &&& result.distance_to_route_m == measured.distance
}

/// Whether `results` are the water points within reach, in stable order of
/// kilometre and distance.
pub open spec fn projected(
    points: Seq<OsmWaterPoint>,
    measured: Seq<Measured>,
    max_distance_m: Binary64,
    order: Seq<usize>,
    results: Seq<WaterPointResult>,
) -> bool {
    let kept = reachable(measured, max_distance_m);
    &&& stable_ordering(keys_at(measured, kept), order)
    &&& results.len() == kept.len()
    &&& forall|k: int|
        0 <= k < results.len() ==> describes(
            #[trigger] results[k],
            points[kept[order[k] as int] as int],
            measured[kept[order[k] as int] as int],
        )
}

proof fn lemma_reachable_positions(measured: Seq<Measured>, max_distance_m: Binary64)
    requires
        measured.len() <= usize::MAX,
    ensures
        forall|k: int|
            0 <= k < reachable(measured, max_distance_m).len() ==> (#[trigger] reachable(
                measured,
                max_distance_m,
            )[k]) < measured.len() && within_reach(
                measured[reachable(measured, max_distance_m)[k] as int],
                max_distance_m,
            ),
    decreases measured.len(),
{
    if measured.len() > 0 {
        let rest = measured.drop_last();
        lemma_reachable_positions(rest, max_distance_m);
        assert forall|k: int| 0 <= k < reachable(measured, max_distance_m).len() implies (
        #[trigger] reachable(measured, max_distance_m)[k]) < measured.len() && within_reach(
            measured[reachable(measured, max_distance_m)[k] as int],
            max_distance_m,
        ) by {
            if k < reachable(rest, max_distance_m).len() {
                assert(reachable(rest, max_distance_m)[k] < rest.len());
                assert(rest[reachable(rest, max_distance_m)[k] as int] == measured[reachable(
                    rest,
                    max_distance_m,
                )[k] as int]);
            }
        }
    }
}

/// Whether `results` lists the water points within reach of an indexed route.
pub open spec fn lists_along<I, P, K, W>(
    index: I,
    project: P,
    kilometre: K,
    whole: W,
    max_distance_m: Binary64,
    points: Seq<OsmWaterPoint>,
    results: Seq<WaterPointResult>,
) -> bool where
    P: Fn(&I, Binary64, Binary64) -> Option<Projection>,
    K: Fn(Binary64) -> Binary64,
    W: Fn(Binary64) -> Binary64,
 {
    exists|measured: Seq<Measured>, order: Seq<usize>| #[trigger]
        measures(index, project, kilometre, whole, max_distance_m, points, measured) && #[trigger]
        projected(points, measured, max_distance_m, order, results)
}

/// Whether `results` lists the water points within reach of a route.
pub open spec fn lists_water_points<L, S, B, I, P, K, W>(
    length: L,
    sum: S,
    build: B,
    project: P,
    kilometre: K,
    whole: W,
    route: Seq<RoutePoint>,
    points: Seq<OsmWaterPoint>,
    max_distance_m: Binary64,
    results: Seq<WaterPointResult>,
) -> bool where
    L: Fn(RoutePoint, RoutePoint) -> Binary64,
    S: Fn(Binary64, Binary64) -> Binary64,
    B: Fn(RoutePoint, Vec<RouteSegment>) -> I,
    P: Fn(&I, Binary64, Binary64) -> Option<Projection>,
    K: Fn(Binary64) -> Binary64,
    W: Fn(Binary64) -> Binary64,
 {
    exists|index: Option<I>| #[trigger]
        indexes_route(length, sum, build, route, index) && match index {
            None => results.len() == 0,
            Some(built) => lists_along(
                built,
                project,
                kilometre,
                whole,
                max_distance_m,
                points,
                results,
            ),
        }
}

/// The water points within `max_distance_m` of a route, by kilometre and then by
/// distance; none where the route has no stretch.
///
/// `length(a, b)` is the distance from `a` to `b`, and `sum(x, y)` is `x + y`;
/// `build` makes an index of the first point and the stretches of the route, and
/// `project` finds the nearest place in it; `kilometre` turns a position in metres
/// into the kilometre to show, and `whole` a distance into the metres to show.
pub fn project_water_points<L, S, B, I, P, K, W>(
    route: &RouteSummary,
    water_points: &Vec<OsmWaterPoint>,
    max_distance_m: Binary64,
    length: &L,
    sum: &S,
    build: &B,
    project: &P,
    kilometre: &K,
    whole: &W,
) -> (results: Vec<WaterPointResult>) where
    L: Fn(RoutePoint, RoutePoint) -> Binary64,
    S: Fn(Binary64, Binary64) -> Binary64,
    B: Fn(RoutePoint, Vec<RouteSegment>) -> I,
    P: Fn(&I, Binary64, Binary64) -> Option<Projection>,
    K: Fn(Binary64) -> Binary64,
    W: Fn(Binary64) -> Binary64,

    requires
        forall|a: RoutePoint, b: RoutePoint| call_requires(*length, (a, b)),
        forall|a: Binary64, b: Binary64| call_requires(*sum, (a, b)),
        forall|a: RoutePoint, b: Vec<RouteSegment>| call_requires(*build, (a, b)),
        forall|i: &I, a: Binary64, b: Binary64| call_requires(*project, (i, a, b)),
        forall|v: Binary64| call_requires(*kilometre, (v,)),
        forall|v: Binary64| call_requires(*whole, (v,)),
    ensures
        lists_water_points(
            *length,
            *sum,
            *build,
            *project,
            *kilometre,
            *whole,
            route.points@,
            water_points@,
            max_distance_m,
            results@,
        ),
        forall|i: int, j: int|
            0 <= i < j < results@.len() ==> (#[trigger] results@[i]).km.rank() <= (
            #[trigger] results@[j]).km.rank(),
        forall|k: int|
            0 <= k < results@.len() ==> exists|i: int|
                {
                    &&& 0 <= i < water_points@.len()
                    &&& (#[trigger] results@[k]).osm_type == (#[trigger] water_points@[i]).osm_type
                    &&& results@[k].osm_id == water_points@[i].osm_id
                    &&& results@[k].name == water_points@[i].name
                    &&& results@[k].lat == water_points@[i].lat
                    &&& results@[k].lon == water_points@[i].lon
                },
{
    match route_index(&route.points, length, sum, build) {
        None => Vec::new(),
        Some(index) => list_along(&index, water_points, max_distance_m, project, kilometre, whole),
    }
}

fn list_along<I, P, K, W>(
    index: &I,
    water_points: &Vec<OsmWaterPoint>,
    max_distance_m: Binary64,
    project: &P,
    kilometre: &K,
    whole: &W,
) -> (results: Vec<WaterPointResult>) where
    P: Fn(&I, Binary64, Binary64) -> Option<Projection>,
    K: Fn(Binary64) -> Binary64,
    W: Fn(Binary64) -> Binary64,

    requires
        forall|i: &I, a: Binary64, b: Binary64| call_requires(*project, (i, a, b)),
        forall|v: Binary64| call_requires(*kilometre, (v,)),
        forall|v: Binary64| call_requires(*whole, (v,)),
    ensures
        lists_along(
            *index,
            *project,
            *kilometre,
            *whole,
            max_distance_m,
            water_points@,
            results@,
        ),
        forall|i: int, j: int|
            0 <= i < j < results@.len() ==> (#[trigger] results@[i]).km.rank() <= (
            #[trigger] results@[j]).km.rank(),
        forall|k: int|
            0 <= k < results@.len() ==> exists|i: int|
                {
                    &&& 0 <= i < water_points@.len()
                    &&& (#[trigger] results@[k]).osm_type == (#[trigger] water_points@[i]).osm_type
                    &&& results@[k].osm_id == water_points@[i].osm_id
                    &&& results@[k].name == water_points@[i].name
                    &&& results@[k].lat == water_points@[i].lat
                    &&& results@[k].lon == water_points@[i].lon
                },
{
    let ghost mut measured: Seq<Measured> = Seq::empty();
    let mut kept: Vec<usize> = Vec::new();
    let mut kms: Vec<Binary64> = Vec::new();
    let mut distances: Vec<Binary64> = Vec::new();
    let mut keys: Vec<SortKey> = Vec::new();
    let mut i: usize = 0;
    while i < water_points.len()
        invariant
            i <= water_points@.len(),
            forall|i: &I, a: Binary64, b: Binary64| call_requires(*project, (i, a, b)),
            forall|v: Binary64| call_requires(*kilometre, (v,)),
            forall|v: Binary64| call_requires(*whole, (v,)),
            measures(
                *index,
                *project,
                *kilometre,
                *whole,
                max_distance_m,
                water_points@.take(i as int),
                measured,
            ),
            kept@ == reachable(measured, max_distance_m),
            kms@.len() == kept@.len(),
            distances@.len() == kept@.len(),
            keys@.len() == kept@.len(),
            forall|k: int|
                0 <= k < kept@.len() ==> {
                    &&& (#[trigger] kept@[k]) < i
                    &&& kms@[k] == measured[kept@[k] as int].km
                    &&& distances@[k] == measured[kept@[k] as int].distance
                    &&& keys@[k] == shown_key(measured[kept@[k] as int])
                },
        decreases water_points@.len() - i,
    {
        let point = &water_points[i];
        let projection = project(index, point.lat, point.lon);
        let ghost before = measured;
        let ghost mut now = Measured {
            projection,
            km: Binary64::spec_zero(),
            distance: Binary64::spec_zero(),
        };
        match projection {
            Some(p) => {
                if p.distance_to_route_m.at_most(max_distance_m) {
                    let km = kilometre(p.position_m);
                    let distance = whole(p.distance_to_route_m);
                    kept.push(i);
                    kms.push(km);
                    distances.push(distance);
                    keys.push(
                        SortKey {
                            major: km.order_rank() as i128,
                            minor: distance.order_rank() as i128,
                        },
                    );
                    proof {
                        now = Measured { projection, km, distance };
                    }
                }
            },
            None => {},
        }
        proof {
            measured = before.push(now);
            assert(measured.drop_last() =~= before);
            let seen = water_points@.take(i + 1);
            assert forall|k: int| 0 <= k < seen.len() implies {
                let m = #[trigger] measured[k];
                &&& call_ensures(*project, (index, seen[k].lat, seen[k].lon), m.projection)
                &&& within_reach(m, max_distance_m) ==> {
                    &&& call_ensures(*kilometre, (m.projection->0.position_m,), m.km)
                    &&& call_ensures(*whole, (m.projection->0.distance_to_route_m,), m.distance)
                }
            } by {
                if k < i {
                    assert(measured[k] == before[k]);
                    assert(seen[k] == water_points@.take(i as int)[k]);
                }
            }
        }
        i = i + 1;
    }
    assert(water_points@.take(water_points@.len() as int) =~= water_points@);
    let order = stable_order(&keys);
    assert(keys@ =~= keys_at(measured, kept@));
    let mut results: Vec<WaterPointResult> = Vec::new();
    let mut k: usize = 0;
    while k < order.len()
        invariant
            k <= order@.len() == kept@.len(),
            kms@.len() == kept@.len(),
            distances@.len() == kept@.len(),
            results@.len() == k,
            forall|j: int|
                0 <= j < kept@.len() ==> {
                    &&& (#[trigger] kept@[j]) < water_points@.len()
                    &&& kms@[j] == measured[kept@[j] as int].km
                    &&& distances@[j] == measured[kept@[j] as int].distance
                },
            forall|j: int| 0 <= j < order@.len() ==> 0 <= #[trigger] order@[j] < kept@.len(),
            forall|j: int|
                0 <= j < k ==> describes(
                    #[trigger] results@[j],
                    water_points@[kept@[order@[j] as int] as int],
                    measured[kept@[order@[j] as int] as int],
                ),
        decreases order@.len() - k,
    {
        let at = order[k];
        let point = &water_points[kept[at]];
        results.push(
            WaterPointResult {
                osm_type: point.osm_type,
                osm_id: point.osm_id,
                name: copy_text(&point.name),
                lat: point.lat,
                lon: point.lon,
                km: kms[at],
                distance_to_route_m: distances[at],
            },
        );
        k = k + 1;
    }
    proof {
        assert(projected(water_points@, measured, max_distance_m, order@, results@));
        assert forall|a: int, b: int| 0 <= a < b < results@.len() implies (#[trigger] results@[a]).km.rank()
            <= (#[trigger] results@[b]).km.rank() by {
            let x = order@[a] as int;
            let y = order@[b] as int;
            assert(crate::order::stands_before(keys@, x, y));
        }
        assert forall|k: int| 0 <= k < results@.len() implies exists|i: int|
            {
                &&& 0 <= i < water_points@.len()
                &&& (#[trigger] results@[k]).osm_type == (#[trigger] water_points@[i]).osm_type
                &&& results@[k].osm_id == water_points@[i].osm_id
                &&& results@[k].name == water_points@[i].name
                &&& results@[k].lat == water_points@[i].lat
                &&& results@[k].lon == water_points@[i].lon
            } by {
            let i = kept@[order@[k] as int] as int;
            assert(describes(results@[k], water_points@[i], measured[i]));
        }
    }
    results
}

proof fn lemma_reachable_is_complete(measured: Seq<Measured>, max_distance_m: Binary64, i: usize)
    requires
        measured.len() <= usize::MAX,
        i < measured.len(),
        within_reach(measured[i as int], max_distance_m),
    ensures
        reachable(measured, max_distance_m).contains(i),
    decreases measured.len(),
{
    let rest = reachable(measured.drop_last(), max_distance_m);
    let all = reachable(measured, max_distance_m);
    if i == measured.len() - 1 {
        assert(all[all.len() - 1] == i);
    } else {
        assert(measured.drop_last()[i as int] == measured[i as int]);
        lemma_reachable_is_complete(measured.drop_last(), max_distance_m, i);
        let k = choose|k: int| 0 <= k < rest.len() && rest[k] == i;
        assert(all[k] == i);
    }
}

/// Every water point within reach is listed.
pub proof fn reachable_points_are_listed(
    points: Seq<OsmWaterPoint>,
    measured: Seq<Measured>,
    max_distance_m: Binary64,
    order: Seq<usize>,
    results: Seq<WaterPointResult>,
    i: int,
)
    requires
        measured.len() == points.len() <= usize::MAX,
        projected(points, measured, max_distance_m, order, results),
        0 <= i < points.len(),
        within_reach(measured[i], max_distance_m),
    ensures
        exists|k: int|
            0 <= k < results.len() && describes(#[trigger] results[k], points[i], measured[i]),
{
    let kept = reachable(measured, max_distance_m);
    lemma_reachable_is_complete(measured, max_distance_m, i as usize);
    lemma_reachable_len(measured, max_distance_m);
    let m = choose|m: int| 0 <= m < kept.len() && kept[m] == i as usize;
    assert(order.contains(m as usize));
    let k = choose|k: int| 0 <= k < order.len() && order[k] == m as usize;
    assert(describes(results[k], points[i], measured[i]));
}

/// Whatever is listed is a water point within reach.
pub proof fn listed_points_are_reachable(
    points: Seq<OsmWaterPoint>,
    measured: Seq<Measured>,
    max_distance_m: Binary64,
    order: Seq<usize>,
    results: Seq<WaterPointResult>,
    k: int,
)
    requires
        measured.len() == points.len() <= usize::MAX,
        projected(points, measured, max_distance_m, order, results),
        0 <= k < results.len(),
    ensures
        exists|i: int|
            0 <= i < points.len() && within_reach(#[trigger] measured[i], max_distance_m)
                && describes(results[k], points[i], measured[i]),
{
    let kept = reachable(measured, max_distance_m);
    lemma_reachable_positions(measured, max_distance_m);
    let i = kept[order[k] as int] as int;
    assert(describes(results[k], points[i], measured[i]));
    assert(within_reach(measured[i], max_distance_m));
}

proof fn lemma_reachable_len(measured: Seq<Measured>, max_distance_m: Binary64)
    ensures
        reachable(measured, max_distance_m).len() <= measured.len(),
    decreases measured.len(),
{
    if measured.len() > 0 {
        lemma_reachable_len(measured.drop_last(), max_distance_m);
    }
}

proof fn lemma_stretches<L, S>(
    length: L,
    sum: S,
    points: Seq<RoutePoint>,
    lengths: Seq<Binary64>,
    starts: Seq<Binary64>,
    n: int,
) -> (at: Seq<int>) where
    L: Fn(RoutePoint, RoutePoint) -> Binary64,
    S: Fn(Binary64, Binary64) -> Binary64,

    requires
        leg_trace(length, sum, points, lengths, starts),
        0 <= n <= lengths.len(),
    ensures
        at.len() == stretches(points, lengths, starts, n).len(),
        forall|k: int|
            0 <= k < at.len() ==> {
                &&& 0 <= #[trigger] at[k] < n
                &&& !lengths[at[k]].nan() && lengths[at[k]].rank() > 0
                &&& stretches(points, lengths, starts, n)[k] == (RouteSegment {
                    start: points[at[k]],
                    end: points[at[k] + 1],
                    start_m: starts[at[k]],
                    length_m: lengths[at[k]],
                })
            },
        forall|j: int, k: int| 0 <= j < k < at.len() ==> at[j] < at[k],
        forall|i: int|
            0 <= i < n && !(#[trigger] lengths[i]).nan() && lengths[i].rank() > 0 ==> at.contains(i),
        at.len() == 0 ==> starts[n].bits == 0,
        at.len() > 0 ==> {
            &&& starts[at[0]].bits == 0
            &&& call_ensures(sum, (starts[at.last()], lengths[at.last()]), starts[n])
        },
        forall|k: int|
            0 <= k < at.len() - 1 ==> call_ensures(
                sum,
                (starts[#[trigger] at[k]], lengths[at[k]]),
                starts[at[k + 1]],
            ),
    decreases n,
{
    if n <= 0 {
        Seq::empty()
    } else {
        let before = lemma_stretches(length, sum, points, lengths, starts, n - 1);
        assert(call_ensures(length, (points[n - 1], points[n - 1 + 1]), lengths[n - 1]));
        if positive(lengths[n - 1]) {
            let at = before.push(n - 1);
            assert forall|i: int|
                0 <= i < n && !(#[trigger] lengths[i]).nan()
                    && lengths[i].rank() > 0 implies at.contains(i) by {
                if i < n - 1 {
                    let k = choose|k: int| 0 <= k < before.len() && before[k] == i;
                    assert(at[k] == i);
                } else {
                    assert(at[at.len() - 1] == i);
                }
            }
            assert forall|k: int| 0 <= k < at.len() - 1 implies call_ensures(
                sum,
                (starts[#[trigger] at[k]], lengths[at[k]]),
                starts[at[k + 1]],
            ) by {
                assert(at[k] == before[k]);
                if k + 1 < before.len() {
                    assert(at[k + 1] == before[k + 1]);
                }
            }
            at
        } else {
            before
        }
    }
}

/// The stretches of a route are those of its legs whose length is a number above zero,
/// with their ends and lengths, in order; the first one starts at zero metres, and each
/// other one where the one before it ends.
pub proof fn stretches_follow_each_other<L, S>(
    length: L,
    sum: S,
    points: Seq<RoutePoint>,
    segments: Seq<RouteSegment>,
) where L: Fn(RoutePoint, RoutePoint) -> Binary64, S: Fn(Binary64, Binary64) -> Binary64
    requires
        points.len() > 0,
        cuts_route(length, sum, points, segments),
    ensures
        exists|lengths: Seq<Binary64>, at: Seq<int>|
            {
                &&& #[trigger] lengths.len() == points.len() - 1
                &&& #[trigger] at.len() == segments.len()
                &&& forall|i: int|
                    0 <= i < lengths.len() ==> call_ensures(
                        length,
                        (points[i], points[i + 1]),
                        #[trigger] lengths[i],
                    )
                &&& forall|k: int|
                    0 <= k < at.len() ==> {
                        &&& 0 <= #[trigger] at[k] < lengths.len()
                        &&& !lengths[at[k]].nan() && lengths[at[k]].rank() > 0
                        &&& segments[k].start == points[at[k]]
                        &&& segments[k].end == points[at[k] + 1]
                        &&& segments[k].length_m == lengths[at[k]]
                    }
                &&& forall|j: int, k: int| 0 <= j < k < at.len() ==> at[j] < at[k]
                &&& forall|i: int|
                    0 <= i < lengths.len() && !(#[trigger] lengths[i]).nan() && lengths[i].rank()
                        > 0 ==> at.contains(i)
            },
        segments.len() > 0 ==> segments[0].start_m.bits == 0,
        forall|k: int|
            0 <= k < segments.len() - 1 ==> call_ensures(
                sum,
                ((#[trigger] segments[k]).start_m, segments[k].length_m),
                segments[k + 1].start_m,
            ),
{
    let (lengths, starts) = choose|lengths: Seq<Binary64>, starts: Seq<Binary64>|
        #[trigger] leg_trace(length, sum, points, lengths, starts) && segments == stretches(
            points,
            lengths,
            starts,
            points.len() - 1,
        );
    let at = lemma_stretches(length, sum, points, lengths, starts, points.len() - 1);
    assert(lengths.len() == points.len() - 1 && at.len() == segments.len());
    assert forall|k: int| 0 <= k < segments.len() - 1 implies call_ensures(
        sum,
        ((#[trigger] segments[k]).start_m, segments[k].length_m),
        segments[k + 1].start_m,
    ) by {
        assert(0 <= at[k] && 0 <= at[k + 1]);
    }
    if segments.len() > 0 {
        assert(0 <= at[0]);
    }
}

/// What is listed is found by the index of the stretches of the route, which begins at
/// its first point; a route without a stretch lists nothing.
pub proof fn listing_needs_a_stretch<L, S, B, I, P, K, W>(
    length: L,
    sum: S,
    build: B,
    project: P,
    kilometre: K,
    whole: W,
    route: Seq<RoutePoint>,
    points: Seq<OsmWaterPoint>,
    max_distance_m: Binary64,
    results: Seq<WaterPointResult>,
) where
    L: Fn(RoutePoint, RoutePoint) -> Binary64,
    S: Fn(Binary64, Binary64) -> Binary64,
    B: Fn(RoutePoint, Vec<RouteSegment>) -> I,
    P: Fn(&I, Binary64, Binary64) -> Option<Projection>,
    K: Fn(Binary64) -> Binary64,
    W: Fn(Binary64) -> Binary64,

    requires
        lists_water_points(
            length,
            sum,
            build,
            project,
            kilometre,
            whole,
            route,
            points,
            max_distance_m,
            results,
        ),
    ensures
        route.len() < 2 ==> results.len() == 0,
        results.len() > 0 ==> exists|segments: Vec<RouteSegment>, index: I|
            {
                &&& segments@.len() > 0
                &&& cuts_route(length, sum, route, segments@)
                &&& #[trigger] call_ensures(build, (route[0], segments), index)
                &&& lists_along(
                    index,
                    project,
                    kilometre,
                    whole,
                    max_distance_m,
                    points,
                    results,
                )
            },
{
}

/// Every result stands for a water point: it has its type, identifier, name and place,
/// and the kilometre and distance that belong to its nearest place on the route, which
/// is no farther away than allowed.
pub proof fn results_describe_their_water_point<I, P, K, W>(
    index: I,
    project: P,
    kilometre: K,
    whole: W,
    max_distance_m: Binary64,
    points: Seq<OsmWaterPoint>,
    results: Seq<WaterPointResult>,
    k: int,
) where
    P: Fn(&I, Binary64, Binary64) -> Option<Projection>,
    K: Fn(Binary64) -> Binary64,
    W: Fn(Binary64) -> Binary64,

    requires
        points.len() <= usize::MAX,
        lists_along(index, project, kilometre, whole, max_distance_m, points, results),
        0 <= k < results.len(),
    ensures
        exists|i: int, p: Projection|
            {
                &&& 0 <= i < points.len()
                &&& #[trigger] call_ensures(
                    project,
                    (&index, points[i].lat, points[i].lon),
                    Some(p),
                )
                &&& results[k].osm_type == points[i].osm_type
                &&& results[k].osm_id == points[i].osm_id
                &&& results[k].name == points[i].name
                &&& results[k].lat == points[i].lat
                &&& results[k].lon == points[i].lon
                &&& !p.distance_to_route_m.nan() && !max_distance_m.nan()
                &&& p.distance_to_route_m.rank() <= max_distance_m.rank()
                &&& call_ensures(kilometre, (p.position_m,), results[k].km)
                &&& call_ensures(whole, (p.distance_to_route_m,), results[k].distance_to_route_m)
            },
{
    let (measured, order) = choose|measured: Seq<Measured>, order: Seq<usize>| #[trigger]
        measures(index, project, kilometre, whole, max_distance_m, points, measured) && #[trigger]
        projected(points, measured, max_distance_m, order, results);
    listed_points_are_reachable(points, measured, max_distance_m, order, results, k);
    let i = choose|i: int|
        0 <= i < points.len() && within_reach(#[trigger] measured[i], max_distance_m) && describes(
            results[k],
            points[i],
            measured[i],
        );
    let p = measured[i].projection->0;
    assert(call_ensures(project, (&index, points[i].lat, points[i].lon), Some(p)));
}

/// A water point is listed where its nearest place on the route is surely no farther
/// away than allowed.
pub proof fn near_water_points_are_listed<I, P, K, W>(
    index: I,
    project: P,
    kilometre: K,
    whole: W,
    max_distance_m: Binary64,
    points: Seq<OsmWaterPoint>,
    results: Seq<WaterPointResult>,
    i: int,
) where
    P: Fn(&I, Binary64, Binary64) -> Option<Projection>,
    K: Fn(Binary64) -> Binary64,
    W: Fn(Binary64) -> Binary64,

    requires
        points.len() <= usize::MAX,
        lists_along(index, project, kilometre, whole, max_distance_m, points, results),
        0 <= i < points.len(),
        !max_distance_m.nan(),
        forall|answer: Option<Projection>| #[trigger]
            call_ensures(project, (&index, points[i].lat, points[i].lon), answer) ==> {
                &&& answer matches Some(p)
                &&& !p.distance_to_route_m.nan()
                &&& p.distance_to_route_m.rank() <= max_distance_m.rank()
            },
    ensures
        exists|k: int|
            {
                &&& 0 <= k < results.len()
                &&& (#[trigger] results[k]).osm_type == points[i].osm_type
                &&& results[k].osm_id == points[i].osm_id
                &&& results[k].name == points[i].name
                &&& results[k].lat == points[i].lat
                &&& results[k].lon == points[i].lon
            },
{
    let (measured, order) = choose|measured: Seq<Measured>, order: Seq<usize>| #[trigger]
        measures(index, project, kilometre, whole, max_distance_m, points, measured) && #[trigger]
        projected(points, measured, max_distance_m, order, results);
    assert(call_ensures(
        project,
        (&index, points[i].lat, points[i].lon),
        measured[i].projection,
    ));
    reachable_points_are_listed(points, measured, max_distance_m, order, results, i);
}

proof fn lemma_reachable_increases(measured: Seq<Measured>, max_distance_m: Binary64)
    requires
        measured.len() <= usize::MAX,
    ensures
        forall|j: int, k: int|
            0 <= j < k < reachable(measured, max_distance_m).len() ==> reachable(
                measured,
                max_distance_m,
            )[j] < reachable(measured, max_distance_m)[k],
    decreases measured.len(),
{
    if measured.len() > 0 {
        let fewer = reachable(measured.drop_last(), max_distance_m);
        let all = reachable(measured, max_distance_m);
        lemma_reachable_positions(measured.drop_last(), max_distance_m);
        lemma_reachable_increases(measured.drop_last(), max_distance_m);
        assert forall|j: int, k: int| 0 <= j < k < all.len() implies all[j] < all[k] by {
            assert(all[j] == fewer[j]);
            if k < fewer.len() {
                assert(all[k] == fewer[k]);
            }
        }
    }
}

/// The results come by kilometre and those at one kilometre by distance; no water point
/// is listed twice, and those that lie equally far keep their order.
pub proof fn results_come_by_kilometre_and_distance<I, P, K, W>(
    index: I,
    project: P,
    kilometre: K,
    whole: W,
    max_distance_m: Binary64,
    points: Seq<OsmWaterPoint>,
    results: Seq<WaterPointResult>,
) where
    P: Fn(&I, Binary64, Binary64) -> Option<Projection>,
    K: Fn(Binary64) -> Binary64,
    W: Fn(Binary64) -> Binary64,

    requires
        points.len() <= usize::MAX,
        lists_along(index, project, kilometre, whole, max_distance_m, points, results),
    ensures
        exists|source: Seq<int>|
            {
                &&& #[trigger] source.len() == results.len()
                &&& forall|k: int|
                    0 <= k < source.len() ==> {
                        &&& 0 <= #[trigger] source[k] < points.len()
                        &&& results[k].osm_type == points[source[k]].osm_type
                        &&& results[k].osm_id == points[source[k]].osm_id
                    }
                &&& forall|j: int, k: int|
                    #![trigger source[j], source[k]]
                    0 <= j < k < source.len() ==> {
                        ||| results[j].km.rank() < results[k].km.rank()
                        ||| {
                            &&& results[j].km.rank() == results[k].km.rank()
                            &&& results[j].distance_to_route_m.rank()
                                < results[k].distance_to_route_m.rank()
                            &&& source[j] != source[k]
                        }
                        ||| {
                            &&& results[j].km.rank() == results[k].km.rank()
                            &&& results[j].distance_to_route_m.rank()
                                == results[k].distance_to_route_m.rank()
                            &&& source[j] < source[k]
                        }
                    }
                &&& source.no_duplicates()
            },
{
    let (measured, order) = choose|measured: Seq<Measured>, order: Seq<usize>| #[trigger]
        measures(index, project, kilometre, whole, max_distance_m, points, measured) && #[trigger]
        projected(points, measured, max_distance_m, order, results);
    let kept = reachable(measured, max_distance_m);
    let keys = keys_at(measured, kept);
    lemma_reachable_positions(measured, max_distance_m);
    lemma_reachable_increases(measured, max_distance_m);
    let source = Seq::new(results.len(), |k: int| kept[order[k] as int] as int);
    assert forall|k: int| 0 <= k < source.len() implies {
        &&& 0 <= #[trigger] source[k] < points.len()
        &&& results[k].osm_type == points[source[k]].osm_type
        &&& results[k].osm_id == points[source[k]].osm_id
    } by {
        assert(describes(results[k], points[source[k]], measured[source[k]]));
    }
    assert forall|j: int, k: int|
        #![trigger source[j], source[k]]
        0 <= j < k < source.len() implies {
        &&& source[j] != source[k]
        &&& {
            ||| results[j].km.rank() < results[k].km.rank()
            ||| {
                &&& results[j].km.rank() == results[k].km.rank()
                &&& results[j].distance_to_route_m.rank() < results[k].distance_to_route_m.rank()
            }
            ||| {
                &&& results[j].km.rank() == results[k].km.rank()
                &&& results[j].distance_to_route_m.rank() == results[k].distance_to_route_m.rank()
                &&& source[j] < source[k]
            }
        }
    } by {
        let a = order[j] as int;
        let b = order[k] as int;
        assert(crate::order::stands_before(keys, a, b));
        assert(a != b);
        assert(describes(results[j], points[source[j]], measured[source[j]]));
        assert(describes(results[k], points[source[k]], measured[source[k]]));
        assert(keys[a] == shown_key(measured[kept[a] as int]));
        assert(keys[b] == shown_key(measured[kept[b] as int]));
    }
    assert(source.len() == results.len());
}

} // verus!
