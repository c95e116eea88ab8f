//! The analysis of a submitted route.
//!
//! A submission that was analysed before is answered from the cache. Otherwise
//! its route is read, the water points around it are loaded, and those close
//! enough are put in order along the route.

use vstd::prelude::*;

use crate::api::ApiError;
use crate::binary64::Binary64;
use crate::geometry::{lists_water_points, project_water_points, Projection, RouteSegment};
use crate::gpx_parser::{parse_gpx_route, summarizes, tolerated_document, track_points, RouteError};
use crate::types::{AnalyzeResponse, BBox, OsmWaterPoint, RoutePoint, RouteSummary};

verus! {

/// A route and the area whose water points have to be looked at.
#[derive(Debug)]
pub struct AnalysisPlan {
    pub route: RouteSummary,
    pub area: BBox,
}

/// An analysis, and whether it came from the cache.
#[derive(Debug)]
pub struct AnalysisSuccess {
    pub analysis: AnalyzeResponse,
    pub cache_hit: bool,
}

/// What to do with a submission, given what the cache holds for it.
#[derive(Debug)]
pub enum AnalysisStep {
    /// The cached analysis is the answer.
    Done(AnalysisSuccess),
    /// The submission has to be analysed.
    Analyze,
}

/// Begins an analysis with what the cache holds.
pub fn begin_analysis(cached: Option<AnalyzeResponse>) -> (step: AnalysisStep)
    ensures
        match cached {
            Some(analysis) => step == AnalysisStep::Done(
                (AnalysisSuccess { analysis, cache_hit: true }),
            ),
            None => step is Analyze,
        },
{
    match cached {
        Some(analysis) => AnalysisStep::Done(AnalysisSuccess { analysis, cache_hit: true }),
        None => AnalysisStep::Analyze,
    }
}

/// Plans the analysis of a route that was read.
///
/// `expand` widens a box by a distance.
pub fn plan_for_route<E>(
    route: Result<RouteSummary, RouteError>,
    max_distance_m: Binary64,
    expand: &E,
) -> (plan: Result<AnalysisPlan, ApiError>) where E: Fn(BBox, Binary64) -> BBox
    requires
        forall|b: BBox, d: Binary64| call_requires(*expand, (b, d)),
    ensures
        match plan {
            Ok(p) => {
                &&& route == Ok::<RouteSummary, RouteError>(p.route)
                &&& p.route.points@.len() > 0
                &&& call_ensures(*expand, (BBox::around(p.route.points@), max_distance_m), p.area)
            },
            Err(error) => {
                &&& error.says(400, "bad_request"@)
                &&& route matches Ok(r) ==> r.points@.len() == 0
            },
        },
{
    match route {
        Err(_) => Err(ApiError::bad_request()),
        Ok(route) => match BBox::from_points(route.points.as_slice()) {
            None => Err(ApiError::bad_request()),
            Some(bbox) => {
                let area = expand(bbox, max_distance_m);
                Ok(AnalysisPlan { route, area })
            },
        },
    }
}

/// Reads the route of a submission and plans its analysis; a document that gives no
/// route is the sender's fault.
pub fn plan_analysis<D, R, A, E>(
    bytes: &[u8],
    max_distance_m: Binary64,
    advance: &D,
    reaches: &R,
    accumulate: &A,
    expand: &E,
) -> (plan: Result<AnalysisPlan, ApiError>) where
    D: Fn(Binary64, RoutePoint, RoutePoint) -> Binary64,
    R: Fn(Binary64, Binary64, Binary64) -> bool,
    A: Fn(Binary64, Binary64, Binary64) -> Binary64,
    E: Fn(BBox, Binary64) -> BBox,

    requires
        forall|d: Binary64, a: RoutePoint, b: RoutePoint| call_requires(*advance, (d, a, b)),
        forall|a: Binary64, b: Binary64, c: Binary64| call_requires(*reaches, (a, b, c)),
        forall|a: Binary64, b: Binary64, c: Binary64| call_requires(*accumulate, (a, b, c)),
        forall|b: BBox, d: Binary64| call_requires(*expand, (b, d)),
    ensures
        match plan {
            Ok(p) => {
                &&& tolerated_document(bytes@) matches Ok(tracks)
                &&& track_points(tracks).len() >= 2
                &&& summarizes(*advance, *reaches, *accumulate, track_points(tracks), p.route)
                &&& call_ensures(
                    *expand,
                    (BBox::around(track_points(tracks)), max_distance_m),
                    p.area,
                )
            },
            Err(error) => {
                &&& error.says(400, "bad_request"@)
                &&& tolerated_document(bytes@) matches Ok(tracks) ==> track_points(tracks).len() < 2
            },
        },
{
    plan_for_route(
        parse_gpx_route(bytes, advance, reaches, accumulate),
        max_distance_m,
        expand,
    )
}

/// Ends an analysis with the water points of the area.
///
/// The water points within `max_distance_m` of the route stand in the answer by
/// kilometre. The arithmetic is that of `project_water_points`.
pub fn finish_analysis<L, S, B, I, P, K, W>(
    plan: AnalysisPlan,
    water_points: &Vec<OsmWaterPoint>,
    max_distance_m: Binary64,
    length: &L,
    sum: &S,
    build: &B,
    project: &P,
    kilometre: &K,
    whole: &W,
) -> (success: AnalysisSuccess) where
    L: Fn(RoutePoint, RoutePoint) -> Binary64,
    S: Fn(Binary64, Binary64) -> Binary64,
    B: Fn(RoutePoint, Vec<RouteSegment>) -> I,
    P: Fn(&I, Binary64, Binary64) -> Option<Projection>,
    K: Fn(Binary64) -> Binary64,
    W: Fn(Binary64) -> Binary64,

    requires
        forall|a: RoutePoint, b: RoutePoint| call_requires(*length, (a, b)),
        forall|a: Binary64, b: Binary64| call_requires(*sum, (a, b)),
        forall|a: RoutePoint, b: Vec<RouteSegment>| call_requires(*build, (a, b)),
        forall|i: &I, a: Binary64, b: Binary64| call_requires(*project, (i, a, b)),
        forall|v: Binary64| call_requires(*kilometre, (v,)),
        forall|v: Binary64| call_requires(*whole, (v,)),
    ensures
        !success.cache_hit,
        success.analysis.route == plan.route,
        lists_water_points(
            *length,
            *sum,
            *build,
            *project,
            *kilometre,
            *whole,
            plan.route.points@,
            water_points@,
            max_distance_m,
            success.analysis.water_points@,
        ),
        forall|i: int, j: int|
            0 <= i < j < success.analysis.water_points@.len() ==> (
            #[trigger] success.analysis.water_points@[i]).km.rank() <= (
            #[trigger] success.analysis.water_points@[j]).km.rank(),
        forall|k: int|
            0 <= k < success.analysis.water_points@.len() ==> exists|i: int|
                {
                    &&& 0 <= i < water_points@.len()
                    &&& (#[trigger] success.analysis.water_points@[k]).osm_type == (
                    #[trigger] water_points@[i]).osm_type
                    &&& success.analysis.water_points@[k].osm_id == water_points@[i].osm_id
                    &&& success.analysis.water_points@[k].name == water_points@[i].name
                    &&& success.analysis.water_points@[k].lat == water_points@[i].lat
                    &&& success.analysis.water_points@[k].lon == water_points@[i].lon
                },
{
    let projected_points = project_water_points(
        &plan.route,
        water_points,
        max_distance_m,
        length,
        sum,
        build,
        project,
        kilometre,
        whole,
    );
    AnalysisSuccess {
        analysis: AnalyzeResponse { route: plan.route, water_points: projected_points },
        cache_hit: false,
    }
}

} // verus!
