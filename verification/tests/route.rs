use aquatrace::analysis::{begin_analysis, finish_analysis, plan_analysis, AnalysisStep};
use aquatrace::binary64::Binary64;
use aquatrace::elevation::{elevation_gain_loss, elevation_range, ELEVATION_DEADBAND_BITS};
use aquatrace::geometry::{
    project_point, project_water_points, route_segments, Projection, RouteSegment,
};
use aquatrace::gpx_parser::{parse_gpx_route, route_from_tracks, summarize_route, RouteError};
use aquatrace::gpx_time::{element_times, has_convertible_times, OffsetTime, XmlKind, XmlPart};
use aquatrace::license::{find_bytes, remove_empty_license_elements};
use aquatrace::order::{stable_order, SortKey};
use aquatrace::types::{
    AnalyzeResponse, BBox, OsmElementType, OsmWaterPoint, RoutePoint, RouteSummary,
    WaterPointResult,
};

fn number(value: f64) -> Binary64 {
    Binary64 { bits: value.to_bits() }
}

fn value(number: Binary64) -> f64 {
    f64::from_bits(number.bits)
}

fn point(lat: f64, lon: f64, ele: Option<f64>) -> RoutePoint {
    RoutePoint { lat: number(lat), lon: number(lon), ele: ele.map(number) }
}

fn haversine_m(a: RoutePoint, b: RoutePoint) -> f64 {
    let radius_m = 6_371_000.0;
    let lat1 = value(a.lat).to_radians();
    let lat2 = value(b.lat).to_radians();
    let dlat = (value(b.lat) - value(a.lat)).to_radians();
    let dlon = (value(b.lon) - value(a.lon)).to_radians();
    let h = (dlat / 2.0).sin().powi(2) + lat1.cos() * lat2.cos() * (dlon / 2.0).sin().powi(2);
    2.0 * radius_m * h.sqrt().atan2((1.0 - h).sqrt())
}

fn advance(total: Binary64, a: RoutePoint, b: RoutePoint) -> Binary64 {
    number(value(total) + haversine_m(a, b))
}

fn reaches(upper: Binary64, lower: Binary64, limit: Binary64) -> bool {
    value(upper) - value(lower) >= value(limit)
}

fn accumulate(total: Binary64, upper: Binary64, lower: Binary64) -> Binary64 {
    number(value(total) + (value(upper) - value(lower)))
}

fn summary_of(points: Vec<RoutePoint>) -> RouteSummary {
    summarize_route(points, &advance, &reaches, &accumulate)
}

fn parse(bytes: &[u8]) -> Result<RouteSummary, RouteError> {
    parse_gpx_route(bytes, &advance, &reaches, &accumulate)
}

fn metric(lat: f64, lon: f64, origin: RoutePoint, meters_per_lon: f64) -> [f64; 2] {
    [(lon - value(origin.lon)) * meters_per_lon, (lat - value(origin.lat)) * 111_320.0]
}

fn project_on(segment: &RouteSegment, origin: RoutePoint, meters: f64, at: [f64; 2]) -> Projection {
    let start = metric(value(segment.start.lat), value(segment.start.lon), origin, meters);
    let end = metric(value(segment.end.lat), value(segment.end.lon), origin, meters);
    let dx = end[0] - start[0];
    let dy = end[1] - start[1];
    let length_sq = dx * dx + dy * dy;
    let t = if length_sq == 0.0 {
        0.0
    } else {
        (((at[0] - start[0]) * dx + (at[1] - start[1]) * dy) / length_sq).clamp(0.0, 1.0)
    };
    let x = start[0] + t * dx;
    let y = start[1] + t * dy;
    Projection {
        distance_to_route_m: number(((at[0] - x).powi(2) + (at[1] - y).powi(2)).sqrt()),
        position_m: number(value(segment.start_m) + value(segment.length_m) * t),
    }
}

fn nearest(segments: &[RouteSegment], origin: RoutePoint, lat: f64, lon: f64) -> Option<Projection> {
    let meters = 111_320.0 * value(origin.lat).to_radians().cos().abs().max(0.01);
    let at = metric(lat, lon, origin, meters);
    let mut best: Option<Projection> = None;
    for segment in segments {
        let candidate = project_on(segment, origin, meters, at);
        let closer = match best {
            Some(b) => value(candidate.distance_to_route_m) < value(b.distance_to_route_m),
            None => true,
        };
        if closer {
            best = Some(candidate);
        }
    }
    best
}

fn leg_length(a: RoutePoint, b: RoutePoint) -> Binary64 {
    number(haversine_m(a, b))
}

fn sum(x: Binary64, y: Binary64) -> Binary64 {
    number(value(x) + value(y))
}

fn segments_of(route: &RouteSummary) -> Vec<RouteSegment> {
    route_segments(&route.points, &leg_length, &sum)
}

struct Index {
    origin: RoutePoint,
    segments: Vec<RouteSegment>,
}

fn build(origin: RoutePoint, segments: Vec<RouteSegment>) -> Index {
    Index { origin, segments }
}

fn project(index: &Index, lat: Binary64, lon: Binary64) -> Option<Projection> {
    nearest(&index.segments, index.origin, value(lat), value(lon))
}

fn projection_of(route: &RouteSummary, lat: f64, lon: f64) -> Option<Projection> {
    project_point(route, number(lat), number(lon), &leg_length, &sum, &build, &project)
}

fn listed_along(route: &RouteSummary, points: &Vec<OsmWaterPoint>, max: f64) -> Vec<WaterPointResult> {
    project_water_points(
        route,
        points,
        number(max),
        &leg_length,
        &sum,
        &build,
        &project,
        &kilometre,
        &whole,
    )
}

fn kilometre(position: Binary64) -> Binary64 {
    number((value(position) / 1000.0 * 10.0).round() / 10.0)
}

fn whole(distance: Binary64) -> Binary64 {
    number(value(distance).round())
}

fn sample_route() -> RouteSummary {
    summary_of(vec![point(45.0, 5.0, None), point(45.01, 5.0, None)])
}

fn water(osm_id: i64, lat: f64, lon: f64, name: &str) -> OsmWaterPoint {
    OsmWaterPoint {
        osm_type: OsmElementType::Node,
        osm_id,
        lat: number(lat),
        lon: number(lon),
        name: Some(name.to_owned()),
    }
}

#[test]
fn summarizes_distance_and_elevation() {
    let summary = summary_of(vec![
        point(45.0, 5.0, Some(100.0)),
        point(45.001, 5.0, Some(130.0)),
        point(45.002, 5.0, Some(90.0)),
    ]);

    assert!((value(summary.distance_m) - 222.4).abs() < 1.0);
    assert_eq!(value(summary.elevation_gain_m), 30.0);
    assert_eq!(value(summary.elevation_loss_m), 40.0);
    assert_eq!(summary.min_elevation_m.map(value), Some(90.0));
    assert_eq!(summary.max_elevation_m.map(value), Some(130.0));
}

#[test]
fn ignores_small_elevation_noise() {
    let summary = summary_of(vec![
        point(45.0, 5.0, Some(100.0)),
        point(45.001, 5.0, Some(101.5)),
        point(45.002, 5.0, Some(100.4)),
        point(45.003, 5.0, Some(102.0)),
        point(45.004, 5.0, Some(110.0)),
    ]);

    assert_eq!(value(summary.elevation_gain_m), 10.0);
    assert_eq!(value(summary.elevation_loss_m), 0.0);
}

#[test]
fn counts_elevation_after_direction_change_exceeds_deadband() {
    let summary = summary_of(vec![
        point(45.0, 5.0, Some(100.0)),
        point(45.001, 5.0, Some(110.0)),
        point(45.002, 5.0, Some(108.0)),
        point(45.003, 5.0, Some(95.0)),
    ]);

    assert_eq!(value(summary.elevation_gain_m), 10.0);
    assert_eq!(value(summary.elevation_loss_m), 15.0);
}

#[test]
fn removes_only_empty_license_elements() {
    assert_eq!(
        remove_empty_license_elements(b"<metadata><license /></metadata>").unwrap(),
        b"<metadata></metadata>"
    );
    assert_eq!(remove_empty_license_elements(b"<license>\r\n  </license>").unwrap(), b"");
    assert!(remove_empty_license_elements(b"<license>MIT</license>").is_none());
    assert!(remove_empty_license_elements(b"<licensee></licensee>").is_none());
}

#[test]
fn rejects_empty_tracks() {
    let gpx = br#"<?xml version="1.0"?><gpx version="1.1" creator="test"></gpx>"#;
    assert!(parse(gpx).is_err());
}

#[test]
fn parses_track_points() {
    let gpx = br#"<?xml version="1.0"?>
<gpx version="1.1" creator="test" xmlns="http://www.topografix.com/GPX/1/1">
  <trk><trkseg>
    <trkpt lat="45.0" lon="5.0"><ele>100</ele></trkpt>
    <trkpt lat="45.001" lon="5.0"><ele>110</ele></trkpt>
  </trkseg></trk>
</gpx>"#;

    let summary = parse(gpx).unwrap();
    assert_eq!(summary.points.len(), 2);
    assert_eq!(value(summary.elevation_gain_m), 10.0);
}

#[test]
fn projects_point_onto_route() {
    let route = sample_route();
    let projection = projection_of(&route, 45.005, 5.001).unwrap();

    assert!((value(projection.position_m) - value(route.distance_m) / 2.0).abs() < 5.0);
    assert!((value(projection.distance_to_route_m) - 78.7).abs() < 2.0);
}

#[test]
fn computes_kilometer_and_filters_by_distance() {
    let route = sample_route();
    let points = vec![water(1, 45.005, 5.001, "Near"), water(2, 45.005, 5.02, "Far")];

    let projected = listed_along(&route, &points, 200.0);
    assert_eq!(projected.len(), 1);
    assert_eq!(projected[0].osm_id, 1);
    assert!(value(projected[0].km) > 0.5);
    assert!(value(projected[0].distance_to_route_m) < 100.0);
}

#[test]
fn projects_nearby_point_outside_exact_segment_envelope() {
    let route = sample_route();
    let projection = projection_of(&route, 45.005, 5.002).unwrap();

    assert!((value(projection.position_m) - value(route.distance_m) / 2.0).abs() < 5.0);
    assert!(value(projection.distance_to_route_m) > 150.0);
    assert!(value(projection.distance_to_route_m) < 170.0);
}

#[test]
fn a_document_that_is_no_gpx_is_invalid() {
    assert_eq!(parse(b"not gpx").unwrap_err(), RouteError::InvalidDocument);
    assert_eq!(parse(b"").unwrap_err(), RouteError::InvalidDocument);
}

#[test]
fn latitudes_beyond_the_pole_are_invalid() {
    let gpx = br#"<gpx version="1.1" creator="test"><trk><trkseg>
        <trkpt lat="91.0" lon="5.0"></trkpt><trkpt lat="45.0" lon="5.0"></trkpt>
        </trkseg></trk></gpx>"#;
    assert_eq!(parse(gpx).unwrap_err(), RouteError::InvalidDocument);
}

#[test]
fn one_point_makes_no_route() {
    let gpx = br#"<gpx version="1.1" creator="test"><trk><trkseg>
        <trkpt lat="45.0" lon="5.0"></trkpt></trkseg></trk></gpx>"#;
    assert_eq!(parse(gpx).unwrap_err(), RouteError::TooFewPoints);
}

#[test]
fn points_of_all_segments_and_tracks_are_joined() {
    let gpx = br#"<gpx version="1.1" creator="test">
        <trk><trkseg><trkpt lat="45.0" lon="5.0"></trkpt></trkseg>
        <trkseg><trkpt lat="46.0" lon="5.5"></trkpt></trkseg></trk>
        <trk><trkseg><trkpt lat="47.0" lon="6.0"></trkpt></trkseg></trk></gpx>"#;
    let summary = parse(gpx).unwrap();
    let lats: Vec<f64> = summary.points.iter().map(|p| value(p.lat)).collect();
    let lons: Vec<f64> = summary.points.iter().map(|p| value(p.lon)).collect();
    assert_eq!(lats, vec![45.0, 46.0, 47.0]);
    assert_eq!(lons, vec![5.0, 5.5, 6.0]);
    assert_eq!(summary.min_elevation_m, None);
    assert_eq!(summary.max_elevation_m, None);
}

#[test]
fn an_empty_license_does_not_spoil_a_document() {
    let gpx = br#"<?xml version="1.0"?>
<gpx version="1.1" creator="test" xmlns="http://www.topografix.com/GPX/1/1">
  <metadata><copyright author="someone"><license></license></copyright></metadata>
  <trk><trkseg>
    <trkpt lat="45.0" lon="5.0"></trkpt>
    <trkpt lat="45.1" lon="5.0"></trkpt>
  </trkseg></trk>
</gpx>"#;
    assert!(matches!(
        gpx::read(std::io::Cursor::new(&gpx[..])),
        Err(gpx::errors::GpxError::NoStringContent)
    ));
    assert_eq!(parse(gpx).unwrap().points.len(), 2);
}

#[test]
fn an_empty_element_other_than_a_license_spoils_a_document() {
    let gpx = br#"<gpx version="1.1" creator="test"><trk><type></type><trkseg>
        <trkpt lat="45.0" lon="5.0"></trkpt><trkpt lat="45.1" lon="5.0"></trkpt>
        </trkseg></trk></gpx>"#;
    assert!(matches!(
        gpx::read(std::io::Cursor::new(&gpx[..])),
        Err(gpx::errors::GpxError::NoStringContent)
    ));
    assert_eq!(parse(gpx).unwrap_err(), RouteError::InvalidDocument);
}

#[test]
fn tracks_with_two_points_make_a_route() {
    let tracks = vec![vec![vec![point(45.0, 5.0, None)], vec![point(45.01, 5.0, None)]]];
    let route = route_from_tracks(&tracks, &advance, &reaches, &accumulate).unwrap();
    assert_eq!(route.points.len(), 2);
    assert!((value(route.distance_m) - 1111.9).abs() < 1.0);
    assert_eq!(
        route_from_tracks(&vec![vec![vec![]]], &advance, &reaches, &accumulate).unwrap_err(),
        RouteError::TooFewPoints
    );
}

#[test]
fn several_licenses_are_removed_and_the_rest_is_kept() {
    let cleaned =
        remove_empty_license_elements(b"a<license/>b<license>x</license>c<license ></license>d");
    assert_eq!(cleaned.unwrap(), b"ab<license>x</license>cd");
    assert!(remove_empty_license_elements(b"<license").is_none());
    assert!(remove_empty_license_elements(b"<license><license/>").is_some());
}

#[test]
fn finds_the_first_occurrence() {
    assert_eq!(find_bytes(b"abcabc", b"bc"), Some(1));
    assert_eq!(find_bytes(b"abc", b"abcd"), None);
    assert_eq!(find_bytes(b"", b"a"), None);
}

#[test]
fn elevations_may_be_missing() {
    let points = vec![
        point(45.0, 5.0, None),
        point(45.0, 5.0, Some(20.0)),
        point(45.0, 5.0, None),
        point(45.0, 5.0, Some(5.0)),
    ];
    let (gain, loss) = elevation_gain_loss(&points, &reaches, &accumulate);
    assert_eq!((value(gain), value(loss)), (0.0, 15.0));
    let (low, high) = elevation_range(&points);
    assert_eq!((low.map(value), high.map(value)), (Some(5.0), Some(20.0)));
    let none: Vec<RoutePoint> = vec![point(45.0, 5.0, None)];
    let (gain, loss) = elevation_gain_loss(&none, &reaches, &accumulate);
    assert_eq!((value(gain), value(loss)), (0.0, 0.0));
}

#[test]
fn the_deadband_is_ten_metres() {
    assert_eq!(f64::from_bits(ELEVATION_DEADBAND_BITS), 10.0);
    let exact = vec![
        point(45.0, 5.0, Some(100.0)),
        point(45.0, 5.0, Some(120.0)),
        point(45.0, 5.0, Some(110.0)),
        point(45.0, 5.0, Some(115.0)),
    ];
    let (gain, loss) = elevation_gain_loss(&exact, &reaches, &accumulate);
    assert_eq!((value(gain), value(loss)), (20.0, 10.0));
    let below = vec![
        point(45.0, 5.0, Some(100.0)),
        point(45.0, 5.0, Some(120.0)),
        point(45.0, 5.0, Some(110.5)),
        point(45.0, 5.0, Some(115.0)),
    ];
    let (gain, loss) = elevation_gain_loss(&below, &reaches, &accumulate);
    assert_eq!((value(gain), value(loss)), (20.0, 0.0));
}

#[test]
fn numbers_are_ordered_as_their_values() {
    let values = [f64::NEG_INFINITY, -2.5, -1.0, -0.0, 0.0, 1e-300, 1.0, 90.0, f64::INFINITY];
    for a in values {
        for b in values {
            assert_eq!(number(a).at_most(number(b)), a <= b, "{a} {b}");
            assert_eq!(value(number(a).min(number(b))), a.min(b));
            assert_eq!(value(number(a).max(number(b))), a.max(b));
        }
        assert!(!number(a).is_nan());
        assert_eq!(number(a).is_finite(), a.is_finite());
        assert!(!number(f64::NAN).at_most(number(a)));
        assert!(!number(a).at_most(number(f64::NAN)));
        assert_eq!(value(number(a).min(number(f64::NAN))), a);
        assert_eq!(value(number(f64::NAN).max(number(a))), a);
    }
    assert!(number(f64::NAN).is_nan());
    assert!(!number(f64::NAN).is_finite());
    assert_eq!(Binary64::zero().bits, 0);
    assert_eq!(Binary64::from_bits(7).bits, 7);
    assert_eq!(number(-1.0).order_rank(), -number(1.0).order_rank());
}

#[test]
fn boxes_cover_their_points() {
    let points = [point(45.0, 5.0, None), point(44.0, 6.0, None), point(46.0, 5.5, None)];
    let bbox = BBox::from_points(&points).unwrap();
    assert_eq!(value(bbox.min_lat), 44.0);
    assert_eq!(value(bbox.max_lat), 46.0);
    assert_eq!(value(bbox.min_lon), 5.0);
    assert_eq!(value(bbox.max_lon), 6.0);
    for p in points {
        assert!(bbox.contains(BBox::from_points(&[p]).unwrap()));
    }
    assert!(BBox::from_points(&[]).is_none());
    let other = BBox::from_points(&[point(50.0, 1.0, None)]).unwrap();
    let both = bbox.union(other);
    assert!(both.contains(bbox) && both.contains(other));
    assert!(!bbox.contains(both));
}

#[test]
fn points_without_distance_make_no_segment() {
    let route = summary_of(vec![
        point(45.0, 5.0, None),
        point(45.0, 5.0, None),
        point(45.01, 5.0, None),
        point(45.02, 5.0, None),
    ]);
    let segments = segments_of(&route);
    assert_eq!(segments.len(), 2);
    assert_eq!(value(segments[0].start_m), 0.0);
    assert_eq!(segments[0].start, route.points[1]);
    assert_eq!(segments[1].start_m, segments[0].length_m);
    assert_eq!(segments_of(&summary_of(vec![])).len(), 0);
    assert_eq!(segments_of(&summary_of(vec![point(1.0, 1.0, None)])).len(), 0);
}

#[test]
fn water_points_are_listed_by_kilometre_and_then_by_distance() {
    let places = [(1, 3.0, 40.0), (2, 1.0, 90.0), (3, 1.0, 20.0), (4, 2.0, 600.0), (5, 3.0, 40.0)];
    let points: Vec<OsmWaterPoint> = places.iter().map(|p| water(p.0, p.0 as f64, 0.0, "x")).collect();
    let listed = project_water_points(
        &sample_route(),
        &points,
        number(500.0),
        &leg_length,
        &sum,
        &build,
        &|_index, lat, _lon| {
            places.iter().find(|p| p.0 as f64 == value(lat)).map(|p| Projection {
                distance_to_route_m: number(p.2),
                position_m: number(p.1 * 1000.0),
            })
        },
        &kilometre,
        &whole,
    );
    let ids: Vec<i64> = listed.iter().map(|p| p.osm_id).collect();
    assert_eq!(ids, vec![3, 2, 1, 5]);
    assert_eq!(listed[0].name.as_deref(), Some("x"));
    assert_eq!(value(listed[1].km), 1.0);
    assert_eq!(value(listed[1].distance_to_route_m), 90.0);
}

#[test]
fn nothing_is_near_a_route_without_segments() {
    for points in [vec![], vec![point(45.0, 5.0, None)], vec![point(45.0, 5.0, None); 3]] {
        let route = summary_of(points);
        assert!(listed_along(&route, &vec![water(1, 45.0, 5.0, "x")], 500.0).is_empty());
        assert_eq!(projection_of(&route, 45.0, 5.0), None);
    }
    let nowhere = project_water_points(
        &sample_route(),
        &vec![water(1, 45.0, 5.0, "x")],
        number(500.0),
        &leg_length,
        &sum,
        &build,
        &|_index, _lat, _lon| None,
        &kilometre,
        &whole,
    );
    assert!(nowhere.is_empty());
}

#[test]
fn equal_keys_keep_their_order() {
    let key = |major: i128, minor: i128| SortKey { major, minor };
    let keys = vec![key(2, 0), key(1, 5), key(2, 0), key(1, 4), key(-3, 9)];
    assert_eq!(stable_order(&keys), vec![4, 3, 1, 0, 2]);
    assert_eq!(stable_order(&vec![]), Vec::<usize>::new());
}

const GPX: &str = r#"<?xml version="1.0"?>
<gpx version="1.1" creator="test" xmlns="http://www.topografix.com/GPX/1/1">
  <trk><trkseg>
    <trkpt lat="45.0" lon="5.0"><ele>100</ele></trkpt>
    <trkpt lat="45.01" lon="5.0"><ele>120</ele></trkpt>
  </trkseg></trk>
</gpx>"#;

fn expand(bbox: BBox, meters: Binary64) -> BBox {
    let delta = value(meters) / 111_320.0;
    BBox {
        min_lat: number(value(bbox.min_lat) - delta),
        min_lon: number(value(bbox.min_lon) - delta),
        max_lat: number(value(bbox.max_lat) + delta),
        max_lon: number(value(bbox.max_lon) + delta),
    }
}

#[test]
fn a_submission_is_analysed() {
    let plan =
        plan_analysis(GPX.as_bytes(), number(500.0), &advance, &reaches, &accumulate, &expand).unwrap();
    assert!(plan.area.contains(BBox::from_points(&plan.route.points).unwrap()));
    let points = vec![water(123, 45.005, 5.001, "Village Fountain")];
    let success = finish_analysis(
        plan,
        &points,
        number(500.0),
        &leg_length,
        &sum,
        &build,
        &project,
        &kilometre,
        &whole,
    );
    assert!(!success.cache_hit);
    assert!(value(success.analysis.route.distance_m) > 1000.0);
    assert_eq!(success.analysis.water_points[0].osm_type, OsmElementType::Node);
    assert_eq!(success.analysis.water_points[0].osm_id, 123);
    assert_eq!(success.analysis.water_points[0].name.as_deref(), Some("Village Fountain"));
}

#[test]
fn a_submission_without_a_route_is_a_bad_request() {
    for bytes in [&b"not gpx"[..], &b""[..], &br#"<gpx version="1.1" creator="t"></gpx>"#[..]] {
        let error =
            plan_analysis(bytes, number(500.0), &advance, &reaches, &accumulate, &expand).unwrap_err();
        assert_eq!(error.status, 400);
        assert_eq!(error.code, "bad_request");
    }
}

#[test]
fn a_cached_analysis_is_the_answer() {
    let analysis = AnalyzeResponse { route: sample_route(), water_points: vec![] };
    match begin_analysis(Some(analysis)) {
        AnalysisStep::Done(success) => {
            assert!(success.cache_hit);
            assert_eq!(success.analysis.route.points.len(), 2);
        }
        AnalysisStep::Analyze => panic!("the cache was ignored"),
    }
    assert!(matches!(begin_analysis(None), AnalysisStep::Analyze));
}

#[test]
fn the_index_is_built_of_the_route() {
    let route = summary_of(vec![
        point(45.0, 5.0, None),
        point(45.0, 5.0, None),
        point(45.01, 5.0, None),
        point(45.02, 5.0, None),
    ]);
    let expected = segments_of(&route);
    let seen = project_point(
        &route,
        number(1.0),
        number(2.0),
        &leg_length,
        &sum,
        &build,
        &|index: &Index, lat: Binary64, lon: Binary64| {
            assert_eq!(index.origin, route.points[0]);
            assert_eq!(index.segments, expected);
            Some(Projection { distance_to_route_m: lat, position_m: lon })
        },
    );
    assert_eq!(
        seen,
        Some(Projection { distance_to_route_m: number(1.0), position_m: number(2.0) })
    );
}

fn timed(time: &str) -> String {
    format!(
        r#"<?xml version="1.0"?>
<gpx version="1.1" creator="test" xmlns="http://www.topografix.com/GPX/1/1">
  <trk><trkseg>
    <trkpt lat="45.0" lon="5.0"><ele>100</ele><time>{time}</time></trkpt>
    <trkpt lat="45.01" lon="5.0"><ele>120</ele></trkpt>
  </trkseg></trk>
</gpx>"#
    )
}

#[test]
fn times_within_the_calendar_are_read() {
    let times = [
        "2024-05-01T12:00:00Z",
        "2024-12-31T23:59:59-01:00",
        "9999-12-31T23:59:59Z",
        "9999-12-31T23:59:59",
        "9999-12-31T23:59:59+01:00",
        "9999-12-31T22:59:59-01:00",
        "9999-12-31T23:00:59-00:59",
        "99991231T225959-0100",
        "9999-12-30T22:00:59-25:59",
        "9999-12-29T23:59:59-12:00",
        "99991231T235959Z",
        "9999-365T23:59:59Z",
        "9999-W52-5T23:59:59+02",
        "1999-12-31T23:59:59-01:00",
        "99991231T23-0030",
        "-009999-12-31T23:59:59-01:00",
        "9999-12-31T22.9-01:00",
        "-009999-01-01T00:00:00Z",
        "-009999-01-01T01:00:00+01:00",
        "-0099990101T0100+0100",
        "-009999-01-02T00:00:00+24:00",
        "+009999-12-31T23:59:59Z",
    ];
    for time in times {
        let document = timed(time);
        assert!(has_convertible_times(document.as_bytes()), "{time}");
        assert_eq!(parse(document.as_bytes()).map(|r| r.points.len()), Ok(2), "{time}");
    }
    for note in ["from 99.9999 to -9.9999", "call 9999-1231 - now", "&#9999; &amp; 100%"] {
        let document = timed("2024-05-01T12:00:00Z").replace("<ele>120</ele>", &format!("<name>{note}</name>"));
        assert_eq!(parse(document.as_bytes()).unwrap().points.len(), 2, "{note}");
    }
}

#[test]
fn times_beyond_the_calendar_are_invalid() {
    let times = [
        "9999-12-31T23:59:59-01:00",
        "9999-12-31T23:59:59.999-00:01",
        "9999-12-31T23:00-01",
        "9999-12-31T23:01:00-00:59",
        "9999-12-31T00:00-24:00",
        "9999-12-30T23:00:00-25:00",
        "9999-12-30T22:01:00-25:59",
        "99991231T235959-0100",
        "9999-365T23:59:59-01:00",
        "9999365T235959-01",
        "9999-364T23:30-25:30",
        "9999-W52-5T23,5-01:00",
        "9999W525T235959-0100",
        "9999W524T235959-2500",
        "+009999-12-31T23:59:59-01:00",
        "-009999-01-01T00:00:00+00:01",
        "-009999-01-01T00:30:00+01:00",
        "-0099990101T0000+01",
        "-009999-001T00:00:00+01:00",
        "-009999001T000000+0100",
        "-009999-W01-1T00:00:00+01:00",
        "-009999W011T000000+0100",
        "-009999-01-02T00:30:00+25:00",
        "-009999-W01-2T00:00+24:30",
        "&#57;&#x39;&#0057;&#x0039;-12-31T23:59:59-01:00",
        "9999-12-31T23:59:59&#45;01:00",
        "99<!-- two and two -->99-12-31T23:59:59-01:00",
        "<![CDATA[9999-12-31T23]]>:59<![CDATA[:59-01:00]]>",
        "9<![CDATA[]]>999<!---->-12-31T23:59:59-<!-- one -->01:00",
    ];
    for time in times {
        let document = timed(time);
        assert!(!has_convertible_times(document.as_bytes()), "{time}");
        assert_eq!(parse(document.as_bytes()).unwrap_err(), RouteError::InvalidDocument, "{time}");
        for wide in [true, false] {
            let bytes = in_two_bytes(&document, wide);
            assert_eq!(parse(&bytes).unwrap_err(), RouteError::InvalidDocument, "{time}");
        }
    }
}

fn in_two_bytes(text: &str, big_endian: bool) -> Vec<u8> {
    let mut bytes = Vec::new();
    for unit in format!("\u{feff}{text}").encode_utf16() {
        bytes.extend(if big_endian { unit.to_be_bytes() } else { unit.to_le_bytes() });
    }
    bytes
}

#[test]
fn wide_encodings_are_read() {
    let document = timed("2024-05-01T12:00:00Z").replace("test", "\u{2d2d}\u{3c21}\u{1f6b0}");
    for big_endian in [true, false] {
        let bytes = in_two_bytes(&document, big_endian);
        assert!(has_convertible_times(&bytes));
        assert_eq!(parse(&bytes).unwrap().points.len(), 2);
    }
    let late = timed("9999-12-31T23:59:59-01:00").replace("test", "\u{2d2d}\u{3c21}\u{1f6b0}");
    for big_endian in [true, false] {
        let bytes = in_two_bytes(&late, big_endian);
        assert!(!has_convertible_times(&bytes));
        assert_eq!(parse(&bytes).unwrap_err(), RouteError::InvalidDocument);
    }
}

#[test]
fn prefixed_and_outer_times_count_as_well() {
    let prefixed = timed("2024-05-01T12:00:00Z")
        .replace("<gpx ", r#"<g:gpx xmlns:g="http://www.topografix.com/GPX/1/1" "#)
        .replace("</gpx>", "</g:gpx>")
        .replace("<time>", "<g:time>")
        .replace("</time>", "</g:time>");
    assert_eq!(parse(prefixed.as_bytes()).unwrap().points.len(), 2);
    let late = prefixed.replace("2024-05-01T12:00:00Z", "9999-12-31T23:59:59-01:00");
    assert_eq!(parse(late.as_bytes()).unwrap_err(), RouteError::InvalidDocument);
    let metadata = timed("2024-05-01T12:00:00Z").replace(
        "<trk>",
        "<metadata><time>9999-12-31T23:59:59-01:00</time></metadata><trk>",
    );
    assert_eq!(parse(metadata.as_bytes()).unwrap_err(), RouteError::InvalidDocument);
}

#[test]
fn times_behind_an_empty_license_count_as_well() {
    let licensed = timed("9999-12-31T23:59<license/>:59-01:00").replace(
        "<trk>",
        r#"<metadata><copyright author="someone"><license></license></copyright></metadata><trk>"#,
    );
    assert!(has_convertible_times(licensed.as_bytes()));
    let cleaned = remove_empty_license_elements(licensed.as_bytes()).unwrap();
    assert!(!has_convertible_times(&cleaned));
    assert_eq!(parse(licensed.as_bytes()).unwrap_err(), RouteError::InvalidDocument);
}

const LATE: &str = "9999-12-31T23:59:59-01:00";

#[test]
fn texts_other_than_times_are_read_as_they_are() {
    let ordinary = timed("2024-05-01T12:00:00Z");
    let documents = [
        ordinary.replace("<trk>", &format!("<trk><desc>{LATE}</desc>")),
        ordinary.replace("<trk>", &format!("<trk><name>{LATE}</name>")),
        ordinary.replace("<trk>", &format!("<!-- {LATE} --><trk>")),
        ordinary.replace("creator=\"test\"", &format!("creator=\"{LATE}\"")),
        ordinary.replace("<trkseg>", &format!("<extensions><time>{LATE}</time></extensions><trkseg>")),
        ordinary.replace(
            "<trkseg>",
            &format!("<extensions><extensions/><a><time>{LATE}</time></a></extensions><trkseg>"),
        ),
        ordinary.replace("</gpx>", &format!("</gpx><time>{LATE}</time>")),
        ordinary.replace("<time>", &format!("<time>{LATE}<?pause?>")),
        ordinary
            .replace("<gpx ", "<!DOCTYPE gpx [<!ENTITY water \"tap\">]><gpx ")
            .replace("<trk>", "<trk><name>Slope 10%, &water;</name>"),
    ];
    for document in documents {
        assert!(has_convertible_times(document.as_bytes()), "{document}");
        assert_eq!(parse(document.as_bytes()).map(|r| r.points.len()), Ok(2), "{document}");
    }
}

#[test]
fn documents_are_accepted_where_the_reader_accepts_them() {
    let times = [
        "2024-05-01T12:00:00Z",
        "9999-12-31T23-00:30",
        "99991231T23-0030",
        "9999-12-31T23:59",
        "9999-12-31",
        " 9999-12-31T23:59:59-01:00",
        "9999-12-31t23:59:59-01:00",
        "9999-12-31T23:59:60-01:00",
        "9999-12-31T24:00:00-01:00",
        "9999-12-32T23:59:59-01:00",
        "9999-12-31T23:59:59-26:00",
        "9999-12-31T23:59:59-01:00 ",
        "",
    ];
    for time in times {
        let document = timed(time);
        if !has_convertible_times(document.as_bytes()) {
            assert_eq!(time, "9999-12-31T23:59:60-01:00");
            continue;
        }
        let read = gpx::read(std::io::Cursor::new(document.as_bytes()));
        assert_eq!(parse(document.as_bytes()).is_ok(), read.is_ok(), "{time}");
    }
}

#[test]
fn times_are_found_as_they_are_read() {
    let part = |kind: XmlKind, text: &str| XmlPart { kind, text: text.to_owned() };
    let element = |name: &str, texts: &[&str]| {
        let mut parts = vec![part(XmlKind::Start, name)];
        parts.extend(texts.iter().map(|t| part(XmlKind::Text, t)));
        parts.push(part(XmlKind::End, name));
        parts
    };
    let found = |inner: Vec<Vec<XmlPart>>| {
        let mut parts = vec![part(XmlKind::Other, ""), part(XmlKind::Start, "gpx")];
        parts.extend(inner.into_iter().flatten());
        parts.push(part(XmlKind::End, "gpx"));
        parts.extend(element("time", &["behind"]));
        element_times(&parts)
    };
    assert_eq!(found(vec![]), Vec::<String>::new());
    assert_eq!(found(vec![element("time", &["a"]), element("time", &["b", "c"])]), ["a", "c"]);
    assert_eq!(found(vec![element("name", &["a"]), element("time", &["b"])]), ["b"]);
    assert_eq!(
        found(vec![
            vec![part(XmlKind::Start, "extensions")],
            element("time", &["a"]),
            element("extensions", &[]),
            element("time", &["b"]),
            vec![part(XmlKind::End, "extensions")],
            element("time", &["c"]),
        ]),
        ["c"]
    );
    assert_eq!(found(vec![element("license", &["MIT"]), element("time", &["a"])]), ["a"]);
    assert_eq!(found(vec![element("license", &[]), element("time", &["a"])]), Vec::<String>::new());
    assert_eq!(
        found(vec![element("time", &["a"]), vec![part(XmlKind::Failed, "")], element("time", &["b"])]),
        ["a"]
    );
    assert_eq!(
        found(vec![
            vec![part(XmlKind::Start, "time"), part(XmlKind::Text, "a")],
            element("b", &[]),
            vec![part(XmlKind::End, "time")],
            element("time", &["c"]),
        ]),
        Vec::<String>::new()
    );
    assert_eq!(element_times(&vec![part(XmlKind::End, "x")]), Vec::<String>::new());
}

#[test]
fn the_calendar_ends_with_the_year_9999() {
    let time = |year: i32, day: u16, hour: u8, minute: u8, second: u8, offset_seconds: i32| OffsetTime {
        year,
        day,
        hour,
        minute,
        second,
        offset_seconds,
    };
    for (time, leaves) in [
        (time(9999, 365, 23, 59, 59, 0), false),
        (time(9999, 365, 23, 59, 59, -1), true),
        (time(9999, 365, 22, 59, 59, -3_600), false),
        (time(9999, 365, 23, 0, 0, -3_600), true),
        (time(9999, 364, 22, 1, 0, -93_540), true),
        (time(9999, 364, 22, 0, 59, -93_540), false),
        (time(9998, 365, 23, 59, 59, -93_540), false),
        (time(-9999, 1, 0, 0, 0, 0), false),
        (time(-9999, 1, 0, 0, 0, 1), true),
        (time(-9999, 1, 1, 0, 0, 3_600), false),
        (time(-9999, 2, 0, 0, 0, 86_401), true),
        (time(-9999, 365, 23, 59, 59, -3_600), false),
        (time(2024, 1, 0, 0, 0, 3_600), false),
        (time(10_000, 1, 0, 0, 0, 0), true),
        (time(-10_000, 365, 0, 0, 0, 0), true),
    ] {
        assert_eq!(time.leaves_calendar(), leaves, "{time:?}");
    }
}

#[test]
fn declared_entities_may_stand_for_a_time() {
    let declared = timed("&late;").replace(
        "<gpx ",
        r#"<!DOCTYPE gpx [<!ENTITY late "9999-12-31T23:59:59&#38;#45;01:00">]><gpx "#,
    );
    assert!(!has_convertible_times(declared.as_bytes()));
    assert_eq!(parse(declared.as_bytes()).unwrap_err(), RouteError::InvalidDocument);
    let unused = timed("2024-05-01T12:00:00Z")
        .replace("<gpx ", r#"<!DOCTYPE gpx [<!ENTITY water "tap">]><gpx "#)
        .replace("<ele>120</ele>", "<name>&lt;&amp;&gt;</name>");
    assert!(has_convertible_times(unused.as_bytes()));
    assert_eq!(parse(unused.as_bytes()).unwrap().points.len(), 2);
}

#[test]
fn a_profile_turned_upside_down_swaps_climb_and_descent() {
    let profiles: [&[f64]; 5] = [
        &[100.0, 130.0, 90.0],
        &[100.0, 101.5, 100.4, 102.0, 110.0],
        &[0.0, 10.0, 0.0, -10.0, 0.0],
        &[5.5, 14.0, 3.0, 3.0, 25.25, 24.0, 1.0, 12.5],
        &[7.0],
    ];
    for profile in profiles {
        let up: Vec<RoutePoint> = profile.iter().map(|e| point(45.0, 5.0, Some(*e))).collect();
        let down: Vec<RoutePoint> = profile.iter().map(|e| point(45.0, 5.0, Some(-*e))).collect();
        let (gain, loss) = elevation_gain_loss(&up, &reaches, &accumulate);
        assert_eq!(elevation_gain_loss(&down, &reaches, &accumulate), (loss, gain), "{profile:?}");
    }
}
