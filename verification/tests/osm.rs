use std::collections::HashMap;

use aquatrace::binary64::Binary64;
use aquatrace::osm_dataset::{
    assemble_dataset, extend_map, resolve_node, water_point_from_way, OsmElement, WaterObjectScan,
    WaterWay,
};
use aquatrace::osm_import::{
    import_due, local_pbf_state, refresh_on_start, startup_action, successful_import_has_current_dataset,
    successful_import_is_stale, uses_local_pbf, ImportError, ImportSchedule, InitialData, LocalFile,
    LocalPbfState, StartupAction, DATASET_VERSION, PBF_FILE_NAME, PBF_TEMPORARY_NAME,
};
use aquatrace::osm_tags::{place_from_parts, qualifying_water_name, water_point_from_parts};
use aquatrace::overpass::{
    drinking_water_query, parse_overpass_response, preview, OverpassElement, OverpassTags,
};
use aquatrace::store::OsmImportStatus;
use aquatrace::time::Timestamp;
use aquatrace::types::{BBox, OsmElementType, OsmWaterPoint, RoutePoint};

fn number(value: f64) -> Binary64 {
    Binary64 { bits: value.to_bits() }
}

fn value(number: Binary64) -> f64 {
    f64::from_bits(number.bits)
}

fn point(lat: f64, lon: f64) -> RoutePoint {
    RoutePoint { lat: number(lat), lon: number(lon), ele: None }
}

fn polygon_centroid(points: &Vec<RoutePoint>) -> Option<RoutePoint> {
    let mut area_twice = 0.0;
    let mut weighted_lon = 0.0;
    let mut weighted_lat = 0.0;
    let origin_lon = value(points[0].lon);
    let origin_lat = value(points[0].lat);
    for index in 0..points.len() {
        let current = points[index];
        let next = points[(index + 1) % points.len()];
        let current_lon = value(current.lon) - origin_lon;
        let current_lat = value(current.lat) - origin_lat;
        let next_lon = value(next.lon) - origin_lon;
        let next_lat = value(next.lat) - origin_lat;
        let cross = current_lon * next_lat - next_lon * current_lat;
        area_twice += cross;
        weighted_lon += (current_lon + next_lon) * cross;
        weighted_lat += (current_lat + next_lat) * cross;
    }
    if area_twice.abs() < 1e-12 {
        return None;
    }
    Some(point(
        origin_lat + weighted_lat / (3.0 * area_twice),
        origin_lon + weighted_lon / (3.0 * area_twice),
    ))
}

fn average_point(points: &Vec<RoutePoint>) -> RoutePoint {
    let count = points.len() as f64;
    point(
        points.iter().map(|p| value(p.lat)).sum::<f64>() / count,
        points.iter().map(|p| value(p.lon)).sum::<f64>() / count,
    )
}

fn locate(way: WaterWay, coordinates: &HashMap<i64, RoutePoint>) -> Option<OsmWaterPoint> {
    water_point_from_way(way, coordinates, &polygon_centroid, &average_point)
}

fn way(osm_id: i64, name: Option<&str>, node_refs: Vec<i64>) -> WaterWay {
    WaterWay { osm_id, name: name.map(|n| n.to_owned()), node_refs }
}

#[test]
fn extracts_strict_drinking_water_node_tags() {
    let point = water_point_from_parts(
        12,
        point(45.0, 5.0),
        &[("amenity", "drinking_water"), ("name", "Village Tap")],
    )
    .unwrap();

    assert_eq!(point.osm_id, 12);
    assert_eq!(point.osm_type, OsmElementType::Node);
    assert_eq!(point.name.as_deref(), Some("Village Tap"));
}

#[test]
fn extracts_named_place_and_search_aliases() {
    let place = place_from_parts(
        7,
        point(45.0, 5.0),
        &[("place", "village"), ("name", "Saint-Pierre"), ("alt_name", "St Pierre")],
    )
    .unwrap();
    assert_eq!(place.place_type, "village");
    assert_eq!(place.name, "Saint-Pierre");
    assert!(place.search_text.contains("St Pierre"));
}

#[test]
fn ignores_unsupported_or_unnamed_places() {
    let point = point(45.0, 5.0);
    assert!(place_from_parts(1, point, &[("place", "suburb"), ("name", "Centre")]).is_none());
    assert!(place_from_parts(2, point, &[("place", "town")]).is_none());
}

#[test]
fn extracts_toilets_with_drinking_water() {
    let point = water_point_from_parts(
        13,
        point(45.0, 5.0),
        &[("amenity", "toilets"), ("drinking_water", "yes"), ("name", "Public toilets")],
    )
    .unwrap();

    assert_eq!(point.osm_id, 13);
    assert_eq!(point.name.as_deref(), Some("Public toilets"));
}

#[test]
fn ignores_non_strict_water_tags() {
    let point = water_point_from_parts(
        12,
        point(45.0, 5.0),
        &[("drinking_water", "yes"), ("name", "Spring")],
    );

    assert!(point.is_none());
}

#[test]
fn ignores_toilets_without_confirmed_drinking_water() {
    for value in ["no", "separate", "customers"] {
        assert!(
            qualifying_water_name(&[("amenity", "toilets"), ("drinking_water", value)]).is_none()
        );
    }
    assert!(qualifying_water_name(&[("amenity", "toilets")]).is_none());
}

#[test]
fn locates_closed_water_way_at_polygon_centroid() {
    let way = way(99, Some("Water toilets"), vec![1, 2, 3, 4, 1]);
    let coordinates = HashMap::from([
        (1, point(45.0, 5.0)),
        (2, point(45.0, 5.002)),
        (3, point(45.002, 5.002)),
        (4, point(45.002, 5.0)),
    ]);

    let point = locate(way, &coordinates).unwrap();
    assert_eq!(point.osm_type, OsmElementType::Way);
    assert!((value(point.lat) - 45.001).abs() < 1e-8);
    assert!((value(point.lon) - 5.001).abs() < 1e-8);
}

#[test]
fn rejects_water_way_with_missing_node() {
    let way = way(99, None, vec![1, 2, 3, 1]);
    let coordinates = HashMap::from([(1, point(45.0, 5.0)), (2, point(45.0, 5.001))]);

    assert!(locate(way, &coordinates).is_none());
}

#[test]
fn locates_open_water_way_at_average_point() {
    let way = way(100, None, vec![1, 2, 3]);
    let coordinates = HashMap::from([
        (1, point(45.0, 5.0)),
        (2, point(45.003, 5.003)),
        (3, point(45.006, 5.006)),
    ]);

    let point = locate(way, &coordinates).unwrap();
    assert!((value(point.lat) - 45.003).abs() < 1e-10);
    assert!((value(point.lon) - 5.003).abs() < 1e-10);
}

#[test]
fn startup_requires_blocking_import_without_complete_local_data() {
    for (pbf_state, database_is_usable) in [
        (LocalPbfState::Absent, false),
        (LocalPbfState::Absent, true),
        (LocalPbfState::Fresh, false),
        (LocalPbfState::Stale, false),
    ] {
        assert_eq!(
            startup_action(pbf_state, database_is_usable, false, false, false, true),
            StartupAction::BlockingImport
        );
    }
}

#[test]
fn usable_data_refreshes_in_background_when_requested_or_stale() {
    assert_eq!(
        startup_action(LocalPbfState::Fresh, true, true, false, false, true),
        StartupAction::BackgroundRefresh { force_download: true }
    );
    assert_eq!(
        startup_action(LocalPbfState::Stale, true, false, true, false, true),
        StartupAction::BackgroundRefresh { force_download: true }
    );
    assert_eq!(
        startup_action(LocalPbfState::Fresh, true, false, true, true, true),
        StartupAction::BackgroundRefresh { force_download: false }
    );
}

#[test]
fn outdated_dataset_refreshes_from_fresh_local_pbf() {
    assert_eq!(
        startup_action(LocalPbfState::Fresh, true, false, false, false, false),
        StartupAction::BackgroundRefresh { force_download: false }
    );
}

#[test]
fn disabling_startup_refresh_keeps_usable_data_ready() {
    assert_eq!(
        startup_action(LocalPbfState::Stale, true, false, false, true, true),
        StartupAction::Ready
    );
    assert_eq!(
        startup_action(LocalPbfState::Fresh, true, false, true, false, true),
        StartupAction::Ready
    );
}

fn text(value: &serde_json::Value) -> Option<String> {
    value.as_str().map(|s| s.to_owned())
}

#[test]
fn filters_only_explicit_drinking_water_nodes() {
    let body = r#"{
      "elements": [
        {"type":"node","id":1,"lat":45.0,"lon":5.0,"tags":{"amenity":"drinking_water","name":"Tap"}},
        {"type":"node","id":2,"lat":45.1,"lon":5.1,"tags":{"natural":"spring"}},
        {"type":"node","id":3,"lat":45.2,"lon":5.2,"tags":{"amenity":"fountain"}},
        {"type":"way","id":4,"tags":{"amenity":"drinking_water"}}
      ]
    }"#;
    let document: serde_json::Value = serde_json::from_str(body).unwrap();
    let elements: Vec<OverpassElement> = document["elements"]
        .as_array()
        .unwrap()
        .iter()
        .map(|e| OverpassElement {
            kind: text(&e["type"]).unwrap(),
            id: e["id"].as_i64().unwrap(),
            lat: e["lat"].as_f64().map(number),
            lon: e["lon"].as_f64().map(number),
            tags: e["tags"].as_object().map(|_| OverpassTags {
                amenity: text(&e["tags"]["amenity"]),
                name: text(&e["tags"]["name"]),
            }),
        })
        .collect();

    let points = parse_overpass_response(&elements);
    assert_eq!(points.len(), 1);
    assert_eq!(points[0].osm_id, 1);
    assert_eq!(points[0].name.as_deref(), Some("Tap"));
}

#[test]
fn elements_without_a_place_or_tags_are_left_out() {
    let element = |lat: Option<f64>, tags: Option<OverpassTags>| OverpassElement {
        kind: "node".to_owned(),
        id: 5,
        lat: lat.map(number),
        lon: Some(number(5.0)),
        tags,
    };
    let tags = || OverpassTags { amenity: Some("drinking_water".to_owned()), name: None };
    let elements = vec![element(None, Some(tags())), element(Some(1.0), None), element(Some(2.0), Some(tags()))];
    let points = parse_overpass_response(&elements);
    assert_eq!(points.len(), 1);
    assert_eq!(value(points[0].lat), 2.0);
    assert_eq!(points[0].osm_type, OsmElementType::Node);
}

#[test]
fn asks_for_the_nodes_within_a_box() {
    let bbox = BBox {
        min_lat: number(45.0),
        min_lon: number(5.25),
        max_lat: number(46.5),
        max_lon: number(-6.0),
    };
    let query = drinking_water_query(bbox, &|v| format!("{}", value(v)));
    assert_eq!(
        query,
        "[out:json][timeout:25];\nnode[\"amenity\"=\"drinking_water\"](45,5.25,46.5,-6);\nout body;"
    );
}

#[test]
fn refusals_are_shown_in_part() {
    assert_eq!(preview("short"), "short");
    assert_eq!(preview(&"é".repeat(600)), "é".repeat(500));
}

#[test]
fn the_last_value_of_a_key_counts() {
    assert_eq!(
        qualifying_water_name(&[
            ("amenity", "fountain"),
            ("name", "First"),
            ("amenity", "drinking_water"),
            ("name", "Last"),
        ]),
        Some(Some("Last".to_owned()))
    );
    assert_eq!(qualifying_water_name(&[("amenity", "drinking_water")]), Some(None));
    assert!(qualifying_water_name(&[("amenity", "drinking_water"), ("amenity", "bench")]).is_none());
    assert!(qualifying_water_name(&[]).is_none());
}

#[test]
fn names_of_places_are_trimmed_and_aliases_joined() {
    let place = place_from_parts(
        3,
        point(1.0, 2.0),
        &[
            ("alt_name", " Alt "),
            ("name", "  Name\u{a0}"),
            ("place", "hamlet"),
            ("place", "suburb"),
            ("official_name", " "),
            ("name:en", "English"),
            ("name:fr", "Français"),
            ("name:de", "Deutsch"),
        ],
    )
    .unwrap();
    assert_eq!(place.name, "Name");
    assert_eq!(place.place_type, "hamlet");
    assert_eq!(place.search_text, "Name Alt English Français");
    assert_eq!((place.osm_id, value(place.lat), value(place.lon)), (3, 1.0, 2.0));
    assert!(place_from_parts(3, point(1.0, 2.0), &[("place", "city"), ("name", " ")]).is_none());
    for kind in ["city", "town", "village", "hamlet"] {
        assert!(place_from_parts(3, point(1.0, 2.0), &[("place", kind), ("name", "x")]).is_some());
    }
}

#[test]
fn small_ways_have_no_place_or_an_average() {
    let coordinates = HashMap::from([(1, point(1.0, 1.0)), (2, point(3.0, 5.0)), (3, point(5.0, 9.0))]);
    assert!(locate(way(1, None, vec![]), &coordinates).is_none());
    assert!(locate(way(1, None, vec![1]), &coordinates).is_none());
    assert!(locate(way(1, None, vec![1, 1]), &coordinates).is_none());
    let both = locate(way(1, None, vec![1, 2]), &coordinates).unwrap();
    assert_eq!((value(both.lat), value(both.lon)), (2.0, 3.0));
    let back = locate(way(1, Some("n"), vec![1, 2, 1]), &coordinates).unwrap();
    assert_eq!((value(back.lat), value(back.lon)), (2.0, 3.0));
    assert_eq!(back.name.as_deref(), Some("n"));
    let flat = locate(way(1, None, vec![1, 2, 3, 1]), &coordinates).unwrap();
    assert_eq!((value(flat.lat), value(flat.lon)), (3.0, 5.0));
}

fn node<'a>(id: i64, lat: f64, lon: f64, tags: &'a [(&'a str, &'a str)]) -> OsmElement<'a> {
    OsmElement::Node { id, lat: number(lat), lon: number(lon), tags }
}

#[test]
fn a_scan_finds_water_places_and_ways() {
    let tap = [("amenity", "drinking_water"), ("name", "Tap")];
    let town = [("place", "town"), ("name", "Town")];
    let refs = [7, 8, 9];
    let scan = WaterObjectScan::empty()
        .merge(WaterObjectScan::of_element(&node(1, 45.0, 5.0, &tap)))
        .merge(WaterObjectScan::of_element(&node(2, 46.0, 6.0, &town)))
        .merge(WaterObjectScan::of_element(&OsmElement::Way { id: 1, tags: &tap, refs: &refs }))
        .merge(WaterObjectScan::of_element(&OsmElement::Way { id: 4, tags: &town, refs: &refs }))
        .merge(WaterObjectScan::of_element(&OsmElement::Relation));
    assert_eq!(scan.points.len(), 1);
    assert_eq!(scan.places[&2].name, "Town");
    assert_eq!(scan.ways.len(), 1);
    assert_eq!(scan.ways[&1].node_refs, vec![7, 8, 9]);
    assert!(scan.has_ways());

    let required = scan.required_node_ids();
    assert_eq!(required.len(), 3);
    assert!(resolve_node(&node(7, 1.0, 2.0, &[]), &required) == Some((7, point(1.0, 2.0))));
    assert!(resolve_node(&node(1, 1.0, 2.0, &[]), &required).is_none());
    assert!(resolve_node(&OsmElement::Relation, &required).is_none());

    let mut coordinates = HashMap::from([(7, point(0.0, 0.0))]);
    extend_map(
        &mut coordinates,
        HashMap::from([(7, point(1.0, 1.0)), (8, point(2.0, 2.0)), (9, point(3.0, 3.0))]),
    );
    let dataset = assemble_dataset(scan, &coordinates, &polygon_centroid, &average_point);
    let mut found: Vec<(OsmElementType, i64, f64)> =
        dataset.points.iter().map(|p| (p.osm_type, p.osm_id, value(p.lat))).collect();
    found.sort_by(|a, b| a.2.partial_cmp(&b.2).unwrap());
    assert_eq!(found, vec![(OsmElementType::Way, 1, 2.0), (OsmElementType::Node, 1, 45.0)]);
    assert_eq!(dataset.places.len(), 1);
    assert_eq!(dataset.skipped_ways, 0);
}

#[test]
fn later_objects_replace_earlier_ones_and_lost_ways_are_counted() {
    let first = [("amenity", "drinking_water"), ("name", "First")];
    let second = [("amenity", "drinking_water"), ("name", "Second")];
    let scan = WaterObjectScan::of_element(&node(1, 45.0, 5.0, &first))
        .merge(WaterObjectScan::of_element(&node(1, 46.0, 5.0, &second)))
        .merge(WaterObjectScan::of_element(&OsmElement::Way { id: 9, tags: &first, refs: &[1, 2] }));
    assert_eq!(scan.points[&1].name.as_deref(), Some("Second"));
    let dataset = assemble_dataset(scan, &HashMap::new(), &polygon_centroid, &average_point);
    assert_eq!(dataset.points.len(), 1);
    assert_eq!(dataset.skipped_ways, 1);
    assert!(!WaterObjectScan::empty().has_ways());
}

fn import(finished_at: Option<i64>, dataset_version: i64) -> OsmImportStatus {
    OsmImportStatus {
        id: 1,
        source_url: "u".to_owned(),
        started_at: Timestamp { seconds: 0, nanos: 0 },
        finished_at: finished_at.map(|seconds| Timestamp { seconds, nanos: 500 }),
        status: "success".to_owned(),
        water_point_count: 1,
        dataset_version,
        error: None,
    }
}

fn at(seconds: i64, nanos: u32) -> Timestamp {
    Timestamp { seconds, nanos }
}

#[test]
fn imports_grow_stale() {
    let done = import(Some(1_000), 3);
    assert!(!successful_import_is_stale(Some(&done), at(1_100, 499), 100));
    assert!(successful_import_is_stale(Some(&done), at(1_100, 500), 100));
    assert!(successful_import_is_stale(Some(&import(None, 3)), at(0, 0), 100));
    assert!(successful_import_is_stale(None, at(0, 0), 100));
    assert!(successful_import_has_current_dataset(Some(&done)));
    assert!(!successful_import_has_current_dataset(Some(&import(Some(1), 2))));
    assert!(!successful_import_has_current_dataset(None));
    assert_eq!(DATASET_VERSION, 3);
}

#[test]
fn local_extracts_are_judged_by_their_age() {
    let file = LocalFile::Regular { modified: at(1_000, 0) };
    assert_eq!(local_pbf_state(file, at(1_100, 0), 100), Ok(LocalPbfState::Fresh));
    assert_eq!(local_pbf_state(file, at(1_100, 1), 100), Ok(LocalPbfState::Stale));
    assert_eq!(local_pbf_state(file, at(900, 0), 100), Ok(LocalPbfState::Fresh));
    assert_eq!(local_pbf_state(LocalFile::Missing, at(0, 0), 100), Ok(LocalPbfState::Absent));
    assert_eq!(
        local_pbf_state(LocalFile::NotRegular, at(0, 0), 100),
        Err(ImportError::NotRegularFile)
    );
    assert_eq!(PBF_TEMPORARY_NAME, format!("{PBF_FILE_NAME}.tmp"));
}

#[test]
fn imports_are_due_when_something_is_missing_or_old() {
    let done = import(Some(1_000), 3);
    assert!(!import_due(LocalPbfState::Fresh, Some(&done), at(1_050, 0), 100));
    assert!(import_due(LocalPbfState::Stale, Some(&done), at(1_050, 0), 100));
    assert!(import_due(LocalPbfState::Absent, Some(&done), at(1_050, 0), 100));
    assert!(import_due(LocalPbfState::Fresh, None, at(1_050, 0), 100));
    assert!(import_due(LocalPbfState::Fresh, Some(&import(Some(1_000), 2)), at(1_050, 0), 100));
    assert!(import_due(LocalPbfState::Fresh, Some(&done), at(2_000, 0), 100));
    assert!(uses_local_pbf(false, Some(LocalPbfState::Fresh)));
    assert!(!uses_local_pbf(true, Some(LocalPbfState::Fresh)));
    assert!(!uses_local_pbf(false, Some(LocalPbfState::Stale)));
    assert!(!uses_local_pbf(false, None));
}

#[test]
fn the_start_depends_on_all_of_the_data() {
    let done = import(Some(1_000), 3);
    let data = InitialData {
        pbf_state: LocalPbfState::Fresh,
        has_water_points: true,
        has_places: true,
        latest_import: Some(&done),
    };
    assert_eq!(data.prepare(false, true, at(1_050, 0), 100), StartupAction::Ready);
    assert_eq!(
        data.prepare(false, true, at(2_000, 0), 100),
        StartupAction::BackgroundRefresh { force_download: false }
    );
    let no_places = InitialData { has_places: false, ..data };
    assert_eq!(no_places.prepare(false, false, at(1_050, 0), 100), StartupAction::BlockingImport);
    let no_water = InitialData { has_water_points: false, ..data };
    assert_eq!(no_water.prepare(false, false, at(1_050, 0), 100), StartupAction::BlockingImport);
    let no_import = InitialData { latest_import: None, ..data };
    assert_eq!(no_import.prepare(false, false, at(1_050, 0), 100), StartupAction::BlockingImport);
    assert_eq!(refresh_on_start(StartupAction::BlockingImport), None);
    assert_eq!(refresh_on_start(StartupAction::Ready), None);
    assert_eq!(
        refresh_on_start(StartupAction::BackgroundRefresh { force_download: true }),
        Some(true)
    );
}

#[test]
fn failed_refreshes_are_tried_again() {
    let mut schedule = ImportSchedule::new(Some(true));
    assert!(!schedule.asks_whether_due());
    assert_eq!(schedule.next_import(None), Some(true));
    schedule.import_ended(false);
    assert_eq!(schedule.next_import(Some(false)), Some(true));
    schedule.import_ended(true);
    assert!(schedule.asks_whether_due());
    assert_eq!(schedule.next_import(None), None);
    assert_eq!(schedule.next_import(Some(false)), None);
    assert_eq!(schedule.next_import(Some(true)), Some(false));
}
