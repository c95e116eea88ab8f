use aquatrace::api::{
    accept_size, count_lookups, health, missing_file, street_view_places, street_view_response,
    upload_step, ApiError, StreetViewLocationRequest, StreetViewRefusal, UploadStep,
};
use aquatrace::binary64::Binary64;
use aquatrace::config::{
    parse_bool, parse_signed, parse_unsigned, sqlite_file_path, Config, Setting, Settings,
    StartupOptions, DEFAULT_MAX_ANALYSIS_DISTANCE_BITS,
};
use aquatrace::gpx_archive::ArchiveCategory;
use aquatrace::hash::{encode_hex, sha256_hex};
use aquatrace::store::{
    any_rows, cache_holds, cached_analysis, fts_prefix_query, import_failure, import_start,
    import_status_from_row, import_success, parse_rfc3339_utc, place_search, route_cache_times,
    stored_time, water_point_row, water_points_from_rows, CachedRoute, ImportRow, StoreError,
    WaterPointRow, IMPORT_STATUS_FAILED, IMPORT_STATUS_RUNNING, IMPORT_STATUS_SUCCESS,
};
use aquatrace::street_view::{
    collect_results, interpret_reply, usable_key, CacheKey, Coordinates, LookupAction, LookupCache,
    LookupEvent, LookupReply, LookupResult, LookupStatus, LookupStep, MetadataReply, StreetViewService, CACHE_TTL_NANOS,
    GOOGLE_METADATA_URL, MAX_CACHE_ENTRIES,
};
use aquatrace::submission::{submission_outcome, SubmissionEvent, SubmissionStage};
use aquatrace::text::precedes_text;
use aquatrace::time::{
    elapsed_nanos, Timestamp, FIRST_SECOND, LAST_SECOND, YEAR_HUNDRED_THOUSAND, YEAR_TEN_THOUSAND,
    YEAR_ZERO,
};
use aquatrace::types::{OsmElementType, OsmWaterPoint};

fn number(value: f64) -> Binary64 {
    Binary64 { bits: value.to_bits() }
}

fn value(number: Binary64) -> f64 {
    f64::from_bits(number.bits)
}

fn place(lat: f64, lon: f64) -> Coordinates {
    Coordinates { lat: number(lat), lon: number(lon) }
}

fn describe(c: Coordinates) -> String {
    format!("{:.6},{:.6}", value(c.lat), value(c.lon))
}

fn at(seconds: i64, nanos: u32) -> Timestamp {
    Timestamp { seconds, nanos }
}

#[test]
fn coordinates_are_valid_on_the_globe() {
    assert!(place(90.0, 180.0).is_valid());
    assert!(place(-90.0, -180.0).is_valid());
    assert!(place(-0.0, 0.0).is_valid());
    assert!(!place(90.000001, 0.0).is_valid());
    assert!(!place(0.0, -180.0001).is_valid());
    assert!(!place(f64::NAN, 0.0).is_valid());
    assert!(!place(0.0, f64::INFINITY).is_valid());
    assert!(!place(f64::NEG_INFINITY, 0.0).is_valid());
}

fn answer(status: &str, location: Option<Coordinates>) -> LookupReply {
    LookupReply::Answer(MetadataReply { status: status.to_owned(), location })
}

#[test]
fn replies_are_understood() {
    let found = interpret_reply(&answer("OK", Some(place(45.1234, 5.6543))), &describe);
    assert_eq!(found.status, LookupStatus::Found);
    assert_eq!(
        found.url.as_deref(),
        Some("https://www.google.com/maps/@?api=1&map_action=pano&viewpoint=45.123400,5.654300")
    );
    let cases = [
        (answer("OK", None), LookupStatus::Error),
        (answer("OK", Some(place(95.0, 5.0))), LookupStatus::Error),
        (answer("ZERO_RESULTS", None), LookupStatus::NotFound),
        (answer("ZERO_RESULTS", Some(place(1.0, 1.0))), LookupStatus::NotFound),
        (answer("OVER_QUERY_LIMIT", None), LookupStatus::Error),
        (LookupReply::Unreadable, LookupStatus::Error),
        (LookupReply::Refused, LookupStatus::Error),
        (LookupReply::TimedOut, LookupStatus::Timeout),
        (LookupReply::Failed, LookupStatus::Error),
    ];
    for (reply, status) in cases {
        let result = interpret_reply(&reply, &describe);
        assert_eq!(result.status, status);
        assert!(result.url.is_none());
    }
}

const KEY: CacheKey = CacheKey { lat_e6: 45_123_456, lon_e6: 5_654_321 };

fn millionths(coordinates: Coordinates) -> CacheKey {
    CacheKey {
        lat_e6: (f64::from_bits(coordinates.lat.bits) * 1_000_000.0).round() as i32,
        lon_e6: (f64::from_bits(coordinates.lon.bits) * 1_000_000.0).round() as i32,
    }
}

#[test]
fn found_panoramas_are_remembered_until_they_expire() {
    let mut service = StreetViewService::new(Some(" secret ".to_owned()));
    assert!(service.is_enabled());
    assert_eq!(service.metadata_url, GOOGLE_METADATA_URL);
    let here = place(45.123456, 5.654321);
    assert!(matches!(service.begin_lookup(here, KEY, 10), LookupStep::Ask));
    let query = service.metadata_query(here, &describe).unwrap();
    let expected = [("location", "45.123456,5.654321"), ("radius", "50"), ("key", "secret")];
    for (pair, wanted) in query.iter().zip(expected) {
        assert_eq!((pair.0.as_str(), pair.1.as_str()), wanted);
    }
    let first = service.finish_lookup(KEY, &answer("OK", Some(place(45.1234, 5.6543))), &describe, 20);
    match service.begin_lookup(here, KEY, 30) {
        LookupStep::Done(second) => {
            assert_eq!(second.url, first.url);
            assert_eq!(second.status, LookupStatus::Found);
        }
        LookupStep::Ask => panic!("the result was forgotten"),
    }
    assert_eq!(service.cache.len(), 1);
    let end = 20 + u128::from(CACHE_TTL_NANOS);
    assert!(matches!(service.begin_lookup(here, KEY, end - 1), LookupStep::Done(_)));
    assert!(matches!(service.begin_lookup(here, KEY, end), LookupStep::Ask));
    assert_eq!(service.cache.len(), 0);
}

#[test]
fn absences_are_remembered_and_failures_are_not() {
    let mut service = StreetViewService::with_metadata_url(Some("k".to_owned()), "http://localhost");
    let here = place(1.0, 2.0);
    service.finish_lookup(KEY, &LookupReply::TimedOut, &describe, 0);
    service.finish_lookup(KEY, &LookupReply::Failed, &describe, 0);
    assert_eq!(service.cache.len(), 0);
    service.finish_lookup(KEY, &answer("ZERO_RESULTS", None), &describe, 0);
    match service.begin_lookup(here, KEY, 1) {
        LookupStep::Done(result) => assert_eq!(result.status, LookupStatus::NotFound),
        LookupStep::Ask => panic!("the absence was forgotten"),
    }
    let other = CacheKey { lat_e6: KEY.lon_e6, lon_e6: KEY.lat_e6 };
    assert!(matches!(service.begin_lookup(here, other, 1), LookupStep::Ask));
}

#[test]
fn invalid_coordinates_and_a_missing_key_are_failures() {
    let mut service = StreetViewService::new(Some("k".to_owned()));
    match service.begin_lookup(place(91.0, 0.0), KEY, 0) {
        LookupStep::Done(result) => assert_eq!(result.status, LookupStatus::Error),
        LookupStep::Ask => panic!("invalid coordinates were asked for"),
    }
    let mut disabled = StreetViewService::new(Some("  ".to_owned()));
    assert!(!disabled.is_enabled());
    assert!(disabled.metadata_query(place(1.0, 0.0), &describe).is_none());
    match disabled.begin_lookup(place(1.0, 0.0), KEY, 0) {
        LookupStep::Done(result) => assert_eq!(result.status, LookupStatus::Error),
        LookupStep::Ask => panic!("there is no key to ask with"),
    }
    assert!(!StreetViewService::new(None).is_enabled());
    assert_eq!(usable_key(Some("\t key\n".to_owned())).as_deref(), Some("key"));
    assert_eq!(usable_key(None), None);
}

#[test]
fn a_full_memory_makes_room() {
    let mut cache = LookupCache::new();
    let key = |n: usize| CacheKey { lat_e6: n as i32, lon_e6: -1 };
    let absence = LookupResult::without_url(LookupStatus::NotFound);
    for n in 0..MAX_CACHE_ENTRIES {
        cache.remember(key(n), &absence, 1_000 + n as u128);
    }
    assert_eq!(cache.len(), MAX_CACHE_ENTRIES);
    cache.remember(key(MAX_CACHE_ENTRIES), &absence, 500_000);
    assert_eq!(cache.len(), MAX_CACHE_ENTRIES);
    assert!(cache.recall(key(0), 500_000).is_none());
    assert!(cache.recall(key(1), 500_000).is_some());
    let later = 1_000 + 50_000 + u128::from(CACHE_TTL_NANOS);
    cache.remember(key(MAX_CACHE_ENTRIES + 1), &absence, later);
    assert_eq!(cache.len(), MAX_CACHE_ENTRIES - 50_000 + 1);
}

#[test]
fn results_stand_where_they_were_asked_for() {
    let result = |status| LookupResult::without_url(status);
    let joined = vec![
        Some((2, result(LookupStatus::NotFound))),
        None,
        Some((0, result(LookupStatus::Timeout))),
    ];
    let results = collect_results(3, &joined);
    let statuses: Vec<LookupStatus> = results.iter().map(|r| r.status).collect();
    assert_eq!(statuses, vec![LookupStatus::Timeout, LookupStatus::Error, LookupStatus::NotFound]);
    let counts = count_lookups(&results);
    assert_eq!(
        (counts.found, counts.not_found, counts.timeouts, counts.errors),
        (0, 1, 1, 1)
    );
}

fn location(id: &str, lat: f64) -> StreetViewLocationRequest {
    StreetViewLocationRequest { id: id.to_owned(), lat: number(lat), lon: number(5.0) }
}

#[test]
fn street_view_requests_are_checked() {
    let good = vec![location("node:1", 45.0), location("way:2", 46.0)];
    let places = street_view_places(true, &good).unwrap();
    assert_eq!(places, vec![place(45.0, 5.0), place(46.0, 5.0)]);
    assert_eq!(street_view_places(false, &good).unwrap_err(), StreetViewRefusal::Unavailable);
    let many: Vec<StreetViewLocationRequest> =
        (0..2_001).map(|n| location(&format!("{n}"), 45.0)).collect();
    assert_eq!(street_view_places(true, &many).unwrap_err(), StreetViewRefusal::TooManyLocations);
    assert_eq!(street_view_places(true, &many[..2_000].iter().map(|l| location(&l.id, 1.0)).collect()).unwrap().len(), 2_000);
    let twice = vec![location("a", 45.0), location("b", 45.0), location("a", 45.0)];
    assert_eq!(
        street_view_places(true, &twice).unwrap_err(),
        StreetViewRefusal::BadIdentifier { position: 2 }
    );
    assert_eq!(
        street_view_places(true, &vec![location("", 99.0)]).unwrap_err(),
        StreetViewRefusal::BadIdentifier { position: 0 }
    );
    assert!(street_view_places(true, &vec![location(&"x".repeat(128), 1.0)]).is_ok());
    assert!(street_view_places(true, &vec![location(&"é".repeat(65), 1.0)]).is_err());
    assert_eq!(
        street_view_places(true, &vec![location("a", 45.0), location("b", 90.5)]).unwrap_err(),
        StreetViewRefusal::BadCoordinates { position: 1 }
    );
    assert_eq!(street_view_places(true, &vec![]).unwrap(), vec![]);
}

#[test]
fn refused_street_view_requests_are_answered() {
    let cases = [
        (StreetViewRefusal::Unavailable, 503, "street_view_unavailable"),
        (StreetViewRefusal::TooManyLocations, 413, "payload_too_large"),
        (StreetViewRefusal::BadIdentifier { position: 0 }, 400, "bad_request"),
        (StreetViewRefusal::BadCoordinates { position: 0 }, 400, "bad_request"),
    ];
    for (refusal, status, code) in cases {
        let error = refusal.answer();
        assert_eq!((error.status, error.code), (status, code));
    }
    let internal = ApiError::internal();
    assert_eq!((internal.status, internal.code), (500, "internal_server_error"));
    assert_eq!(health(), "ok");
}

#[test]
fn responses_keep_identifiers_and_order() {
    let locations = vec![location("node:1", 45.0), location("way:2", 46.0)];
    let results = vec![
        LookupResult::found("link".to_owned()),
        LookupResult::without_url(LookupStatus::NotFound),
    ];
    let response = street_view_response(&locations, &results);
    assert_eq!(response.len(), 2);
    assert_eq!(response[0].id, "node:1");
    assert_eq!(response[0].street_view_url.as_deref(), Some("link"));
    assert_eq!(response[1].id, "way:2");
    assert!(response[1].street_view_url.is_none());
}

#[test]
fn uploads_are_looked_at_part_by_part() {
    assert!(matches!(upload_step(None, Some("a.gpx")), UploadStep::Skip));
    assert!(matches!(upload_step(Some("files"), Some("a.gpx")), UploadStep::Skip));
    match upload_step(Some("file"), Some("a.txt")) {
        UploadStep::Refuse(error) => assert_eq!((error.status, error.code), (400, "bad_request")),
        other => panic!("{other:?}"),
    }
    assert!(matches!(upload_step(Some("file"), None), UploadStep::Refuse(_)));
    match upload_step(Some("file"), Some("Ride.GPX")) {
        UploadStep::Read { filename } => assert_eq!(filename, "Ride.GPX"),
        other => panic!("{other:?}"),
    }
    assert!(accept_size(10, 10).is_ok());
    let error = accept_size(11, 10).unwrap_err();
    assert_eq!((error.status, error.code), (413, "payload_too_large"));
    assert_eq!(missing_file().status, 400);
}

#[test]
fn archiving_does_not_change_the_answer() {
    let valid = submission_outcome(&Ok(true));
    assert_eq!((valid.category, valid.error_code, valid.cache_hit), (ArchiveCategory::Valid, None, Some(true)));
    let failed = submission_outcome(&Err(ApiError::bad_request()));
    assert_eq!(failed.category, ArchiveCategory::Error);
    assert_eq!((failed.error_code, failed.cache_hit), (Some("bad_request"), None));

    let reading = SubmissionStage::Reading;
    let analysing = reading.after(SubmissionEvent::UploadRead).unwrap();
    for last in [SubmissionEvent::Archived, SubmissionEvent::ArchivingFailed] {
        let found = analysing.after(SubmissionEvent::Analysed { cache_hit: false }).unwrap();
        match found.after(last) {
            Some(SubmissionStage::Answered { result }) => assert!(!result.unwrap()),
            other => panic!("{other:?}"),
        }
        let failed = analysing
            .after(SubmissionEvent::AnalysisFailed(ApiError::bad_request()))
            .unwrap();
        match failed.after(last) {
            Some(SubmissionStage::Answered { result }) => {
                assert_eq!(result.unwrap_err().code, "bad_request")
            }
            other => panic!("{other:?}"),
        }
    }
    match reading.after(SubmissionEvent::UploadRefused(ApiError::payload_too_large())) {
        Some(SubmissionStage::Answered { result }) => assert_eq!(result.unwrap_err().status, 413),
        other => panic!("{other:?}"),
    }
    assert!(reading.after(SubmissionEvent::Archived).is_none());
    assert!(analysing.after(SubmissionEvent::UploadRead).is_none());
}

fn settings() -> Settings {
    Settings {
        database_url: None,
        bind_addr: None,
        max_upload_bytes: None,
        max_analysis_distance_m: None,
        gpx_log_dir: None,
        gpx_log_retention_days: None,
        gpx_log_max_bytes: None,
        osm_pbf_url: None,
        osm_import_interval_seconds: None,
        osm_import_dir: None,
        osm_import_on_startup: None,
        route_cache_ttl_seconds: None,
        google_maps_api_key: None,
    }
}

fn some(text: &str) -> Option<String> {
    Some(text.to_owned())
}

fn load(settings: &Settings) -> Result<Config, Setting> {
    Config::from_env(settings, &|text: &str| text.parse::<f64>().ok().map(number))
}

#[test]
fn missing_settings_have_their_defaults() {
    let config = load(&settings()).unwrap();
    assert_eq!(config.bind_addr, "0.0.0.0:3000");
    assert_eq!(config.database_url, "sqlite:data/aquatrace.db");
    assert_eq!(config.max_upload_bytes, 10 * 1024 * 1024);
    assert_eq!(value(config.max_analysis_distance_m), 500.0);
    assert_eq!(f64::from_bits(DEFAULT_MAX_ANALYSIS_DISTANCE_BITS), 500.0);
    assert_eq!(config.gpx_log_dir, "data/log");
    assert_eq!(config.gpx_log_retention_days, 90);
    assert_eq!(config.gpx_log_max_bytes, 1024 * 1024 * 1024);
    assert_eq!(config.osm_pbf_url, "https://download.geofabrik.de/europe-latest.osm.pbf");
    assert_eq!(config.osm_import_interval_seconds, 1_296_000);
    assert_eq!(config.osm_import_dir, "data/osm");
    assert!(config.osm_import_on_startup);
    assert_eq!(config.route_cache_ttl_seconds, 86_400);
    assert_eq!(config.google_maps_api_key, None);
    assert!(!StartupOptions::default().force_osm_download);
}

#[test]
fn settings_are_read() {
    let config = load(&Settings {
        max_upload_bytes: some("+5"),
        max_analysis_distance_m: some("1e2"),
        gpx_log_retention_days: some("7"),
        gpx_log_max_bytes: some("18446744073709551615"),
        osm_import_interval_seconds: some("-3"),
        osm_import_on_startup: some("Off"),
        google_maps_api_key: some(" key "),
        database_url: some("sqlite::memory:"),
        ..settings()
    })
    .unwrap();
    assert_eq!(config.max_upload_bytes, 5);
    assert_eq!(value(config.max_analysis_distance_m), 100.0);
    assert_eq!(config.gpx_log_retention_days, 7);
    assert_eq!(config.gpx_log_max_bytes, u64::MAX);
    assert_eq!(config.osm_import_interval_seconds, -3);
    assert!(!config.osm_import_on_startup);
    assert_eq!(config.google_maps_api_key.as_deref(), Some(" key "));
    assert_eq!(config.database_url, "sqlite::memory:");
    assert_eq!(load(&Settings { google_maps_api_key: some("  "), ..settings() }).unwrap().google_maps_api_key, None);
}

#[test]
fn bad_settings_are_refused_in_order() {
    let bad = Settings {
        gpx_log_retention_days: some("0"),
        gpx_log_max_bytes: some("0"),
        max_upload_bytes: some("-1"),
        max_analysis_distance_m: some("far"),
        osm_import_interval_seconds: some("soon"),
        osm_import_on_startup: some("maybe"),
        route_cache_ttl_seconds: some("9223372036854775808"),
        ..settings()
    };
    assert_eq!(load(&bad).unwrap_err(), Setting::GpxLogRetentionDays);
    let bad = Settings { gpx_log_retention_days: some("1"), ..bad };
    assert_eq!(load(&bad).unwrap_err(), Setting::GpxLogMaxBytes);
    let bad = Settings { gpx_log_max_bytes: some("1"), ..bad };
    assert_eq!(load(&bad).unwrap_err(), Setting::MaxUploadBytes);
    let bad = Settings { max_upload_bytes: some("1"), ..bad };
    assert_eq!(load(&bad).unwrap_err(), Setting::MaxAnalysisDistance);
    let bad = Settings { max_analysis_distance_m: some("1"), ..bad };
    assert_eq!(load(&bad).unwrap_err(), Setting::OsmImportIntervalSeconds);
    let bad = Settings { osm_import_interval_seconds: some("1"), ..bad };
    assert_eq!(load(&bad).unwrap_err(), Setting::OsmImportOnStartup);
    let bad = Settings { osm_import_on_startup: some("1"), ..bad };
    assert_eq!(load(&bad).unwrap_err(), Setting::RouteCacheTtlSeconds);
    assert_eq!(Setting::RouteCacheTtlSeconds.complaint(), "ROUTE_CACHE_TTL_SECONDS must be a positive integer");
    assert_eq!(Setting::OsmImportOnStartup.complaint(), "OSM_IMPORT_ON_STARTUP must be a boolean");
    assert_eq!(Setting::MaxAnalysisDistance.complaint(), "MAX_ANALYSIS_DISTANCE_M must be a number");
}

#[test]
fn numbers_are_read_as_the_standard_library_reads_them() {
    let texts = [
        "0", "007", "+1", "-1", "--1", "", "+", "-", " 1", "1 ", "9223372036854775807",
        "9223372036854775808", "-9223372036854775808", "-9223372036854775809", "１",
        "18446744073709551615", "18446744073709551616", "1_000", "-0", "+0",
    ];
    for text in texts {
        let given = some(text);
        assert_eq!(parse_signed(&given, 1), text.parse::<i64>().ok(), "{text}");
        assert_eq!(parse_unsigned(&given, 1, u64::MAX), text.parse::<u64>().ok(), "{text}");
    }
    assert_eq!(parse_unsigned(&some("256"), 1, 255), None);
    for yes in ["1", "true", "YES", "On"] {
        assert_eq!(parse_bool(&some(yes), false), Some(true));
    }
    for no in ["0", "FALSE", "no", "off"] {
        assert_eq!(parse_bool(&some(no), true), Some(false));
    }
    assert_eq!(parse_bool(&some(""), true), None);
    assert_eq!(parse_bool(&None, true), Some(true));
}

#[test]
fn database_addresses_name_files() {
    let path = |url: &str| sqlite_file_path(url);
    assert_eq!(path("sqlite:data/aquatrace.db").as_deref(), Some("data/aquatrace.db"));
    assert_eq!(path("sqlite:///data/a.db").as_deref(), Some("/data/a.db"));
    assert_eq!(path("sqlite:////data/a.db").as_deref(), Some("data/a.db"));
    assert_eq!(path("sqlite:").as_deref(), Some(""));
    assert_eq!(path("sqlite::memory:"), None);
    assert_eq!(path("postgres://x"), None);
}

fn row(started_at: &str, finished_at: Option<&str>) -> ImportRow {
    ImportRow {
        id: 4,
        source_url: "u".to_owned(),
        started_at: started_at.to_owned(),
        finished_at: finished_at.map(|t| t.to_owned()),
        status: "success".to_owned(),
        water_point_count: 42,
        dataset_version: 2,
        error: None,
    }
}

#[test]
fn imports_are_read_from_their_rows() {
    let status =
        import_status_from_row(row("2024-01-01T00:00:00+00:00", Some("2024-01-01T02:00:05.5+02:00")))
            .unwrap();
    assert_eq!(status.started_at, at(1_704_067_200, 0));
    assert_eq!(status.finished_at, Some(at(1_704_067_205, 500_000_000)));
    assert_eq!((status.id, status.water_point_count, status.dataset_version), (4, 42, 2));
    assert_eq!(status.status, "success");
    assert!(import_status_from_row(row("2024-01-01T00:00:00Z", None)).unwrap().finished_at.is_none());
    match import_status_from_row(row("yesterday", Some("never"))) {
        Err(StoreError::InvalidTimestamp { value }) => assert_eq!(value, "yesterday"),
        other => panic!("{other:?}"),
    }
    match import_status_from_row(row("2024-01-01T00:00:00Z", Some("never"))) {
        Err(StoreError::InvalidTimestamp { value }) => assert_eq!(value, "never"),
        other => panic!("{other:?}"),
    }
    assert_eq!(parse_rfc3339_utc("2016-12-31T23:59:60Z").unwrap(), at(1_483_228_799, 1_000_000_000));
}

#[test]
fn stored_times_read_back() {
    for time in [
        at(0, 0),
        at(1_700_000_000, 1),
        at(1_700_000_000, 123_000_000),
        at(1_700_000_000, 123_456_000),
        at(-62_167_219_200, 0),
        at(253_402_300_799, 999_999_999),
        at(1_483_228_799, 1_500_000_000),
    ] {
        assert_eq!(parse_rfc3339_utc(&stored_time(time)).unwrap(), time);
    }
    assert_eq!(stored_time(at(1_700_000_000, 5_000_000)), "2023-11-14T22:13:20.005+00:00");
    assert!(parse_rfc3339_utc(&stored_time(at(253_402_300_800, 0))).is_err());
    assert!(!stored_time(at(FIRST_SECOND, 0)).is_empty());
    assert!(!stored_time(at(LAST_SECOND, 999_999_999)).is_empty());
}

#[test]
fn spans_count_nanoseconds() {
    assert_eq!(elapsed_nanos(at(10, 5), at(3, 7)), Some(6_999_999_998));
    assert_eq!(elapsed_nanos(at(3, 7), at(10, 5)), Some(-6_999_999_998));
    assert_eq!(elapsed_nanos(at(LAST_SECOND + 1, 0), at(0, 0)), None);
    assert_eq!(elapsed_nanos(at(0, 0), at(FIRST_SECOND - 1, 0)), None);
    assert_eq!(elapsed_nanos(at(0, 1_000_000_000), at(0, 0)), None);
    assert_eq!(
        elapsed_nanos(at(LAST_SECOND, 0), at(FIRST_SECOND, 0)),
        Some((LAST_SECOND as i128 - FIRST_SECOND as i128) * 1_000_000_000)
    );
    let leap = at(1_483_228_799, 1_500_000_000);
    assert_eq!(elapsed_nanos(leap, at(1_483_228_799, 0)), Some(1_500_000_000));
    assert_eq!(elapsed_nanos(at(1_483_228_800, 0), leap), Some(-500_000_000));
    assert_eq!(elapsed_nanos(at(1_483_228_800 + 86_399, 0), leap), Some(86_398_500_000_000));
    assert_eq!(elapsed_nanos(leap, at(1_483_228_798, 0)), Some(2_500_000_000));
    assert_eq!(elapsed_nanos(at(1_483_228_798, 0), leap), Some(-2_500_000_000));
}

#[test]
fn cached_analyses_have_an_end() {
    let times = route_cache_times(at(1_700_000_000, 0), 86_400).unwrap();
    assert_eq!(times.created_at, "2023-11-14T22:13:20+00:00");
    assert_eq!(times.expires_at, "2023-11-15T22:13:20+00:00");
    assert!(route_cache_times(at(LAST_SECOND, 0), 1).is_none());
    assert!(route_cache_times(at(0, 0), i64::MAX).is_none());
    let leap = at(1_483_228_799, 1_500_000_000);
    assert_eq!(
        route_cache_times(leap, 1).unwrap().expires_at,
        "2017-01-01T00:00:00.500+00:00"
    );
    assert_eq!(
        route_cache_times(leap, -1).unwrap().expires_at,
        "2016-12-31T23:59:59.500+00:00"
    );
    assert_eq!(route_cache_times(leap, 0).unwrap().expires_at, "2016-12-31T23:59:60.500+00:00");
}

#[test]
fn imports_are_recorded() {
    let start = import_start("https://example.test/europe.osm.pbf", at(0, 0), 3);
    assert_eq!(start.source_url, "https://example.test/europe.osm.pbf");
    assert_eq!(start.started_at, "1970-01-01T00:00:00+00:00");
    assert_eq!((start.status, start.dataset_version), (IMPORT_STATUS_RUNNING, 3));
    let success = import_success(at(5, 0), 42).unwrap();
    assert_eq!(success.finished_at, "1970-01-01T00:00:05+00:00");
    assert_eq!(success.status, IMPORT_STATUS_SUCCESS);
    assert_eq!((success.water_point_count, success.error), (Some(42), None));
    assert!(matches!(import_success(at(5, 0), usize::MAX), Err(StoreError::NumberTooLarge)));
    let failure = import_failure(at(5, 0), "no disk");
    assert_eq!(failure.status, IMPORT_STATUS_FAILED);
    assert_eq!((failure.water_point_count, failure.error.as_deref()), (None, Some("no disk")));
    assert_eq!(
        (IMPORT_STATUS_RUNNING, IMPORT_STATUS_SUCCESS, IMPORT_STATUS_FAILED),
        ("running", "success", "failed")
    );
}

#[test]
fn water_points_are_stored_and_read_back() {
    let points = [
        OsmWaterPoint {
            osm_type: OsmElementType::Node,
            osm_id: 42,
            lat: number(45.0),
            lon: number(5.0),
            name: some("Node"),
        },
        OsmWaterPoint {
            osm_type: OsmElementType::Way,
            osm_id: 42,
            lat: number(45.001),
            lon: number(5.001),
            name: None,
        },
    ];
    let rows: Vec<WaterPointRow> = points.iter().map(water_point_row).collect();
    assert_eq!(rows[1].osm_type, "way");
    let read = water_points_from_rows(&rows).unwrap();
    for (a, b) in points.iter().zip(&read) {
        assert_eq!((a.osm_type, a.osm_id, a.lat, a.lon, &a.name), (b.osm_type, b.osm_id, b.lat, b.lon, &b.name));
    }
    let mut rows = rows;
    rows[1].osm_type = "relation".to_owned();
    match water_points_from_rows(&rows) {
        Err(StoreError::InvalidElementType { value }) => assert_eq!(value, "relation"),
        other => panic!("{other:?}"),
    }
}

#[test]
fn kinds_of_objects_have_names() {
    assert_eq!(OsmElementType::Node.as_str(), "node");
    assert_eq!(OsmElementType::from_db_value("way"), Some(OsmElementType::Way));
    assert_eq!(OsmElementType::from_db_value("Way"), None);
    assert_eq!(OsmElementType::default(), OsmElementType::Node);
}

#[test]
fn searches_ask_for_prefixes() {
    assert_eq!(fts_prefix_query("echi"), "\"echi\"*");
    assert_eq!(fts_prefix_query("  Saint-Pierre d'Été 2 "), "\"Saint\"* \"Pierre\"* \"d\"* \"Été\"* \"2\"*");
    assert_eq!(fts_prefix_query("\"*'; --"), "");
    assert_eq!(place_search("--", usize::MAX).unwrap(), None);
    assert_eq!(place_search("a", 10).unwrap(), Some(("\"a\"*".to_owned(), 10)));
    assert!(matches!(place_search("a", usize::MAX), Err(StoreError::NumberTooLarge)));
    assert!(any_rows(1));
    assert!(!any_rows(0));
}

#[test]
fn lookups_wait_ask_and_remember() {
    let mut service = StreetViewService::new(Some("secret".to_owned()));
    let here = place(45.123456, 5.654321);
    let mut lookup =
        |event: LookupEvent, now: u128| service.lookup(here, &event, &millionths, &describe, now);

    assert!(matches!(lookup(LookupEvent::Requested, 1), LookupAction::Queue));
    match lookup(LookupEvent::Admitted, 2) {
        LookupAction::Ask(query) => {
            let expected = [("location", "45.123456,5.654321"), ("radius", "50"), ("key", "secret")];
            assert_eq!(query.len(), expected.len());
            for (pair, wanted) in query.iter().zip(expected) {
                assert_eq!((pair.0.as_str(), pair.1.as_str()), wanted);
            }
        }
        other => panic!("{other:?}"),
    }
    match lookup(LookupEvent::TurnedAway, 3) {
        LookupAction::Finish(result) => assert_eq!(result.status, LookupStatus::Error),
        other => panic!("{other:?}"),
    }
    match lookup(LookupEvent::Replied(LookupReply::TimedOut), 4) {
        LookupAction::Finish(result) => assert_eq!(result.status, LookupStatus::Timeout),
        other => panic!("{other:?}"),
    }
    assert!(matches!(lookup(LookupEvent::Admitted, 5), LookupAction::Ask(_)));
    match lookup(LookupEvent::Replied(answer("ZERO_RESULTS", None)), 6) {
        LookupAction::Finish(result) => assert_eq!(result.status, LookupStatus::NotFound),
        other => panic!("{other:?}"),
    }
    for event in [LookupEvent::Requested, LookupEvent::Admitted] {
        match lookup(event, 7) {
            LookupAction::Finish(result) => assert_eq!(result.status, LookupStatus::NotFound),
            other => panic!("{other:?}"),
        }
    }
}

#[test]
fn lookups_of_places_that_round_alike_share_a_result() {
    let mut service = StreetViewService::new(Some("secret".to_owned()));
    let here = place(45.123456, 5.654321);
    let near = place(45.1234561, 5.6543209);
    let far = place(45.123457, 5.654321);
    let found = LookupEvent::Replied(answer("ZERO_RESULTS", None));
    assert!(matches!(
        service.lookup(here, &found, &millionths, &describe, 1),
        LookupAction::Finish(_)
    ));
    assert!(matches!(
        service.lookup(near, &LookupEvent::Requested, &millionths, &describe, 2),
        LookupAction::Finish(_)
    ));
    assert!(matches!(
        service.lookup(far, &LookupEvent::Requested, &millionths, &describe, 2),
        LookupAction::Queue
    ));
}

#[test]
fn cached_analyses_hold_until_they_expire() {
    let stored_at = Timestamp { seconds: 1_700_000_000, nanos: 250_000_000 };
    let times = route_cache_times(stored_at, 60).unwrap();
    let cases = [
        (1_700_000_000, 250_000_000, true),
        (1_700_000_060, 249_999_999, true),
        (1_700_000_060, 250_000_000, false),
        (1_700_000_060, 250_000_001, false),
        (1_700_000_061, 0, false),
    ];
    for (seconds, nanos, holds) in cases {
        let now = Timestamp { seconds, nanos };
        assert_eq!(cache_holds(&times.expires_at, now), holds);
        assert_eq!(times.expires_at > stored_time(now), holds);
        let row = CachedRoute {
            analysis_json: "{}".to_owned(),
            expires_at: times.expires_at.clone(),
        };
        let wanted = if holds { Some("{}".to_owned()) } else { None };
        assert_eq!(cached_analysis(Some(row), now), wanted);
    }
    assert_eq!(cached_analysis(None, stored_at), None);
    assert!(cache_holds("2100-01-01T00:00:00+02:00", stored_at));
    assert!(cache_holds("soon", stored_at));
    assert!(!cache_holds("", stored_at));
    assert!(!cache_holds(&stored_time(stored_at), stored_at));
}

#[test]
fn stored_times_are_in_order_where_their_years_are_written_alike() {
    let eras = [
        [YEAR_ZERO, 0, YEAR_TEN_THOUSAND - 1],
        [YEAR_TEN_THOUSAND, YEAR_TEN_THOUSAND + 86_400, YEAR_HUNDRED_THOUSAND - 1],
        [YEAR_HUNDRED_THOUSAND, YEAR_HUNDRED_THOUSAND + 1, LAST_SECOND],
    ];
    for era in eras {
        let mut points = Vec::new();
        for seconds in era {
            for nanos in [0, 1, 1_000, 999_999, 1_000_000, 500_000_000, 500_000_001, 999_999_999] {
                points.push(at(seconds, nanos));
            }
            if seconds.rem_euclid(60) == 59 {
                points.push(at(seconds, 1_000_000_000));
                points.push(at(seconds, 1_999_999_999));
            }
        }
        for a in &points {
            for b in &points {
                let before = (a.seconds, a.nanos) < (b.seconds, b.nanos);
                assert_eq!(stored_time(*a) < stored_time(*b), before, "{a:?} {b:?}");
                assert_eq!(precedes_text(&stored_time(*a), &stored_time(*b)), before);
                assert_eq!(cache_holds(&stored_time(*b), *a), before);
            }
        }
    }
    let plus = at(YEAR_TEN_THOUSAND, 0);
    let minus = at(YEAR_ZERO - 1, 0);
    let plain = at(0, 0);
    assert!(cache_holds(&stored_time(minus), plus));
    assert!(cache_holds(&stored_time(plain), minus));
    assert!(cache_holds(&stored_time(plain), plus));
    assert!(!cache_holds(&stored_time(plus), plain));
    assert!(stored_time(at(YEAR_TEN_THOUSAND - 1, 0)).starts_with("9999-12-31T23:59:59"));
    assert!(stored_time(plus).starts_with("+10000-01-01T00:00:00"));
    assert!(stored_time(at(YEAR_HUNDRED_THOUSAND, 0)).starts_with("+100000-01-01T00:00:00"));
}

#[test]
fn submissions_are_hashed() {
    assert_eq!(
        sha256_hex(b"abc"),
        "ba7816bf8f01cfea414140de5dae2223b00361a396177a9cb410ff61f20015ad"
    );
    assert_eq!(
        sha256_hex(b""),
        "e3b0c44298fc1c149afbf4c8996fb92427ae41e4649b934ca495991b7852b855"
    );
    assert_eq!(encode_hex(&[0x00, 0x0f, 0xa5, 0xff]), "000fa5ff");
    assert_eq!(encode_hex(&[]), "");
}
