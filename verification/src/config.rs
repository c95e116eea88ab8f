//! The settings of the backend.

use vstd::prelude::*;

use crate::binary64::Binary64;
use crate::text::{chars_of, has_prefix, lower, lowered, number_within, read_signed, read_unsigned, same_text, starts_with, text_of, trim, trimmed, written_number};

verus! {

/// 10 MiB.
pub const DEFAULT_MAX_UPLOAD_BYTES: usize = 10_485_760;

/// The bit pattern of 500 metres.
pub const DEFAULT_MAX_ANALYSIS_DISTANCE_BITS: u64 = 0x407f_4000_0000_0000;

pub const DEFAULT_DATABASE_URL: &'static str = "sqlite:data/aquatrace.db";

pub const DEFAULT_BIND_ADDR: &'static str = "0.0.0.0:3000";

pub const DEFAULT_GPX_LOG_DIR: &'static str = "data/log";

pub const DEFAULT_GPX_LOG_RETENTION_DAYS: i64 = 90;

/// 1 GiB.
pub const DEFAULT_GPX_LOG_MAX_BYTES: u64 = 1_073_741_824;

pub const DEFAULT_OSM_PBF_URL: &'static str = "https://download.geofabrik.de/europe-latest.osm.pbf";

/// 15 days.
pub const DEFAULT_OSM_IMPORT_INTERVAL_SECONDS: i64 = 1_296_000;

pub const DEFAULT_OSM_IMPORT_DIR: &'static str = "data/osm";

/// One day.
pub const DEFAULT_ROUTE_CACHE_TTL_SECONDS: i64 = 86_400;

/// What the program is told when it is started.
#[derive(Clone, Copy, Debug, PartialEq, Eq, Structural)]
pub struct StartupOptions {
    pub force_osm_download: bool,
}

impl Default for StartupOptions {
    /// No download is asked for.
    fn default() -> (options: Self)
        ensures
            !options.force_osm_download,
    {
        StartupOptions { force_osm_download: false }
    }
}

/// The settings as they are given, each of which may be missing.
#[derive(Debug)]
pub struct Settings {
    pub database_url: Option<String>,
    pub bind_addr: Option<String>,
    pub max_upload_bytes: Option<String>,
    pub max_analysis_distance_m: Option<String>,
    pub gpx_log_dir: Option<String>,
    pub gpx_log_retention_days: Option<String>,
    pub gpx_log_max_bytes: Option<String>,
    pub osm_pbf_url: Option<String>,
    pub osm_import_interval_seconds: Option<String>,
    pub osm_import_dir: Option<String>,
    pub osm_import_on_startup: Option<String>,
    pub route_cache_ttl_seconds: Option<String>,
    pub google_maps_api_key: Option<String>,
}

/// The settings of the backend.
#[derive(Clone, Debug)]
pub struct Config {
    pub bind_addr: String,
    pub database_url: String,
    pub max_upload_bytes: usize,
    pub max_analysis_distance_m: Binary64,
    pub gpx_log_dir: String,
    pub gpx_log_retention_days: i64,
    pub gpx_log_max_bytes: u64,
    pub osm_pbf_url: String,
    pub osm_import_interval_seconds: i64,
    pub osm_import_dir: String,
    pub osm_import_on_startup: bool,
    pub route_cache_ttl_seconds: i64,
    pub google_maps_api_key: Option<String>,
}

/// A setting that can be refused.
#[derive(Clone, Copy, Debug, PartialEq, Eq, Structural)]
pub enum Setting {
    GpxLogRetentionDays,
    GpxLogMaxBytes,
    MaxUploadBytes,
    MaxAnalysisDistance,
    OsmImportIntervalSeconds,
    OsmImportOnStartup,
    RouteCacheTtlSeconds,
}

impl Setting {
    /// The name under which the setting is given.
    pub open spec fn key(self) -> Seq<char> {
        match self {
            Setting::GpxLogRetentionDays => "GPX_LOG_RETENTION_DAYS"@,
            Setting::GpxLogMaxBytes => "GPX_LOG_MAX_BYTES"@,
            Setting::MaxUploadBytes => "MAX_UPLOAD_BYTES"@,
            Setting::MaxAnalysisDistance => "MAX_ANALYSIS_DISTANCE_M"@,
            Setting::OsmImportIntervalSeconds => "OSM_IMPORT_INTERVAL_SECONDS"@,
            Setting::OsmImportOnStartup => "OSM_IMPORT_ON_STARTUP"@,
            Setting::RouteCacheTtlSeconds => "ROUTE_CACHE_TTL_SECONDS"@,
        }
    }

    /// What the setting must be.
    pub open spec fn demand(self) -> Seq<char> {
        match self {
            Setting::MaxAnalysisDistance => " must be a number"@,
            Setting::OsmImportOnStartup => " must be a boolean"@,
            _ => " must be a positive integer"@,
        }
    }

    /// The name under which the setting is given.
    pub fn name(self) -> (name: &'static str)
        ensures
            name@ == self.key(),
    {
        match self {
            Setting::GpxLogRetentionDays => "GPX_LOG_RETENTION_DAYS",
            Setting::GpxLogMaxBytes => "GPX_LOG_MAX_BYTES",
            Setting::MaxUploadBytes => "MAX_UPLOAD_BYTES",
            Setting::MaxAnalysisDistance => "MAX_ANALYSIS_DISTANCE_M",
            Setting::OsmImportIntervalSeconds => "OSM_IMPORT_INTERVAL_SECONDS",
            Setting::OsmImportOnStartup => "OSM_IMPORT_ON_STARTUP",
            Setting::RouteCacheTtlSeconds => "ROUTE_CACHE_TTL_SECONDS",
        }
    }

    /// Why the setting is refused.
    pub fn complaint(self) -> (text: String)
        ensures
            text@ == self.key() + self.demand(),
    {
        let mut text = self.name().to_owned();
        let demand = match self {
            Setting::MaxAnalysisDistance => " must be a number",
            Setting::OsmImportOnStartup => " must be a boolean",
            _ => " must be a positive integer",
        };
        text.append(demand);
        text
    }
}

/// The truth value that a text stands for, in whatever case.
pub open spec fn truth_value(text: Seq<char>) -> Option<bool> {
    let t = lowered(text);
    if t == "1"@ || t == "true"@ || t == "yes"@ || t == "on"@ {
        Some(true)
    } else if t == "0"@ || t == "false"@ || t == "no"@ || t == "off"@ {
        Some(false)
    } else {
        None
    }
}

/// The signed number that a setting stands for; the default where it is missing.
pub open spec fn signed_setting(value: Option<String>, default: i64) -> Option<int> {
    match value {
        Some(text) => number_within(text@, true, i64::MIN as int, i64::MAX as int),
        None => Some(default as int),
    }
}

/// The unsigned number that a setting stands for; the default where it is missing.
pub open spec fn unsigned_setting(value: Option<String>, default: u64, largest: u64) -> Option<int> {
    match value {
        Some(text) => number_within(text@, false, 0, largest as int),
        None => Some(default as int),
    }
}

/// The truth value that a setting stands for; the default where it is missing.
pub open spec fn bool_setting(value: Option<String>, default: bool) -> Option<bool> {
    match value {
        Some(text) => truth_value(text@),
        None => Some(default),
    }
}

/// A text setting; the default where it is missing.
pub open spec fn text_setting(value: Option<String>, default: Seq<char>) -> Seq<char> {
    match value {
        Some(text) => text@,
        None => default,
    }
}

/// Reads a truth value.
pub fn parse_bool(value: &Option<String>, default: bool) -> (b: Option<bool>)
    ensures
        b == bool_setting(*value, default),
{
    match value {
        Some(text) => {
            let t = lower(text.as_str());
            let s = t.as_str();
            if same_text(s, "1") || same_text(s, "true") || same_text(s, "yes") || same_text(
                s,
                "on",
            ) {
                Some(true)
            } else if same_text(s, "0") || same_text(s, "false") || same_text(s, "no")
                || same_text(s, "off") {
                Some(false)
            } else {
                None
            }
        },
        None => Some(default),
    }
}

/// Reads a signed number.
pub fn parse_signed(value: &Option<String>, default: i64) -> (n: Option<i64>)
    ensures
        match n {
            Some(v) => signed_setting(*value, default) == Some(v as int),
            None => signed_setting(*value, default) is None,
        },
{
    match value {
        Some(text) => read_signed(text.as_str()),
        None => Some(default),
    }
}

/// Reads an unsigned number up to `largest`.
pub fn parse_unsigned(value: &Option<String>, default: u64, largest: u64) -> (n: Option<u64>)
    ensures
        match n {
            Some(v) => unsigned_setting(*value, default, largest) == Some(v as int),
            None => unsigned_setting(*value, default, largest) is None,
        },
{
    match value {
        Some(text) => read_unsigned(text.as_str(), largest),
        None => Some(default),
    }
}

fn text_or(value: &Option<String>, default: &str) -> (text: String)
    ensures
        text@ == text_setting(*value, default@),
{
    match value {
        Some(text) => text.clone(),
        None => default.to_owned(),
    }
}

/// Whether `distance` is what a setting stands for. `number` reads a number.
pub open spec fn distance_setting<N>(
    number: N,
    value: Option<String>,
    distance: Option<Binary64>,
) -> bool where N: Fn(&str) -> Option<Binary64> {
    match value {
        Some(text) => exists|s: &str| s@ == text@ && #[trigger] call_ensures(number, (s,), distance),
        None => distance == Some(Binary64 { bits: DEFAULT_MAX_ANALYSIS_DISTANCE_BITS }),
    }
}

/// Whether `config` holds what the settings say.
pub open spec fn configures<N>(number: N, settings: Settings, config: Config) -> bool where
    N: Fn(&str) -> Option<Binary64>,
 {
    &&& config.bind_addr@ == text_setting(settings.bind_addr, DEFAULT_BIND_ADDR@)
    &&& config.database_url@ == text_setting(settings.database_url, DEFAULT_DATABASE_URL@)
    &&& config.osm_pbf_url@ == text_setting(settings.osm_pbf_url, DEFAULT_OSM_PBF_URL@)
    &&& config.osm_import_dir@ == text_setting(settings.osm_import_dir, DEFAULT_OSM_IMPORT_DIR@)
    &&& config.gpx_log_dir@ == text_setting(settings.gpx_log_dir, DEFAULT_GPX_LOG_DIR@)
    &&& signed_setting(settings.gpx_log_retention_days, DEFAULT_GPX_LOG_RETENTION_DAYS) == Some(
        config.gpx_log_retention_days as int,
    )
    &&& config.gpx_log_retention_days > 0
    &&& unsigned_setting(settings.gpx_log_max_bytes, DEFAULT_GPX_LOG_MAX_BYTES, u64::MAX) == Some(
        config.gpx_log_max_bytes as int,
    )
    &&& config.gpx_log_max_bytes > 0
    &&& unsigned_setting(
        settings.max_upload_bytes,
        DEFAULT_MAX_UPLOAD_BYTES as u64,
        usize::MAX as u64,
    ) == Some(config.max_upload_bytes as int)
    &&& distance_setting(
        number,
        settings.max_analysis_distance_m,
        Some(config.max_analysis_distance_m),
    )
    &&& signed_setting(
        settings.osm_import_interval_seconds,
        DEFAULT_OSM_IMPORT_INTERVAL_SECONDS,
    ) == Some(config.osm_import_interval_seconds as int)
    &&& bool_setting(settings.osm_import_on_startup, true) == Some(config.osm_import_on_startup)
    &&& signed_setting(settings.route_cache_ttl_seconds, DEFAULT_ROUTE_CACHE_TTL_SECONDS) == Some(
        config.route_cache_ttl_seconds as int,
    )
    &&& match settings.google_maps_api_key {
        Some(key) => if trimmed(key@).len() > 0 {
            config.google_maps_api_key matches Some(k) && k@ == key@
        } else {
            config.google_maps_api_key is None
        },
        None => config.google_maps_api_key is None,
    }
}

/// Whether a setting is refused.
pub open spec fn refuses<N>(number: N, settings: Settings, setting: Setting) -> bool where
    N: Fn(&str) -> Option<Binary64>,
 {
    match setting {
        Setting::GpxLogRetentionDays => match signed_setting(
            settings.gpx_log_retention_days,
            DEFAULT_GPX_LOG_RETENTION_DAYS,
        ) {
            Some(days) => days <= 0,
            None => true,
        },
        Setting::GpxLogMaxBytes => match unsigned_setting(
            settings.gpx_log_max_bytes,
            DEFAULT_GPX_LOG_MAX_BYTES,
            u64::MAX,
        ) {
            Some(bytes) => bytes == 0,
            None => true,
        },
        Setting::MaxUploadBytes => unsigned_setting(
            settings.max_upload_bytes,
            DEFAULT_MAX_UPLOAD_BYTES as u64,
            usize::MAX as u64,
        ) is None,
        Setting::MaxAnalysisDistance => distance_setting(
            number,
            settings.max_analysis_distance_m,
            None,
        ),
        Setting::OsmImportIntervalSeconds => signed_setting(
            settings.osm_import_interval_seconds,
            DEFAULT_OSM_IMPORT_INTERVAL_SECONDS,
        ) is None,
        Setting::OsmImportOnStartup => bool_setting(settings.osm_import_on_startup, true) is None,
        Setting::RouteCacheTtlSeconds => signed_setting(
            settings.route_cache_ttl_seconds,
            DEFAULT_ROUTE_CACHE_TTL_SECONDS,
        ) is None,
    }
}

/// The order in which settings are looked at.
pub open spec fn rank(setting: Setting) -> int {
    match setting {
        Setting::GpxLogRetentionDays => 0,
        Setting::GpxLogMaxBytes => 1,
        Setting::MaxUploadBytes => 2,
        Setting::MaxAnalysisDistance => 3,
        Setting::OsmImportIntervalSeconds => 4,
        Setting::OsmImportOnStartup => 5,
        Setting::RouteCacheTtlSeconds => 6,
    }
}

/// Whether a setting is accepted.
pub open spec fn accepts<N>(number: N, settings: Settings, setting: Setting) -> bool where
    N: Fn(&str) -> Option<Binary64>,
 {
    if setting == Setting::MaxAnalysisDistance {
        exists|distance: Binary64| #[trigger]
            distance_setting(number, settings.max_analysis_distance_m, Some(distance))
    } else {
        !refuses(number, settings, setting)
    }
}

fn read_distance<N>(value: &Option<String>, number: &N) -> (distance: Option<Binary64>) where
    N: Fn(&str) -> Option<Binary64>,

    requires
        forall|s: &str| call_requires(*number, (s,)),
    ensures
        distance_setting(*number, *value, distance),
{
    match value {
        Some(text) => number(text.as_str()),
        None => Some(Binary64 { bits: DEFAULT_MAX_ANALYSIS_DISTANCE_BITS }),
    }
}

impl Config {
    /// Reads the settings; the first one that is refused is the error.
    ///
    /// `number` reads a number with a fraction.
    pub fn from_env<N>(settings: &Settings, number: &N) -> (config: Result<Config, Setting>) where
        N: Fn(&str) -> Option<Binary64>,

        requires
            forall|s: &str| call_requires(*number, (s,)),
        ensures
            match config {
                Ok(c) => configures(*number, *settings, c),
                Err(setting) => {
                    &&& refuses(*number, *settings, setting)
                    &&& forall|earlier: Setting|
                        rank(earlier) < rank(setting) ==> #[trigger] accepts(
                            *number,
                            *settings,
                            earlier,
                        )
                },
            },
    {
        let gpx_log_retention_days = match parse_signed(
            &settings.gpx_log_retention_days,
            DEFAULT_GPX_LOG_RETENTION_DAYS,
        ) {
            Some(days) => days,
            None => {
                return Err(Setting::GpxLogRetentionDays);
            },
        };
        if gpx_log_retention_days <= 0 {
            return Err(Setting::GpxLogRetentionDays);
        }
        let gpx_log_max_bytes = match parse_unsigned(
            &settings.gpx_log_max_bytes,
            DEFAULT_GPX_LOG_MAX_BYTES,
            u64::MAX,
        ) {
            Some(bytes) => bytes,
            None => {
                return Err(Setting::GpxLogMaxBytes);
            },
        };
        if gpx_log_max_bytes == 0 {
            return Err(Setting::GpxLogMaxBytes);
        }
        let max_upload_bytes = match parse_unsigned(
            &settings.max_upload_bytes,
            DEFAULT_MAX_UPLOAD_BYTES as u64,
            usize::MAX as u64,
        ) {
            Some(bytes) => bytes as usize,
            None => {
                return Err(Setting::MaxUploadBytes);
            },
        };
        let max_analysis_distance_m = match read_distance(
            &settings.max_analysis_distance_m,
            number,
        ) {
            Some(distance) => distance,
            None => {
                return Err(Setting::MaxAnalysisDistance);
            },
        };
        let osm_import_interval_seconds = match parse_signed(
            &settings.osm_import_interval_seconds,
            DEFAULT_OSM_IMPORT_INTERVAL_SECONDS,
        ) {
            Some(seconds) => seconds,
            None => {
                return Err(Setting::OsmImportIntervalSeconds);
            },
        };
        let osm_import_on_startup = match parse_bool(&settings.osm_import_on_startup, true) {
            Some(b) => b,
            None => {
                return Err(Setting::OsmImportOnStartup);
            },
        };
        let route_cache_ttl_seconds = match parse_signed(
            &settings.route_cache_ttl_seconds,
            DEFAULT_ROUTE_CACHE_TTL_SECONDS,
        ) {
            Some(seconds) => seconds,
            None => {
                return Err(Setting::RouteCacheTtlSeconds);
            },
        };
        let google_maps_api_key = match &settings.google_maps_api_key {
            Some(key) => if trim(key.as_str()).as_str().is_empty() {
                None
            } else {
                Some(key.clone())
            },
            None => None,
        };
        Ok(
            Config {
                bind_addr: text_or(&settings.bind_addr, DEFAULT_BIND_ADDR),
                database_url: text_or(&settings.database_url, DEFAULT_DATABASE_URL),
                max_upload_bytes,
                max_analysis_distance_m,
                gpx_log_dir: text_or(&settings.gpx_log_dir, DEFAULT_GPX_LOG_DIR),
                gpx_log_retention_days,
                gpx_log_max_bytes,
                osm_pbf_url: text_or(&settings.osm_pbf_url, DEFAULT_OSM_PBF_URL),
                osm_import_interval_seconds,
                osm_import_dir: text_or(&settings.osm_import_dir, DEFAULT_OSM_IMPORT_DIR),
                osm_import_on_startup,
                route_cache_ttl_seconds,
                google_maps_api_key,
            },
        )
    }
}

/// Without any setting the defaults hold.
pub proof fn missing_settings_have_defaults<N>(number: N, settings: Settings, config: Config) where
    N: Fn(&str) -> Option<Binary64>,

    requires
        configures(number, settings, config),
        settings.bind_addr is None && settings.database_url is None,
        settings.max_upload_bytes is None && settings.max_analysis_distance_m is None,
        settings.gpx_log_dir is None && settings.gpx_log_retention_days is None,
        settings.gpx_log_max_bytes is None && settings.osm_pbf_url is None,
        settings.osm_import_interval_seconds is None && settings.osm_import_dir is None,
        settings.osm_import_on_startup is None && settings.route_cache_ttl_seconds is None,
        settings.google_maps_api_key is None,
    ensures
        config.bind_addr@ == DEFAULT_BIND_ADDR@,
        config.database_url@ == DEFAULT_DATABASE_URL@,
        config.max_upload_bytes == DEFAULT_MAX_UPLOAD_BYTES,
        config.max_analysis_distance_m.bits == DEFAULT_MAX_ANALYSIS_DISTANCE_BITS,
        config.gpx_log_dir@ == DEFAULT_GPX_LOG_DIR@,
        config.gpx_log_retention_days == DEFAULT_GPX_LOG_RETENTION_DAYS,
        config.gpx_log_max_bytes == DEFAULT_GPX_LOG_MAX_BYTES,
        config.osm_pbf_url@ == DEFAULT_OSM_PBF_URL@,
        config.osm_import_interval_seconds == DEFAULT_OSM_IMPORT_INTERVAL_SECONDS,
        config.osm_import_dir@ == DEFAULT_OSM_IMPORT_DIR@,
        config.osm_import_on_startup,
        config.route_cache_ttl_seconds == DEFAULT_ROUTE_CACHE_TTL_SECONDS,
        config.google_maps_api_key is None,
{
}

/// A text without the pairs of slashes at its beginning.
pub open spec fn without_slash_pairs(text: Seq<char>) -> Seq<char>
    decreases text.len(),
{
    if text.len() >= 2 && text[0] == '/' && text[1] == '/' {
        without_slash_pairs(text.skip(2))
    } else {
        text
    }
}

/// The path of the database file that an address names; nothing for a database that
/// is no SQLite file.
pub open spec fn sqlite_path(url: Seq<char>) -> Option<Seq<char>> {
    if !has_prefix(url, "sqlite:"@) {
        None
    } else if url.skip(7) == ":memory:"@ {
        None
    } else {
        Some(without_slash_pairs(url.skip(7)))
    }
}

/// The path of the database file that an address names.
pub fn sqlite_file_path(database_url: &str) -> (path: Option<String>)
    ensures
        match path {
            Some(p) => sqlite_path(database_url@) == Some(p@),
            None => sqlite_path(database_url@) is None,
        },
{
    if !starts_with(database_url, "sqlite:") {
        return None;
    }
    proof {
        reveal_strlit("sqlite:");
        assert("sqlite:"@.len() == 7);
    }
    let chars = chars_of(database_url);
    let total: usize = chars.len();
    let rest = text_of(&chars, 7, total);
    assert(rest@ =~= database_url@.skip(7));
    if same_text(rest.as_str(), ":memory:") {
        return None;
    }
    let mut from: usize = 7;
    assert(chars@.skip(7) =~= rest@);
    while total - from >= 2 && chars[from] == '/' && chars[from + 1] == '/'
        invariant
            7 <= from <= total == chars@.len(),
            without_slash_pairs(rest@) == without_slash_pairs(chars@.skip(from as int)),
        decreases total - from,
    {
        assert(chars@.skip(from as int).skip(2) =~= chars@.skip(from + 2));
        from = from + 2;
    }
    let path = text_of(&chars, from, total);
    assert(path@ =~= chars@.skip(from as int));
    Some(path)
}

/// Every setting counts for its own value alone: a text is taken as it is given, a number
/// is the one that is written, and each one that is missing has its own default, whatever
/// the others are.
pub proof fn settings_are_taken_one_by_one<N>(number: N, settings: Settings, config: Config) where
    N: Fn(&str) -> Option<Binary64>,

    requires
        configures(number, settings, config),
    ensures
        settings.bind_addr matches Some(text) ==> config.bind_addr@ == text@,
        settings.bind_addr is None ==> config.bind_addr@ == "0.0.0.0:3000"@,
        settings.database_url matches Some(text) ==> config.database_url@ == text@,
        settings.database_url is None ==> config.database_url@ == "sqlite:data/aquatrace.db"@,
        settings.osm_pbf_url matches Some(text) ==> config.osm_pbf_url@ == text@,
        settings.osm_pbf_url is None ==> config.osm_pbf_url@
            == "https://download.geofabrik.de/europe-latest.osm.pbf"@,
        settings.osm_import_dir matches Some(text) ==> config.osm_import_dir@ == text@,
        settings.osm_import_dir is None ==> config.osm_import_dir@ == "data/osm"@,
        settings.gpx_log_dir matches Some(text) ==> config.gpx_log_dir@ == text@,
        settings.gpx_log_dir is None ==> config.gpx_log_dir@ == "data/log"@,
        settings.gpx_log_retention_days matches Some(text) ==> written_number(text@, true) == Some(
            config.gpx_log_retention_days as int,
        ),
        settings.gpx_log_retention_days is None ==> config.gpx_log_retention_days == 90,
        config.gpx_log_retention_days > 0,
        settings.gpx_log_max_bytes matches Some(text) ==> written_number(text@, false) == Some(
            config.gpx_log_max_bytes as int,
        ),
        settings.gpx_log_max_bytes is None ==> config.gpx_log_max_bytes == 1_073_741_824,
        config.gpx_log_max_bytes > 0,
        settings.max_upload_bytes matches Some(text) ==> written_number(text@, false) == Some(
            config.max_upload_bytes as int,
        ),
        settings.max_upload_bytes is None ==> config.max_upload_bytes == 10_485_760,
        settings.max_analysis_distance_m matches Some(text) ==> exists|s: &str|
            s@ == text@ && #[trigger] call_ensures(
                number,
                (s,),
                Some(config.max_analysis_distance_m),
            ),
        settings.max_analysis_distance_m is None ==> config.max_analysis_distance_m.bits
            == 0x407f_4000_0000_0000,
        settings.osm_import_interval_seconds matches Some(text) ==> written_number(text@, true)
            == Some(config.osm_import_interval_seconds as int),
        settings.osm_import_interval_seconds is None ==> config.osm_import_interval_seconds
            == 1_296_000,
        settings.route_cache_ttl_seconds matches Some(text) ==> written_number(text@, true)
            == Some(config.route_cache_ttl_seconds as int),
        settings.route_cache_ttl_seconds is None ==> config.route_cache_ttl_seconds == 86_400,
        settings.osm_import_on_startup matches Some(text) ==> truth_value(text@) == Some(
            config.osm_import_on_startup,
        ),
        settings.osm_import_on_startup is None ==> config.osm_import_on_startup,
        config.google_maps_api_key is Some <==> (settings.google_maps_api_key matches Some(key)
            && trimmed(key@).len() > 0),
        config.google_maps_api_key matches Some(key) ==> key@ == settings.google_maps_api_key->0@,
{
}

/// Four texts stand for yes and four for no, in whatever case, and no other text for
/// either.
pub proof fn truth_values_are_listed(text: Seq<char>)
    ensures
        truth_value(text) == Some(true) <==> seq!["1"@, "true"@, "yes"@, "on"@].contains(
            lowered(text),
        ),
        truth_value(text) == Some(false) <==> seq!["0"@, "false"@, "no"@, "off"@].contains(
            lowered(text),
        ),
        truth_value(lowered(text)) == truth_value(text),
{
    reveal_strlit("1");
    reveal_strlit("true");
    reveal_strlit("yes");
    reveal_strlit("on");
    reveal_strlit("0");
    reveal_strlit("false");
    reveal_strlit("no");
    reveal_strlit("off");
    let yes = seq!["1"@, "true"@, "yes"@, "on"@];
    let no = seq!["0"@, "false"@, "no"@, "off"@];
    let t = lowered(text);
    assert("1"@[0] != "0"@[0]);
    assert("on"@[0] != "no"@[0]);
    assert("yes"@[0] != "off"@[0]);
    assert(yes[0] == "1"@ && yes[1] == "true"@ && yes[2] == "yes"@ && yes[3] == "on"@);
    assert(no[0] == "0"@ && no[1] == "false"@ && no[2] == "no"@ && no[3] == "off"@);
    assert(lowered(t) =~= t);
}

/// A setting is refused exactly where it is no number within its limits, or no truth
/// value; the time to keep archives and their size must be above zero.
pub proof fn only_bad_settings_are_refused<N>(number: N, settings: Settings) where
    N: Fn(&str) -> Option<Binary64>,

    ensures
        refuses(number, settings, Setting::GpxLogRetentionDays) <==> (
        settings.gpx_log_retention_days matches Some(text) && !(
        written_number(text@, true) matches Some(n) && 0 < n <= i64::MAX)),
        refuses(number, settings, Setting::GpxLogMaxBytes) <==> (
        settings.gpx_log_max_bytes matches Some(text) && !(
        written_number(text@, false) matches Some(n) && 0 < n <= u64::MAX)),
        refuses(number, settings, Setting::MaxUploadBytes) <==> (
        settings.max_upload_bytes matches Some(text) && !(
        written_number(text@, false) matches Some(n) && 0 <= n <= usize::MAX)),
        refuses(number, settings, Setting::MaxAnalysisDistance) <==> (
        settings.max_analysis_distance_m matches Some(text) && exists|s: &str|
            s@ == text@ && #[trigger] call_ensures(number, (s,), None::<Binary64>)),
        refuses(number, settings, Setting::OsmImportIntervalSeconds) <==> (
        settings.osm_import_interval_seconds matches Some(text) && !(
        written_number(text@, true) matches Some(n) && i64::MIN <= n <= i64::MAX)),
        refuses(number, settings, Setting::OsmImportOnStartup) <==> (
        settings.osm_import_on_startup matches Some(text) && truth_value(text@) is None),
        refuses(number, settings, Setting::RouteCacheTtlSeconds) <==> (
        settings.route_cache_ttl_seconds matches Some(text) && !(
        written_number(text@, true) matches Some(n) && i64::MIN <= n <= i64::MAX)),
{
}

/// A complaint begins with the name of the setting and says what it must be.
pub proof fn complaints_name_the_setting()
    ensures
        Setting::GpxLogRetentionDays.key() == "GPX_LOG_RETENTION_DAYS"@,
        Setting::GpxLogMaxBytes.key() == "GPX_LOG_MAX_BYTES"@,
        Setting::MaxUploadBytes.key() == "MAX_UPLOAD_BYTES"@,
        Setting::MaxAnalysisDistance.key() == "MAX_ANALYSIS_DISTANCE_M"@,
        Setting::OsmImportIntervalSeconds.key() == "OSM_IMPORT_INTERVAL_SECONDS"@,
        Setting::OsmImportOnStartup.key() == "OSM_IMPORT_ON_STARTUP"@,
        Setting::RouteCacheTtlSeconds.key() == "ROUTE_CACHE_TTL_SECONDS"@,
        forall|setting: Setting|
            {
                &&& setting == Setting::MaxAnalysisDistance ==> #[trigger] setting.demand()
                    == " must be a number"@
                &&& setting == Setting::OsmImportOnStartup ==> setting.demand()
                    == " must be a boolean"@
                &&& setting != Setting::MaxAnalysisDistance && setting
                    != Setting::OsmImportOnStartup ==> setting.demand()
                    == " must be a positive integer"@
            },
{
}

/// The number of slashes at the beginning of a text.
pub open spec fn leading_slashes(text: Seq<char>) -> int
    decreases text.len(),
{
    if text.len() > 0 && text[0] == '/' {
        leading_slashes(text.drop_first()) + 1
    } else {
        0
    }
}

proof fn lemma_slash_pairs(text: Seq<char>)
    ensures
        0 <= leading_slashes(text) <= text.len(),
        without_slash_pairs(text) == text.skip(leading_slashes(text) / 2 * 2),
    decreases text.len(),
{
    reveal_with_fuel(leading_slashes, 3);
    if text.len() >= 2 && text[0] == '/' && text[1] == '/' {
        let rest = text.skip(2);
        lemma_slash_pairs(rest);
        assert(text.drop_first().drop_first() =~= rest);
        assert(leading_slashes(text) == leading_slashes(rest) + 2);
        assert(rest.skip(leading_slashes(rest) / 2 * 2) =~= text.skip(
            leading_slashes(rest) / 2 * 2 + 2,
        ));
    } else {
        if text.len() > 0 && text[0] == '/' {
            assert(leading_slashes(text.drop_first()) == 0);
        }
        assert(leading_slashes(text) / 2 * 2 == 0);
        assert(text.skip(0) =~= text);
    }
}

/// An address names a file exactly where it begins with `sqlite:` and what follows is not
/// `:memory:`; the path is what follows without the pairs of slashes at its beginning, so
/// that an odd slash, which makes it absolute, stays.
pub proof fn sqlite_addresses_name_files(url: Seq<char>, rest: Seq<char>)
    ensures
        !has_prefix(url, "sqlite:"@) ==> sqlite_path(url) is None,
        sqlite_path("sqlite:"@ + rest) is None <==> rest == ":memory:"@,
        rest != ":memory:"@ ==> sqlite_path("sqlite:"@ + rest) == Some(
            rest.skip(leading_slashes(rest) / 2 * 2),
        ),
{
    reveal_strlit("sqlite:");
    let whole = "sqlite:"@ + rest;
    assert("sqlite:"@.len() == 7);
    assert(whole.skip(7) =~= rest);
    assert(whole.subrange(0, 7) =~= "sqlite:"@);
    lemma_slash_pairs(rest);
}

/// The settings are looked at in one order, and the first that is not accepted is the one
/// that is refused; a setting other than the distance is accepted exactly where it is not
/// refused.
pub proof fn settings_are_looked_at_in_order<N>(number: N, settings: Settings, setting: Setting) where
    N: Fn(&str) -> Option<Binary64>,

    ensures
        seq![
            Setting::GpxLogRetentionDays,
            Setting::GpxLogMaxBytes,
            Setting::MaxUploadBytes,
            Setting::MaxAnalysisDistance,
            Setting::OsmImportIntervalSeconds,
            Setting::OsmImportOnStartup,
            Setting::RouteCacheTtlSeconds,
        ][rank(setting)] == setting,
        0 <= rank(setting) < 7,
        setting != Setting::MaxAnalysisDistance ==> (accepts(number, settings, setting)
            <==> !refuses(number, settings, setting)),
        accepts(number, settings, Setting::MaxAnalysisDistance) <==> (
        settings.max_analysis_distance_m matches Some(text) ==> exists|s: &str, distance: Binary64|
            s@ == text@ && #[trigger] call_ensures(number, (s,), Some(distance))),
{
    match settings.max_analysis_distance_m {
        Some(text) => {
            if exists|s: &str, distance: Binary64|
                s@ == text@ && #[trigger] call_ensures(number, (s,), Some(distance)) {
                let (s, distance) = choose|s: &str, distance: Binary64|
                    s@ == text@ && #[trigger] call_ensures(number, (s,), Some(distance));
                assert(distance_setting(
                    number,
                    settings.max_analysis_distance_m,
                    Some(distance),
                ));
            }
        },
        None => {
            assert(distance_setting(
                number,
                settings.max_analysis_distance_m,
                Some(Binary64 { bits: DEFAULT_MAX_ANALYSIS_DISTANCE_BITS }),
            ));
        },
    }
}

/// A default counts exactly where a setting is missing, whatever the default is.
pub proof fn defaults_count_only_where_missing(
    value: Option<String>,
    on: bool,
    signed: i64,
    unsigned: u64,
    largest: u64,
    text: Seq<char>,
)
    ensures
        value is None ==> {
            &&& bool_setting(value, on) == Some(on)
            &&& signed_setting(value, signed) == Some(signed as int)
            &&& unsigned_setting(value, unsigned, largest) == Some(unsigned as int)
            &&& text_setting(value, text) == text
        },
        value matches Some(given) ==> {
            &&& bool_setting(value, on) == truth_value(given@)
            &&& signed_setting(value, signed) is Some <==> (
            written_number(given@, true) matches Some(n) && i64::MIN <= n <= i64::MAX)
            &&& signed_setting(value, signed) is Some ==> signed_setting(value, signed)
                == written_number(given@, true)
            &&& unsigned_setting(value, unsigned, largest) is Some <==> (
            written_number(given@, false) matches Some(n) && 0 <= n <= largest)
            &&& unsigned_setting(value, unsigned, largest) is Some ==> unsigned_setting(
                value,
                unsigned,
                largest,
            ) == written_number(given@, false)
            &&& text_setting(value, text) == given@
        },
{
}

} // verus!
