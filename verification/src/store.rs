//! What stands in the database, and how it is read.

use vstd::prelude::*;

use crate::binary64::Binary64;
use crate::text::{chars_of, copy_text, precedes_text, text_before, text_of};
use crate::time::{
    from_rfc3339, in_order, rfc3339_instant, rfc3339_text, shift, to_rfc3339, Timestamp,
};
use crate::types::{OsmElementType, OsmWaterPoint};

verus! {

/// The status of an import that is under way.
pub const IMPORT_STATUS_RUNNING: &'static str = "running";

/// The status of an import that has succeeded.
pub const IMPORT_STATUS_SUCCESS: &'static str = "success";

/// The status of an import that has failed.
pub const IMPORT_STATUS_FAILED: &'static str = "failed";

/// Why stored data cannot be used or data cannot be stored.
#[derive(Debug)]
pub enum StoreError {
    /// A time is not written as RFC 3339 demands.
    InvalidTimestamp { value: String },
    /// The kind of a map object is unknown.
    InvalidElementType { value: String },
    /// A number does not fit the database.
    NumberTooLarge,
}

/// An import of map data.
#[derive(Clone, Debug, PartialEq, Eq)]
pub struct OsmImportStatus {
    pub id: i64,
    pub source_url: String,
    pub started_at: Timestamp,
    pub finished_at: Option<Timestamp>,
    pub status: String,
    pub water_point_count: i64,
    pub dataset_version: i64,
    pub error: Option<String>,
}

impl OsmImportStatus {
    /// Whether the calendar reaches to the times of the import.
    pub open spec fn valid(self) -> bool {
        self.started_at.representable() && (self.finished_at matches Some(t) ==> t.representable())
    }
}

/// An import as it is stored.
#[derive(Debug)]
pub struct ImportRow {
    pub id: i64,
    pub source_url: String,
    pub started_at: String,
    pub finished_at: Option<String>,
    pub status: String,
    pub water_point_count: i64,
    pub dataset_version: i64,
    pub error: Option<String>,
}

/// Whether a stored time is read as `time`.
pub open spec fn reads_as(text: Seq<char>, time: Timestamp) -> bool {
    rfc3339_instant(text) == Some((time.seconds, time.nanos))
}

/// Whether `status` is what a row says.
pub open spec fn import_reads_as(row: ImportRow, status: OsmImportStatus) -> bool {
    &&& status.id == row.id
    &&& status.source_url == row.source_url
    &&& reads_as(row.started_at@, status.started_at)
    &&& match row.finished_at {
        Some(text) => status.finished_at matches Some(time) && reads_as(text@, time),
        None => status.finished_at is None,
    }
    &&& status.status == row.status
    &&& status.water_point_count == row.water_point_count
    &&& status.dataset_version == row.dataset_version
    &&& status.error == row.error
}

/// Reads a time that is written as RFC 3339 demands.
pub fn parse_rfc3339_utc(value: &str) -> (time: Result<Timestamp, StoreError>)
    ensures
        match time {
            Ok(t) => reads_as(value@, t) && t.representable(),
            Err(error) => {
                &&& rfc3339_instant(value@) is None
                &&& error matches StoreError::InvalidTimestamp { value: v } && v@ == value@
            },
        },
{
    match from_rfc3339(value) {
        Some(time) => Ok(time),
        None => Err(StoreError::InvalidTimestamp { value: value.to_owned() }),
    }
}

/// Reads an import; the first time that cannot be read is the error.
pub fn import_status_from_row(row: ImportRow) -> (status: Result<OsmImportStatus, StoreError>)
    ensures
        match status {
            Ok(import) => import_reads_as(row, import) && import.valid(),
            Err(error) => error matches StoreError::InvalidTimestamp { value } && if rfc3339_instant(
                row.started_at@,
            ) is None {
                value@ == row.started_at@
            } else {
                &&& row.finished_at matches Some(text)
                &&& rfc3339_instant(text@) is None
                &&& value@ == text@
            },
        },
{
    let started_at = match parse_rfc3339_utc(row.started_at.as_str()) {
        Ok(time) => time,
        Err(error) => {
            return Err(error);
        },
    };
    let finished_at: Option<Timestamp> = match &row.finished_at {
        Some(text) => match parse_rfc3339_utc(text.as_str()) {
            Ok(time) => Some(time),
            Err(error) => {
                return Err(error);
            },
        },
        None => None,
    };
    Ok(
        OsmImportStatus {
            id: row.id,
            source_url: row.source_url,
            started_at,
            finished_at,
            status: row.status,
            water_point_count: row.water_point_count,
            dataset_version: row.dataset_version,
            error: row.error,
        },
    )
}

/// Writes a time as RFC 3339 demands.
pub fn stored_time(time: Timestamp) -> (text: String)
    requires
        time.representable(),
    ensures
        text@ == rfc3339_text(time.seconds, time.nanos),
        in_order(text@, time),
        time.in_common_years() ==> reads_as(text@, time),
{
    match to_rfc3339(time) {
        Some(text) => text,
        None => String::new(),
    }
}

/// What is stored when an import begins.
#[derive(Debug)]
pub struct ImportStart {
    pub source_url: String,
    pub started_at: String,
    pub status: &'static str,
    pub dataset_version: i64,
}

/// What is stored when an import begins.
pub fn import_start(source_url: &str, now: Timestamp, dataset_version: i64) -> (start: ImportStart)
    requires
        now.representable(),
    ensures
        start.source_url@ == source_url@,
        start.started_at@ == rfc3339_text(now.seconds, now.nanos),
        now.in_common_years() ==> reads_as(start.started_at@, now),
        start.status@ == IMPORT_STATUS_RUNNING@,
        start.dataset_version == dataset_version,
{
    ImportStart {
        source_url: source_url.to_owned(),
        started_at: stored_time(now),
        status: IMPORT_STATUS_RUNNING,
        dataset_version,
    }
}

/// What is stored when an import ends.
#[derive(Debug)]
pub struct ImportEnd {
    pub finished_at: String,
    pub status: &'static str,
    /// The number of water points; a failed import leaves it as it is.
    pub water_point_count: Option<i64>,
    pub error: Option<String>,
}

impl ImportEnd {
    /// Whether `after` is `before` with the end of the import put in.
    pub open spec fn ends(self, before: ImportRow, after: ImportRow) -> bool {
        &&& after.id == before.id
        &&& after.source_url == before.source_url
        &&& after.started_at == before.started_at
        &&& after.finished_at matches Some(text) && text@ == self.finished_at@
        &&& after.status@ == self.status@
        &&& after.water_point_count == match self.water_point_count {
            Some(count) => count,
            None => before.water_point_count,
        }
        &&& after.dataset_version == before.dataset_version
        &&& after.error == self.error
    }
}

/// What is stored when an import has succeeded.
pub fn import_success(finished_at: Timestamp, water_point_count: usize) -> (end: Result<
    ImportEnd,
    StoreError,
>)
    requires
        finished_at.representable(),
    ensures
        match end {
            Ok(e) => {
                &&& water_point_count <= i64::MAX
                &&& e.finished_at@ == rfc3339_text(finished_at.seconds, finished_at.nanos)
                &&& finished_at.in_common_years() ==> reads_as(e.finished_at@, finished_at)
                &&& e.status@ == IMPORT_STATUS_SUCCESS@
                &&& e.water_point_count == Some(water_point_count as i64)
                &&& e.error is None
            },
            Err(error) => water_point_count > i64::MAX && error is NumberTooLarge,
        },
{
    if water_point_count as u64 > i64::MAX as u64 {
        return Err(StoreError::NumberTooLarge);
    }
    Ok(
        ImportEnd {
            finished_at: stored_time(finished_at),
            status: IMPORT_STATUS_SUCCESS,
            water_point_count: Some(water_point_count as i64),
            error: None,
        },
    )
}

/// What is stored when an import has failed.
pub fn import_failure(finished_at: Timestamp, error: &str) -> (end: ImportEnd)
    requires
        finished_at.representable(),
    ensures
        end.finished_at@ == rfc3339_text(finished_at.seconds, finished_at.nanos),
        finished_at.in_common_years() ==> reads_as(end.finished_at@, finished_at),
        end.status@ == IMPORT_STATUS_FAILED@,
        end.water_point_count is None,
        end.error matches Some(text) && text@ == error@,
{
    ImportEnd {
        finished_at: stored_time(finished_at),
        status: IMPORT_STATUS_FAILED,
        water_point_count: None,
        error: Some(error.to_owned()),
    }
}

/// An import that has succeeded is read back with the times, the count and the
/// version with which it was stored.
pub proof fn successful_imports_read_back(
    started_at: Timestamp,
    finished_at: Timestamp,
    count: i64,
    end: ImportEnd,
    before: ImportRow,
    after: ImportRow,
    status: OsmImportStatus,
)
    requires
        reads_as(before.started_at@, started_at),
        reads_as(end.finished_at@, finished_at),
        end.status@ == IMPORT_STATUS_SUCCESS@,
        end.water_point_count == Some(count),
        end.error is None,
        end.ends(before, after),
        import_reads_as(after, status),
    ensures
        status.id == before.id,
        status.source_url == before.source_url,
        status.started_at == started_at,
        status.finished_at == Some(finished_at),
        status.status@ == IMPORT_STATUS_SUCCESS@,
        status.water_point_count == count,
        status.dataset_version == before.dataset_version,
        status.error is None,
{
}

/// A water point as it is stored.
#[derive(Debug)]
pub struct WaterPointRow {
    pub osm_type: String,
    pub osm_id: i64,
    pub lat: Binary64,
    pub lon: Binary64,
    pub name: Option<String>,
}

/// Whether `row` is what is stored for a water point.
pub open spec fn stores(row: WaterPointRow, point: OsmWaterPoint) -> bool {
    &&& row.osm_type@ == point.osm_type.name()
    &&& row.osm_id == point.osm_id
    &&& row.lat == point.lat && row.lon == point.lon
    &&& row.name == point.name
}

/// Whether `point` is what a row says.
pub open spec fn point_reads_as(row: WaterPointRow, point: OsmWaterPoint) -> bool {
    &&& OsmElementType::named(row.osm_type@) == Some(point.osm_type)
    &&& point.osm_id == row.osm_id
    &&& point.lat == row.lat && point.lon == row.lon
    &&& point.name == row.name
}

/// What is stored for a water point.
pub fn water_point_row(point: &OsmWaterPoint) -> (row: WaterPointRow)
    ensures
        stores(row, *point),
{
    WaterPointRow {
        osm_type: point.osm_type.as_str().to_owned(),
        osm_id: point.osm_id,
        lat: point.lat,
        lon: point.lon,
        name: copy_text(&point.name),
    }
}

/// Reads water points; the first kind of object that is unknown is the error.
pub fn water_points_from_rows(rows: &Vec<WaterPointRow>) -> (points: Result<
    Vec<OsmWaterPoint>,
    StoreError,
>)
    ensures
        match points {
            Ok(p) => {
                &&& p@.len() == rows@.len()
                &&& forall|i: int|
                    0 <= i < rows@.len() ==> point_reads_as(rows@[i], #[trigger] p@[i])
            },
            Err(error) => exists|i: int|
                {
                    &&& 0 <= i < rows@.len()
                    &&& OsmElementType::named((#[trigger] rows@[i]).osm_type@) is None
                    &&& error matches StoreError::InvalidElementType { value } && value@
                        == rows@[i].osm_type@
                    &&& forall|j: int|
                        0 <= j < i ==> OsmElementType::named(
                            (#[trigger] rows@[j]).osm_type@,
                        ) is Some
                },
        },
{
    let mut points: Vec<OsmWaterPoint> = Vec::new();
    let mut i: usize = 0;
    while i < rows.len()
        invariant
            i <= rows@.len(),
            points@.len() == i,
            forall|j: int| 0 <= j < i ==> point_reads_as(rows@[j], #[trigger] points@[j]),
            forall|j: int|
                0 <= j < i ==> OsmElementType::named((#[trigger] rows@[j]).osm_type@) is Some,
        decreases rows@.len() - i,
    {
        let row = &rows[i];
        match OsmElementType::from_db_value(row.osm_type.as_str()) {
            Some(osm_type) => {
                points.push(
                    OsmWaterPoint {
                        osm_type,
                        osm_id: row.osm_id,
                        lat: row.lat,
                        lon: row.lon,
                        name: copy_text(&row.name),
                    },
                );
            },
            None => {
                assert(OsmElementType::named(rows@[i as int].osm_type@) is None);
                return Err(StoreError::InvalidElementType { value: row.osm_type.clone() });
            },
        }
        i = i + 1;
    }
    Ok(points)
}

/// A water point that is stored is read back as it was.
pub proof fn water_points_read_back(
    point: OsmWaterPoint,
    row: WaterPointRow,
    read: OsmWaterPoint,
)
    requires
        stores(row, point),
        point_reads_as(row, read),
    ensures
        read == point,
{
    crate::types::element_type_reads_back(point.osm_type);
}

/// When a cached analysis was made and when it ceases to hold, as stored.
#[derive(Debug)]
pub struct CacheTimes {
    pub created_at: String,
    pub expires_at: String,
}

/// Whether `times` are stored with an analysis that is made at `now` and holds for
/// `ttl_seconds`, up to `end`.
pub open spec fn holds_from(
    times: CacheTimes,
    now: Timestamp,
    ttl_seconds: i64,
    end: Timestamp,
) -> bool {
    &&& end.seconds == now.shifted_seconds(ttl_seconds as int)
    &&& end.nanos == now.shifted_nanos(ttl_seconds as int)
    &&& times.created_at@ == rfc3339_text(now.seconds, now.nanos)
    &&& times.expires_at@ == rfc3339_text(end.seconds, end.nanos)
    &&& in_order(times.expires_at@, end)
    &&& end.in_common_years() ==> reads_as(times.expires_at@, end)
}

/// Whether `times` are stored with an analysis that is made at `now` and holds for
/// `ttl_seconds`.
pub open spec fn lasts_for(times: CacheTimes, now: Timestamp, ttl_seconds: i64) -> bool {
    exists|end: Timestamp| #[trigger] holds_from(times, now, ttl_seconds, end)
}

/// The times that are stored with an analysis that holds for `ttl_seconds`; nothing
/// where the calendar does not reach to its end.
pub fn route_cache_times(now: Timestamp, ttl_seconds: i64) -> (times: Option<CacheTimes>)
    ensures
        match times {
            Some(t) => {
                &&& now.can_shift(ttl_seconds as int)
                &&& lasts_for(t, now, ttl_seconds)
            },
            None => !now.can_shift(ttl_seconds as int),
        },
{
    match shift(now, ttl_seconds) {
        Some(end) => {
            assert(end.representable()) by {
                lemma_shifted_is_representable(now, ttl_seconds as int, end);
            }
            let times = CacheTimes { created_at: stored_time(now), expires_at: stored_time(end) };
            assert(holds_from(times, now, ttl_seconds, end));
            Some(times)
        },
        None => None,
    }
}

proof fn lemma_shifted_is_representable(time: Timestamp, span: int, end: Timestamp)
    requires
        time.can_shift(span),
        end.seconds == time.shifted_seconds(span),
        end.nanos == time.shifted_nanos(span),
    ensures
        end.representable(),
{
}

/// An analysis as it is stored under the hash of its submission.
#[derive(Debug)]
pub struct CachedRoute {
    pub analysis_json: String,
    pub expires_at: String,
}

/// Whether what is stored to hold up to `expires_at` still holds: its text stands behind
/// that of the present time.
pub open spec fn still_holds(expires_at: Seq<char>, now: Timestamp) -> bool {
    text_before(rfc3339_text(now.seconds, now.nanos), expires_at)
}

/// Whether what is stored to hold up to `expires_at` still holds.
pub fn cache_holds(expires_at: &str, now: Timestamp) -> (b: bool)
    requires
        now.representable(),
    ensures
        b == still_holds(expires_at@, now),
{
    precedes_text(stored_time(now).as_str(), expires_at)
}

/// The analysis that is found for a hash.
pub open spec fn found_analysis(
    routes: Map<Seq<char>, CachedRoute>,
    gpx_hash: Seq<char>,
    now: Timestamp,
) -> Option<Seq<char>> {
    if routes.dom().contains(gpx_hash) && still_holds(routes[gpx_hash].expires_at@, now) {
        Some(routes[gpx_hash].analysis_json@)
    } else {
        None
    }
}

/// The analysis that a stored row gives.
pub fn cached_analysis(row: Option<CachedRoute>, now: Timestamp) -> (analysis: Option<String>)
    requires
        now.representable(),
    ensures
        match analysis {
            Some(json) => row matches Some(r) && still_holds(r.expires_at@, now) && json
                == r.analysis_json,
            None => row matches Some(r) ==> !still_holds(r.expires_at@, now),
        },
{
    match row {
        Some(route) => if cache_holds(route.expires_at.as_str(), now) {
            Some(route.analysis_json)
        } else {
            None
        },
        None => None,
    }
}

/// An analysis that is stored is found up to the end of its time and not from then
/// on, where the two years are written alike, as all from 0 to 9999 are. Where they
/// have different signs, it is found if the sign of the present year stands before that
/// of its end. It takes the place of what was stored before, and what is stored for
/// other submissions stays as it was.
pub proof fn analyses_are_found_until_they_expire(
    routes: Map<Seq<char>, CachedRoute>,
    gpx_hash: Seq<char>,
    route: CachedRoute,
    times: CacheTimes,
    stored_at: Timestamp,
    ttl_seconds: i64,
    end: Timestamp,
    asked_at: Timestamp,
)
    requires
        holds_from(times, stored_at, ttl_seconds, end),
        asked_at.representable(),
        route.expires_at@ == times.expires_at@,
    ensures
        asked_at.written_alike(end) ==> found_analysis(
            routes.insert(gpx_hash, route),
            gpx_hash,
            asked_at,
        ) == if asked_at.precedes(end) {
            Some(route.analysis_json@)
        } else {
            None
        },
        asked_at.year_sign() != end.year_sign() ==> found_analysis(
            routes.insert(gpx_hash, route),
            gpx_hash,
            asked_at,
        ) == if asked_at.year_sign() < end.year_sign() {
            Some(route.analysis_json@)
        } else {
            None
        },
        forall|other: Seq<char>|
            other != gpx_hash ==> #[trigger] found_analysis(
                routes.insert(gpx_hash, route),
                other,
                asked_at,
            ) == found_analysis(routes, other, asked_at),
{
    assert(text_before(rfc3339_text(asked_at.seconds, asked_at.nanos), times.expires_at@)
        == still_holds(route.expires_at@, asked_at));
}

/// Whether a count says that there is anything.
pub fn any_rows(count: i64) -> (b: bool)
    ensures
        b == (count > 0),
{
    count > 0
}

/// Whether `char::is_alphanumeric` holds of a character.
pub uninterp spec fn alphanumeric(c: char) -> bool;

/// `char::is_alphanumeric`: a property of the character alone. Of the ASCII
/// characters, the letters and the digits have it and no others; which characters
/// beyond ASCII have it is left unsaid.
pub assume_specification[ char::is_alphanumeric ](c: char) -> (b: bool)
    ensures
        b == alphanumeric(c),
        (c as u32) < 128 ==> b == (('a' <= c <= 'z') || ('A' <= c <= 'Z') || ('0' <= c <= '9')),
;

/// How many characters at the beginning of a text belong to its first word.
pub open spec fn word_len(text: Seq<char>) -> nat
    decreases text.len(),
{
    if text.len() == 0 || !alphanumeric(text[0]) {
        0
    } else {
        1 + word_len(text.drop_first())
    }
}

/// The words of a text: the longest runs of letters and digits.
pub open spec fn words(text: Seq<char>) -> Seq<Seq<char>>
    decreases text.len(),
    via words_shrink
{
    if text.len() == 0 {
        Seq::empty()
    } else if word_len(text) == 0 {
        words(text.drop_first())
    } else {
        seq![text.take(word_len(text) as int)] + words(text.skip(word_len(text) as int))
    }
}

#[via_fn]
proof fn words_shrink(text: Seq<char>) {
    lemma_word_len(text);
}

proof fn lemma_word_len(text: Seq<char>)
    ensures
        word_len(text) <= text.len(),
        forall|i: int| 0 <= i < word_len(text) ==> alphanumeric(#[trigger] text[i]),
        word_len(text) < text.len() ==> !alphanumeric(text[word_len(text) as int]),
    decreases text.len(),
{
    if text.len() > 0 && alphanumeric(text[0]) {
        lemma_word_len(text.drop_first());
        assert forall|i: int| 0 <= i < word_len(text) implies alphanumeric(#[trigger] text[i]) by {
            if i > 0 {
                assert(alphanumeric(text.drop_first()[i - 1]));
            }
        }
    }
}

/// A word as a prefix to search for.
pub open spec fn prefix_term(word: Seq<char>) -> Seq<char> {
    "\""@ + word + "\"*"@
}

/// Prefixes to search for, behind what is already there.
pub open spec fn with_terms(query: Seq<char>, words: Seq<Seq<char>>) -> Seq<char>
    decreases words.len(),
{
    if words.len() == 0 {
        query
    } else {
        let separated = if query.len() == 0 {
            query
        } else {
            query + " "@
        };
        with_terms(separated + prefix_term(words[0]), words.drop_first())
    }
}

/// The full-text query for the words of a text, each as a prefix.
pub open spec fn prefix_query(text: Seq<char>) -> Seq<char> {
    with_terms(Seq::empty(), words(text))
}

/// The full-text query for the words of a text, each as a prefix.
pub fn fts_prefix_query(query: &str) -> (terms: String)
    ensures
        terms@ == prefix_query(query@),
{
    let chars = chars_of(query);
    let mut terms = String::new();
    let mut empty = true;
    let mut i: usize = 0;
    assert(chars@.skip(0) =~= query@);
    while i < chars.len()
        invariant
            i <= chars@.len(),
            empty == (terms@.len() == 0),
            prefix_query(query@) == with_terms(terms@, words(chars@.skip(i as int))),
        decreases chars@.len() - i,
    {
        let ghost rest = chars@.skip(i as int);
        let start = i;
        while i < chars.len() && chars[i].is_alphanumeric()
            invariant
                start <= i <= chars@.len(),
                rest == chars@.skip(start as int),
                word_len(rest) == i - start + word_len(chars@.skip(i as int)),
            decreases chars@.len() - i,
        {
            assert(chars@.skip(i as int)[0] == chars@[i as int]);
            assert(chars@.skip(i as int).drop_first() =~= chars@.skip(i + 1));
            i = i + 1;
        }
        proof {
            lemma_word_len(rest);
            if i < chars@.len() {
                assert(chars@.skip(i as int)[0] == chars@[i as int]);
            }
            assert(word_len(rest) == i - start);
        }
        if i == start {
            assert(rest.drop_first() =~= chars@.skip(i + 1));
            i = i + 1;
        } else {
            let ghost word = rest.take(word_len(rest) as int);
            let ghost before = terms@;
            let ghost tail = words(chars@.skip(i as int));
            assert(rest.skip(word_len(rest) as int) =~= chars@.skip(i as int));
            proof {
                let found = words(rest);
                assert(found == seq![word] + tail);
                assert(found[0] == word);
                assert(found.drop_first() =~= tail);
            }
            if !empty {
                terms.append(" ");
            }
            terms.append("\"");
            let text = text_of(&chars, start, i);
            assert(text@ =~= word);
            terms.append(text.as_str());
            terms.append("\"*");
            empty = false;
            proof {
                reveal_strlit("\"");
                assert("\""@.len() == 1);
                let separated = if before.len() == 0 {
                    before
                } else {
                    before + " "@
                };
                assert(terms@ =~= separated + prefix_term(word));
            }
        }
    }
    assert(chars@.skip(chars@.len() as int) =~= Seq::<char>::empty());
    terms
}

/// What is asked of the database for a search: the full-text query and how many
/// results at most; nothing where the text has no word.
pub fn place_search(query: &str, limit: usize) -> (search: Result<Option<(String, i64)>, StoreError>)
    ensures
        match search {
            Ok(None) => prefix_query(query@).len() == 0,
            Ok(Some((terms, most))) => {
                &&& prefix_query(query@).len() > 0
                &&& terms@ == prefix_query(query@)
                &&& most == limit
            },
            Err(error) => {
                &&& prefix_query(query@).len() > 0
                &&& limit > i64::MAX
                &&& error is NumberTooLarge
            },
        },
{
    let terms = fts_prefix_query(query);
    if terms.as_str().is_empty() {
        return Ok(None);
    }
    if limit as u64 > i64::MAX as u64 {
        return Err(StoreError::NumberTooLarge);
    }
    Ok(Some((terms, limit as i64)))
}

/// Every word that is searched for consists of letters and digits.
pub proof fn searched_words_are_plain(text: Seq<char>, w: int, i: int)
    requires
        0 <= w < words(text).len(),
        0 <= i < words(text)[w].len(),
    ensures
        alphanumeric(words(text)[w][i]),
    decreases text.len(),
{
    lemma_word_len(text);
    if text.len() > 0 {
        if word_len(text) == 0 {
            searched_words_are_plain(text.drop_first(), w, i);
        } else if w > 0 {
            searched_words_are_plain(text.skip(word_len(text) as int), w - 1, i);
        }
    }
}

proof fn lemma_terms_grow(query: Seq<char>, words: Seq<Seq<char>>)
    ensures
        with_terms(query, words).len() >= query.len(),
        words.len() > 0 ==> with_terms(query, words).len() > query.len(),
    decreases words.len(),
{
    if words.len() > 0 {
        reveal_strlit("\"");
        assert("\""@.len() == 1);
        let separated = if query.len() == 0 {
            query
        } else {
            query + " "@
        };
        lemma_terms_grow(separated + prefix_term(words[0]), words.drop_first());
    }
}

/// A search is empty if and only if its text has no word.
pub proof fn searches_without_words_are_empty(text: Seq<char>)
    ensures
        (prefix_query(text).len() == 0) == (words(text).len() == 0),
{
    lemma_terms_grow(Seq::empty(), words(text));
}

/// A stored water point has the kind of the point by its name, and its identifier, its
/// place and its name as they are.
pub proof fn rows_hold_their_water_point(row: WaterPointRow, point: OsmWaterPoint)
    requires
        stores(row, point) || point_reads_as(row, point),
    ensures
        point.osm_type == OsmElementType::Node <==> row.osm_type@ == "node"@,
        point.osm_type == OsmElementType::Way <==> row.osm_type@ == "way"@,
        row.osm_id == point.osm_id,
        row.lat == point.lat,
        row.lon == point.lon,
        row.name == point.name,
{
    crate::types::element_type_reads_back(OsmElementType::Node);
    crate::types::element_type_reads_back(OsmElementType::Way);
}

/// A stored import is read field by field, its times as the points that they write.
pub proof fn imports_are_read_field_by_field(row: ImportRow, status: OsmImportStatus)
    requires
        import_reads_as(row, status),
    ensures
        status.id == row.id,
        status.source_url@ == row.source_url@,
        rfc3339_instant(row.started_at@) == Some(
            (status.started_at.seconds, status.started_at.nanos),
        ),
        status.finished_at is Some <==> row.finished_at is Some,
        row.finished_at matches Some(text) ==> rfc3339_instant(text@) == Some(
            (status.finished_at->0.seconds, status.finished_at->0.nanos),
        ),
        status.status@ == row.status@,
        status.water_point_count == row.water_point_count,
        status.dataset_version == row.dataset_version,
        status.error == row.error,
{
}

/// The end of an import changes its end, its status and its error, and its count only
/// where there is one; everything else stays as it was stored at its beginning.
pub proof fn ends_keep_the_beginning(end: ImportEnd, before: ImportRow, after: ImportRow)
    requires
        end.ends(before, after),
    ensures
        after.id == before.id,
        after.source_url == before.source_url,
        after.started_at == before.started_at,
        after.dataset_version == before.dataset_version,
        after.finished_at is Some && after.finished_at->0@ == end.finished_at@,
        after.status@ == end.status@,
        after.error == end.error,
        end.water_point_count is None ==> after.water_point_count == before.water_point_count,
        end.water_point_count is Some ==> after.water_point_count == end.water_point_count->0,
        IMPORT_STATUS_RUNNING@ == "running"@,
        IMPORT_STATUS_SUCCESS@ == "success"@,
        IMPORT_STATUS_FAILED@ == "failed"@,
{
}

/// Outside of leap seconds an analysis that is stored at some second is found just as
/// many seconds as it holds, where the years are written alike.
pub proof fn analyses_hold_for_their_seconds(
    routes: Map<Seq<char>, CachedRoute>,
    gpx_hash: Seq<char>,
    route: CachedRoute,
    times: CacheTimes,
    stored_at: Timestamp,
    ttl_seconds: i64,
    asked_at: Timestamp,
)
    requires
        lasts_for(times, stored_at, ttl_seconds),
        stored_at.nanos < 1_000_000_000,
        asked_at.representable(),
        route.expires_at@ == times.expires_at@,
        0 <= asked_at.seconds < 253_402_300_800,
        0 <= stored_at.seconds + ttl_seconds < 253_402_300_800,
    ensures
        times.created_at@ == rfc3339_text(stored_at.seconds, stored_at.nanos),
        found_analysis(routes.insert(gpx_hash, route), gpx_hash, asked_at) is Some <==> {
            ||| asked_at.seconds < stored_at.seconds + ttl_seconds
            ||| asked_at.seconds == stored_at.seconds + ttl_seconds && asked_at.nanos
                < stored_at.nanos
        },
        found_analysis(routes.insert(gpx_hash, route), gpx_hash, asked_at) matches Some(json)
            ==> json == route.analysis_json@,
{
    let end = choose|end: Timestamp| #[trigger] holds_from(times, stored_at, ttl_seconds, end);
    analyses_are_found_until_they_expire(
        routes,
        gpx_hash,
        route,
        times,
        stored_at,
        ttl_seconds,
        end,
        asked_at,
    );
}

/// Nothing is found where nothing is stored.
pub proof fn nothing_is_found_unstored(
    routes: Map<Seq<char>, CachedRoute>,
    gpx_hash: Seq<char>,
    now: Timestamp,
)
    requires
        !routes.dom().contains(gpx_hash),
    ensures
        found_analysis(routes, gpx_hash, now) is None,
{
}

proof fn lemma_word_len_is(word: Seq<char>, rest: Seq<char>)
    requires
        forall|i: int| 0 <= i < word.len() ==> alphanumeric(#[trigger] word[i]),
        rest.len() > 0 ==> !alphanumeric(rest[0]),
    ensures
        word_len(word + rest) == word.len(),
    decreases word.len(),
{
    if word.len() == 0 {
        assert(word + rest =~= rest);
    } else {
        assert((word + rest).drop_first() =~= word.drop_first() + rest);
        assert(alphanumeric(word[0]));
        assert forall|i: int| 0 <= i < word.drop_first().len() implies alphanumeric(
            #[trigger] word.drop_first()[i],
        ) by {
            assert(word.drop_first()[i] == word[i + 1]);
        }
        lemma_word_len_is(word.drop_first(), rest);
    }
}

/// Letters and digits in a row are one word, and any other character parts the words
/// before it from those behind it without being part of one.
pub proof fn words_are_parted_by_other_characters(
    before: Seq<char>,
    other: char,
    after: Seq<char>,
    word: Seq<char>,
)
    requires
        !alphanumeric(other),
        word.len() > 0,
        forall|i: int| 0 <= i < word.len() ==> alphanumeric(#[trigger] word[i]),
    ensures
        words(Seq::empty()) == Seq::<Seq<char>>::empty(),
        words(word) == seq![word],
        words(before + seq![other] + after) == words(before) + words(after),
    decreases before.len(),
{
    lemma_word_len_is(word, Seq::empty());
    assert(word + Seq::empty() =~= word);
    assert(word.take(word.len() as int) =~= word);
    assert(word.skip(word.len() as int) =~= Seq::empty());
    assert(words(Seq::<char>::empty()) =~= Seq::empty());
    assert(words(word) =~= seq![word]);
    let whole = before + seq![other] + after;
    if before.len() == 0 {
        assert(whole[0] == other);
        assert(whole.drop_first() =~= after);
        assert(words(before) + words(after) =~= words(after));
    } else {
        let n = word_len(before);
        lemma_word_len(before);
        if n == 0 {
            assert(whole[0] == before[0]);
            assert(whole.drop_first() =~= before.drop_first() + seq![other] + after);
            words_are_parted_by_other_characters(before.drop_first(), other, after, word);
        } else {
            let first = before.take(n as int);
            let rest = before.skip(n as int) + seq![other] + after;
            assert forall|i: int| 0 <= i < first.len() implies alphanumeric(
                #[trigger] first[i],
            ) by {
                assert(first[i] == before[i]);
            }
            if n < before.len() {
                assert(rest[0] == before[n as int]);
            } else {
                assert(rest[0] == other);
            }
            assert(whole =~= first + rest);
            lemma_word_len_is(first, rest);
            assert(whole.take(n as int) =~= first);
            assert(whole.skip(n as int) =~= rest);
            words_are_parted_by_other_characters(before.skip(n as int), other, after, word);
            assert(words(whole) =~= words(before) + words(after));
        }
    }
}

/// Each word is searched for as a prefix, in quotes and with a star behind it, and a
/// space stands between two of them.
pub proof fn words_are_searched_as_prefixes(
    query: Seq<char>,
    words: Seq<Seq<char>>,
    word: Seq<char>,
)
    ensures
        with_terms(query, Seq::empty()) == query,
        with_terms(Seq::empty(), seq![word]) == seq!['"'] + word + seq!['"', '*'],
        with_terms(query, words.push(word)) == if with_terms(query, words).len() == 0 {
            seq!['"'] + word + seq!['"', '*']
        } else {
            with_terms(query, words) + seq![' ', '"'] + word + seq!['"', '*']
        },
    decreases words.len(),
{
    reveal_strlit("\"");
    reveal_strlit("\"*");
    reveal_strlit(" ");
    assert("\""@ =~= seq!['"']);
    assert("\"*"@ =~= seq!['"', '*']);
    assert(" "@ =~= seq![' ']);
    reveal_with_fuel(with_terms, 2);
    assert(seq![word].drop_first() =~= Seq::empty());
    let empty = Seq::<char>::empty();
    assert(empty + prefix_term(word) =~= seq!['"'] + word + seq!['"', '*']);
    if words.len() == 0 {
        assert(words.push(word) =~= seq![word]);
        assert(query.len() == 0 ==> query =~= empty);
        assert(query + " "@ + prefix_term(word) =~= query + seq![' ', '"'] + word + seq!['"', '*']);
    } else {
        let separated = if query.len() == 0 {
            query
        } else {
            query + " "@
        };
        assert(words.push(word)[0] == words[0]);
        assert(words.push(word).drop_first() =~= words.drop_first().push(word));
        words_are_searched_as_prefixes(
            separated + prefix_term(words[0]),
            words.drop_first(),
            word,
        );
    }
}

/// The query for a text grows by one prefix with every word that is added to the text, and
/// it stays as it is where anything else is added.
pub proof fn queries_grow_word_by_word(text: Seq<char>, other: char, word: Seq<char>)
    requires
        !alphanumeric(other),
        word.len() > 0,
        forall|i: int| 0 <= i < word.len() ==> alphanumeric(#[trigger] word[i]),
    ensures
        prefix_query(Seq::empty()).len() == 0,
        prefix_query(word) == seq!['"'] + word + seq!['"', '*'],
        prefix_query(text.push(other)) == prefix_query(text),
        prefix_query(text + seq![other] + word) == if prefix_query(text).len() == 0 {
            seq!['"'] + word + seq!['"', '*']
        } else {
            prefix_query(text) + seq![' ', '"'] + word + seq!['"', '*']
        },
{
    words_are_parted_by_other_characters(text, other, word, word);
    words_are_parted_by_other_characters(text, other, Seq::empty(), word);
    words_are_searched_as_prefixes(Seq::empty(), words(text), word);
    assert(words(text) + seq![word] =~= words(text).push(word));
    assert(text + seq![other] + Seq::empty() =~= text.push(other));
    assert(words(text) + Seq::empty() =~= words(text));
}

} // verus!
