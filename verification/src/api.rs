//! What requests are answered.

use vstd::prelude::*;

use vstd::utf8::encode_utf8;

use crate::binary64::Binary64;
use crate::street_view::{Coordinates, LookupResult, LookupStatus};
use crate::text::{ascii_lower, copy_text, ends_with, has_suffix, lower, lowered, same_text};

verus! {

/// How many locations a Street View request may ask for.
pub const MAX_STREET_VIEW_LOCATIONS: usize = 2_000;

/// How many bytes the identifier of a location may have.
pub const MAX_LOCATION_ID_BYTES: usize = 128;

/// A request that is refused: the HTTP status and the code in the body.
#[derive(Clone, Copy, Debug)]
pub struct ApiError {
    pub status: u16,
    pub code: &'static str,
}

impl ApiError {
    /// Whether the error has a status and a code.
    pub open spec fn says(self, status: u16, code: Seq<char>) -> bool {
        self.status == status && self.code@ == code
    }

    /// The request itself is at fault.
    pub fn bad_request() -> (error: Self)
        ensures
            error.says(400, "bad_request"@),
    {
        ApiError { status: 400, code: "bad_request" }
    }

    /// The request is too large.
    pub fn payload_too_large() -> (error: Self)
        ensures
            error.says(413, "payload_too_large"@),
    {
        ApiError { status: 413, code: "payload_too_large" }
    }

    /// Something that the request needs is out of order.
    pub fn service_unavailable(code: &'static str) -> (error: Self)
        ensures
            error.says(503, code@),
    {
        ApiError { status: 503, code }
    }

    /// The backend is at fault.
    pub fn internal() -> (error: Self)
        ensures
            error.says(500, "internal_server_error"@),
    {
        ApiError { status: 500, code: "internal_server_error" }
    }
}

/// The answer to the question whether the backend is up.
pub fn health() -> (answer: &'static str)
    ensures
        answer@ == "ok"@,
{
    "ok"
}

/// A location for which a panorama is asked.
#[derive(Debug)]
pub struct StreetViewLocationRequest {
    pub id: String,
    pub lat: Binary64,
    pub lon: Binary64,
}

impl StreetViewLocationRequest {
    /// The place of the location.
    pub open spec fn place(self) -> Coordinates {
        Coordinates { lat: self.lat, lon: self.lon }
    }
}

/// A location with the link to its panorama, if there is one.
#[derive(Debug)]
pub struct StreetViewLocationResponse {
    pub id: String,
    pub street_view_url: Option<String>,
}

/// Why a Street View request is refused.
#[derive(Clone, Copy, Debug, PartialEq, Eq, Structural)]
pub enum StreetViewRefusal {
    /// The service is out of order.
    Unavailable,
    /// There are too many locations.
    TooManyLocations,
    /// An identifier is empty, too long or not unique.
    BadIdentifier { position: usize },
    /// The coordinates of a location are not valid.
    BadCoordinates { position: usize },
}

/// Whether the identifier at a position has from 1 to 128 bytes and differs from
/// those before it.
pub open spec fn good_identifier(locations: Seq<StreetViewLocationRequest>, i: int) -> bool {
    let id = locations[i].id@;
    &&& 1 <= encode_utf8(id).len() <= MAX_LOCATION_ID_BYTES
    &&& forall|j: int| 0 <= j < i ==> (#[trigger] locations[j]).id@ != id
}

/// Whether the location at a position is acceptable.
pub open spec fn good_location(locations: Seq<StreetViewLocationRequest>, i: int) -> bool {
    good_identifier(locations, i) && locations[i].place().valid()
}

/// Whether a request is refused for a reason: the first one that holds.
pub open spec fn refused(
    enabled: bool,
    locations: Seq<StreetViewLocationRequest>,
    refusal: StreetViewRefusal,
) -> bool {
    let fits = enabled && locations.len() <= MAX_STREET_VIEW_LOCATIONS;
    match refusal {
        StreetViewRefusal::Unavailable => !enabled,
        StreetViewRefusal::TooManyLocations => enabled && locations.len()
            > MAX_STREET_VIEW_LOCATIONS,
        StreetViewRefusal::BadIdentifier { position } => {
            &&& fits && position < locations.len()
            &&& forall|j: int| 0 <= j < position ==> #[trigger] good_location(locations, j)
            &&& !good_identifier(locations, position as int)
        },
        StreetViewRefusal::BadCoordinates { position } => {
            &&& fits && position < locations.len()
            &&& forall|j: int| 0 <= j < position ==> #[trigger] good_location(locations, j)
            &&& good_identifier(locations, position as int)
            &&& !locations[position as int].place().valid()
        },
    }
}

fn has_good_identifier(locations: &Vec<StreetViewLocationRequest>, i: usize) -> (b: bool)
    requires
        i < locations@.len(),
    ensures
        b == good_identifier(locations@, i as int),
{
    let id = locations[i].id.as_str();
    let length = id.as_bytes().len();
    if length == 0 || length > MAX_LOCATION_ID_BYTES {
        return false;
    }
    let mut j: usize = 0;
    while j < i
        invariant
            j <= i < locations@.len(),
            id@ == locations@[i as int].id@,
            forall|k: int| 0 <= k < j ==> (#[trigger] locations@[k]).id@ != id@,
        decreases i - j,
    {
        if same_text(locations[j].id.as_str(), id) {
            assert(locations@[j as int].id@ == id@);
            return false;
        }
        j = j + 1;
    }
    true
}

/// The places that a Street View request asks for, or why it is refused.
pub fn street_view_places(enabled: bool, locations: &Vec<StreetViewLocationRequest>) -> (places:
    Result<Vec<Coordinates>, StreetViewRefusal>)
    ensures
        match places {
            Ok(p) => {
                &&& enabled && locations@.len() <= MAX_STREET_VIEW_LOCATIONS
                &&& forall|i: int|
                    0 <= i < locations@.len() ==> #[trigger] good_location(locations@, i)
                &&& p@.len() == locations@.len()
                &&& forall|i: int|
                    0 <= i < locations@.len() ==> #[trigger] p@[i] == locations@[i].place()
                &&& forall|i: int|
                    0 <= i < locations@.len() ==> (#[trigger] p@[i]).lat == locations@[i].lat
                        && p@[i].lon == locations@[i].lon
            },
            Err(refusal) => refused(enabled, locations@, refusal),
        },
{
    if !enabled {
        return Err(StreetViewRefusal::Unavailable);
    }
    if locations.len() > MAX_STREET_VIEW_LOCATIONS {
        return Err(StreetViewRefusal::TooManyLocations);
    }
    let mut places: Vec<Coordinates> = Vec::new();
    let mut i: usize = 0;
    while i < locations.len()
        invariant
            enabled,
            i <= locations@.len() <= MAX_STREET_VIEW_LOCATIONS,
            forall|j: int| 0 <= j < i ==> #[trigger] good_location(locations@, j),
            places@.len() == i,
            forall|j: int| 0 <= j < i ==> #[trigger] places@[j] == locations@[j].place(),
        decreases locations@.len() - i,
    {
        if !has_good_identifier(locations, i) {
            return Err(StreetViewRefusal::BadIdentifier { position: i });
        }
        let place = Coordinates { lat: locations[i].lat, lon: locations[i].lon };
        if !place.is_valid() {
            return Err(StreetViewRefusal::BadCoordinates { position: i });
        }
        assert(good_location(locations@, i as int));
        places.push(place);
        i = i + 1;
    }
    Ok(places)
}

impl StreetViewRefusal {
    /// What a refused request is answered.
    pub fn answer(self) -> (error: ApiError)
        ensures
            match self {
                StreetViewRefusal::Unavailable => error.says(503, "street_view_unavailable"@),
                StreetViewRefusal::TooManyLocations => error.says(413, "payload_too_large"@),
                _ => error.says(400, "bad_request"@),
            },
    {
        match self {
            StreetViewRefusal::Unavailable => ApiError::service_unavailable(
                "street_view_unavailable",
            ),
            StreetViewRefusal::TooManyLocations => ApiError::payload_too_large(),
            StreetViewRefusal::BadIdentifier { .. } => ApiError::bad_request(),
            StreetViewRefusal::BadCoordinates { .. } => ApiError::bad_request(),
        }
    }
}

/// A request is refused for one reason only, and never when it is acceptable.
pub proof fn refusals_are_unique(
    enabled: bool,
    locations: Seq<StreetViewLocationRequest>,
    a: StreetViewRefusal,
    b: StreetViewRefusal,
)
    requires
        refused(enabled, locations, a),
        refused(enabled, locations, b),
    ensures
        a == b,
        !(enabled && locations.len() <= MAX_STREET_VIEW_LOCATIONS && forall|i: int|
            0 <= i < locations.len() ==> #[trigger] good_location(locations, i)),
{
    match a {
        StreetViewRefusal::BadIdentifier { position } => {
            assert(!good_location(locations, position as int));
        },
        StreetViewRefusal::BadCoordinates { position } => {
            assert(!good_location(locations, position as int));
        },
        _ => {},
    }
    match b {
        StreetViewRefusal::BadIdentifier { position } => {
            assert(!good_location(locations, position as int));
        },
        StreetViewRefusal::BadCoordinates { position } => {
            assert(!good_location(locations, position as int));
        },
        _ => {},
    }
}

/// The answer to a Street View request: the identifiers in their order, each with
/// the link of its result.
pub fn street_view_response(
    locations: &Vec<StreetViewLocationRequest>,
    results: &Vec<LookupResult>,
) -> (response: Vec<StreetViewLocationResponse>)
    ensures
        response@.len() == if locations@.len() <= results@.len() {
            locations@.len()
        } else {
            results@.len()
        },
        forall|i: int|
            0 <= i < response@.len() ==> {
                &&& (#[trigger] response@[i]).id == locations@[i].id
                &&& response@[i].street_view_url == results@[i].url
            },
{
    let mut response: Vec<StreetViewLocationResponse> = Vec::new();
    let mut i: usize = 0;
    while i < locations.len() && i < results.len()
        invariant
            i <= locations@.len(),
            i <= results@.len(),
            response@.len() == i,
            forall|j: int|
                0 <= j < i ==> {
                    &&& (#[trigger] response@[j]).id == locations@[j].id
                    &&& response@[j].street_view_url == results@[j].url
                },
        decreases locations@.len() - i,
    {
        response.push(
            StreetViewLocationResponse {
                id: locations[i].id.clone(),
                street_view_url: copy_text(&results[i].url),
            },
        );
        i = i + 1;
    }
    response
}

/// How many lookups ended in which way.
#[derive(Clone, Copy, Debug, PartialEq, Eq, Structural)]
pub struct LookupCounts {
    pub found: usize,
    pub not_found: usize,
    pub timeouts: usize,
    pub errors: usize,
}

/// How many results have a status.
pub open spec fn count_of(results: Seq<LookupResult>, status: LookupStatus) -> nat
    decreases results.len(),
{
    if results.len() == 0 {
        0
    } else {
        count_of(results.drop_last(), status) + if results.last().status == status {
            1nat
        } else {
            0
        }
    }
}

/// Counts how lookups ended; every lookup counts once.
pub fn count_lookups(results: &Vec<LookupResult>) -> (counts: LookupCounts)
    ensures
        counts.found == count_of(results@, LookupStatus::Found),
        counts.not_found == count_of(results@, LookupStatus::NotFound),
        counts.timeouts == count_of(results@, LookupStatus::Timeout),
        counts.errors == count_of(results@, LookupStatus::Error),
        counts.found + counts.not_found + counts.timeouts + counts.errors == results@.len(),
{
    let mut counts = LookupCounts { found: 0, not_found: 0, timeouts: 0, errors: 0 };
    let mut i: usize = 0;
    while i < results.len()
        invariant
            i <= results@.len(),
            counts.found == count_of(results@.take(i as int), LookupStatus::Found),
            counts.not_found == count_of(results@.take(i as int), LookupStatus::NotFound),
            counts.timeouts == count_of(results@.take(i as int), LookupStatus::Timeout),
            counts.errors == count_of(results@.take(i as int), LookupStatus::Error),
            counts.found + counts.not_found + counts.timeouts + counts.errors == i,
        decreases results@.len() - i,
    {
        assert(results@.take(i + 1).drop_last() =~= results@.take(i as int));
        assert(results@.take(i + 1).last() == results@[i as int]);
        match results[i].status {
            LookupStatus::Found => {
                counts.found = counts.found + 1;
            },
            LookupStatus::NotFound => {
                counts.not_found = counts.not_found + 1;
            },
            LookupStatus::Timeout => {
                counts.timeouts = counts.timeouts + 1;
            },
            LookupStatus::Error => {
                counts.errors = counts.errors + 1;
            },
        }
        i = i + 1;
    }
    assert(results@.take(results@.len() as int) =~= results@);
    counts
}

/// What is to be done with a part of an upload.
#[derive(Debug)]
pub enum UploadStep {
    /// Look at the next part.
    Skip,
    /// Refuse the upload.
    Refuse(ApiError),
    /// Read the contents of the part.
    Read { filename: String },
}

/// Whether a file name ends in `.gpx`, in whatever case.
pub open spec fn is_gpx_name(filename: Seq<char>) -> bool {
    has_suffix(lowered(filename), ".gpx"@)
}

/// The file name of a part; empty where it has none.
pub open spec fn given_name(filename: Option<&str>) -> Seq<char> {
    match filename {
        Some(name) => name@,
        None => Seq::empty(),
    }
}

/// Looks at a part of an upload: the first part named `file` counts, and its file
/// name must end in `.gpx`.
pub fn upload_step(field_name: Option<&str>, filename: Option<&str>) -> (step: UploadStep)
    ensures
        if !(field_name matches Some(name) && name@ == "file"@) {
            step is Skip
        } else if !is_gpx_name(given_name(filename)) {
            step matches UploadStep::Refuse(error) && error.says(400, "bad_request"@)
        } else {
            step matches UploadStep::Read { filename: f } && f@ == given_name(filename)
        },
        step matches UploadStep::Read { filename: f } ==> filename is Some && f@ == filename->0@,
        filename is None && field_name is Some && field_name->0@ == "file"@ ==> step is Refuse,
{
    let is_file = match field_name {
        Some(name) => same_text(name, "file"),
        None => false,
    };
    if !is_file {
        return UploadStep::Skip;
    }
    let name: String = match filename {
        Some(name) => name.to_owned(),
        None => String::new(),
    };
    assert(name@ =~= given_name(filename));
    proof {
        gpx_names_end_in_gpx(given_name(filename));
    }
    if !ends_with(lower(name.as_str()).as_str(), ".gpx") {
        return UploadStep::Refuse(ApiError::bad_request());
    }
    UploadStep::Read { filename: name }
}

/// Whether an upload of some size is accepted.
pub fn accept_size(size: usize, max_upload_bytes: usize) -> (accepted: Result<(), ApiError>)
    ensures
        match accepted {
            Ok(_) => size <= max_upload_bytes,
            Err(error) => size > max_upload_bytes && error.says(413, "payload_too_large"@),
        },
{
    if size > max_upload_bytes {
        Err(ApiError::payload_too_large())
    } else {
        Ok(())
    }
}

/// What an upload without a part named `file` is answered.
pub fn missing_file() -> (error: ApiError)
    ensures
        error.says(400, "bad_request"@),
{
    ApiError::bad_request()
}

/// A request is accepted exactly where the service is in order, it asks for no more than
/// 2000 locations, their identifiers are unique and have from 1 to 128 bytes, and all
/// coordinates are valid.
pub proof fn acceptable_requests(enabled: bool, locations: Seq<StreetViewLocationRequest>)
    ensures
        (exists|refusal: StreetViewRefusal| #[trigger] refused(enabled, locations, refusal)) <==> !{
            &&& enabled
            &&& locations.len() <= 2000
            &&& forall|i: int|
                0 <= i < locations.len() ==> {
                    &&& 1 <= encode_utf8((#[trigger] locations[i]).id@).len() <= 128
                    &&& Coordinates { lat: locations[i].lat, lon: locations[i].lon }.valid()
                }
            &&& forall|i: int, j: int|
                0 <= i < j < locations.len() ==> (#[trigger] locations[i]).id@ != (
                #[trigger] locations[j]).id@
        },
{
    if enabled && locations.len() <= 2000 {
        if forall|i: int| 0 <= i < locations.len() ==> #[trigger] good_location(locations, i) {
            assert forall|refusal: StreetViewRefusal|
                !(#[trigger] refused(enabled, locations, refusal)) by {
                if refused(enabled, locations, refusal) {
                    refusals_are_unique(enabled, locations, refusal, refusal);
                }
            }
            assert forall|i: int| 0 <= i < locations.len() implies {
                &&& 1 <= encode_utf8((#[trigger] locations[i]).id@).len() <= 128
                &&& Coordinates { lat: locations[i].lat, lon: locations[i].lon }.valid()
            } by {
                assert(good_location(locations, i));
            }
            assert forall|i: int, j: int| 0 <= i < j < locations.len() implies (
            #[trigger] locations[i]).id@ != (#[trigger] locations[j]).id@ by {
                assert(good_location(locations, j));
            }
        } else {
            let n = lemma_first_bad(locations, locations.len() as int);
            if good_identifier(locations, n) {
                assert(refused(
                    enabled,
                    locations,
                    StreetViewRefusal::BadCoordinates { position: n as usize },
                ));
            } else {
                assert(refused(
                    enabled,
                    locations,
                    StreetViewRefusal::BadIdentifier { position: n as usize },
                ));
            }
            if forall|i: int, j: int|
                0 <= i < j < locations.len() ==> (#[trigger] locations[i]).id@ != (
                #[trigger] locations[j]).id@ {
                assert(!(1 <= encode_utf8(locations[n].id@).len() <= 128) || !Coordinates {
                    lat: locations[n].lat,
                    lon: locations[n].lon,
                }.valid());
            }
        }
    } else if !enabled {
        assert(refused(enabled, locations, StreetViewRefusal::Unavailable));
    } else {
        assert(refused(enabled, locations, StreetViewRefusal::TooManyLocations));
    }
}

proof fn lemma_first_bad(locations: Seq<StreetViewLocationRequest>, n: int) -> (first: int)
    requires
        0 <= n <= locations.len(),
        exists|i: int| 0 <= i < n && !(#[trigger] good_location(locations, i)),
    ensures
        0 <= first < n,
        !good_location(locations, first),
        forall|i: int| 0 <= i < first ==> #[trigger] good_location(locations, i),
    decreases n,
{
    if exists|i: int| 0 <= i < n - 1 && !(#[trigger] good_location(locations, i)) {
        lemma_first_bad(locations, n - 1)
    } else {
        n - 1
    }
}

/// A request is refused at its first location that is at fault, and for its coordinates
/// only where its identifier is in order.
pub proof fn refusals_name_the_first_fault(
    enabled: bool,
    locations: Seq<StreetViewLocationRequest>,
    refusal: StreetViewRefusal,
)
    requires
        refused(enabled, locations, refusal),
    ensures
        refusal == StreetViewRefusal::Unavailable <==> !enabled,
        refusal == StreetViewRefusal::TooManyLocations <==> enabled && locations.len() > 2000,
        refusal matches StreetViewRefusal::BadIdentifier { position } ==> {
            &&& position < locations.len()
            &&& {
                ||| locations[position as int].id@.len() == 0
                ||| encode_utf8(locations[position as int].id@).len() == 0
                ||| encode_utf8(locations[position as int].id@).len() > 128
                ||| exists|j: int|
                    0 <= j < position && (#[trigger] locations[j]).id@
                        == locations[position as int].id@
            }
            &&& forall|j: int|
                0 <= j < position ==> Coordinates {
                    lat: (#[trigger] locations[j]).lat,
                    lon: locations[j].lon,
                }.valid()
        },
        refusal matches StreetViewRefusal::BadCoordinates { position } ==> {
            &&& position < locations.len()
            &&& !Coordinates {
                lat: locations[position as int].lat,
                lon: locations[position as int].lon,
            }.valid()
            &&& 1 <= encode_utf8(locations[position as int].id@).len() <= 128
            &&& forall|j: int|
                0 <= j < position ==> Coordinates {
                    lat: (#[trigger] locations[j]).lat,
                    lon: locations[j].lon,
                }.valid()
        },
{
    let n: int = match refusal {
        StreetViewRefusal::BadIdentifier { position } => position as int,
        StreetViewRefusal::BadCoordinates { position } => position as int,
        _ => 0,
    };
    assert forall|j: int| 0 <= j < n implies Coordinates {
        lat: (#[trigger] locations[j]).lat,
        lon: locations[j].lon,
    }.valid() by {
        assert(good_location(locations, j));
    }
}

/// Lookups are counted one by one: those of two lists together are those of both, and
/// one lookup counts for its own status alone.
pub proof fn every_lookup_counts_once(
    a: Seq<LookupResult>,
    b: Seq<LookupResult>,
    one: LookupResult,
    status: LookupStatus,
)
    ensures
        count_of(a + b, status) == count_of(a, status) + count_of(b, status),
        count_of(seq![one], status) == if one.status == status {
            1nat
        } else {
            0nat
        },
        count_of(Seq::empty(), status) == 0,
    decreases b.len(),
{
    assert(seq![one].drop_last() =~= Seq::empty());
    assert(seq![one].last() == one);
    reveal_with_fuel(count_of, 2);
    if b.len() == 0 {
        assert(a + b =~= a);
    } else {
        assert((a + b).drop_last() =~= a + b.drop_last());
        every_lookup_counts_once(a, b.drop_last(), one, status);
    }
}

/// A file name is that of a GPX file exactly where it ends in a dot and the letters g, p
/// and x, each in either case.
pub proof fn gpx_names_end_in_gpx(filename: Seq<char>)
    ensures
        is_gpx_name(filename) <==> {
            let n = filename.len() as int;
            &&& n >= 4
            &&& filename[n - 4] == '.'
            &&& filename[n - 3] == 'g' || filename[n - 3] == 'G'
            &&& filename[n - 2] == 'p' || filename[n - 2] == 'P'
            &&& filename[n - 1] == 'x' || filename[n - 1] == 'X'
        },
{
    reveal_strlit(".gpx");
    let n = filename.len() as int;
    let low = lowered(filename);
    if n >= 4 {
        let end = low.subrange(n - 4, n);
        if is_gpx_name(filename) {
            assert(end[0] == ".gpx"@[0] && end[1] == ".gpx"@[1] && end[2] == ".gpx"@[2] && end[3]
                == ".gpx"@[3]);
            assert(low[n - 4] == end[0] && low[n - 3] == end[1] && low[n - 2] == end[2] && low[n
                - 1] == end[3]);
            lemma_lower_letter(filename[n - 4]);
            lemma_lower_letter(filename[n - 3]);
            lemma_lower_letter(filename[n - 2]);
            lemma_lower_letter(filename[n - 1]);
        } else if filename[n - 4] == '.' && (filename[n - 3] == 'g' || filename[n - 3] == 'G') && (
        filename[n - 2] == 'p' || filename[n - 2] == 'P') && (filename[n - 1] == 'x' || filename[n
            - 1] == 'X') {
            lemma_lower_letter(filename[n - 4]);
            lemma_lower_letter(filename[n - 3]);
            lemma_lower_letter(filename[n - 2]);
            lemma_lower_letter(filename[n - 1]);
            assert(end =~= ".gpx"@);
        }
    }
}

proof fn lemma_lower_letter(c: char)
    ensures
        ascii_lower(c) == '.' <==> c == '.',
        ascii_lower(c) == 'g' <==> c == 'g' || c == 'G',
        ascii_lower(c) == 'p' <==> c == 'p' || c == 'P',
        ascii_lower(c) == 'x' <==> c == 'x' || c == 'X',
{
}

/// An error says just its status and its code.
pub proof fn errors_say_status_and_code(error: ApiError, status: u16, code: Seq<char>)
    ensures
        error.says(status, code) <==> error.status == status && error.code@ == code,
{
}

} // verus!
