//! Street View panoramas near water points.
//!
//! What the metadata service is asked, how its replies are understood, and which
//! of them are remembered for how long.

use std::collections::HashMap;

use vstd::prelude::*;

use crate::binary64::Binary64;
use crate::text::{copy_text, same_text, trim, trimmed};
use crate::types::{MAX_LATITUDE_BITS, MAX_LONGITUDE_BITS};

verus! {

/// The service that tells where panoramas are.
pub const GOOGLE_METADATA_URL: &'static str = "https://maps.googleapis.com/maps/api/streetview/metadata";

/// How long a lookup may take, in milliseconds.
pub const LOOKUP_TIMEOUT_MILLIS: u64 = 500;

/// How long a result is remembered, in nanoseconds: 24 hours.
pub const CACHE_TTL_NANOS: u64 = 86_400_000_000_000;

/// How many results are remembered at most.
pub const MAX_CACHE_ENTRIES: usize = 100_000;

/// How many lookups may be under way at once.
pub const MAX_PARALLEL_LOOKUPS: usize = 16;

/// A place on the globe, in degrees.
#[derive(Clone, Copy, Debug, PartialEq, Eq, Structural)]
pub struct Coordinates {
    pub lat: Binary64,
    pub lon: Binary64,
}

impl Coordinates {
    /// Whether latitude and longitude are numbers of at most 90 and 180 degrees.
    pub open spec fn valid(self) -> bool {
        &&& self.lat.finite() && self.lon.finite()
        &&& -MAX_LATITUDE_BITS <= self.lat.rank() <= MAX_LATITUDE_BITS
        &&& -MAX_LONGITUDE_BITS <= self.lon.rank() <= MAX_LONGITUDE_BITS
    }

    /// Whether latitude and longitude are numbers of at most 90 and 180 degrees.
    pub fn is_valid(self) -> (b: bool)
        ensures
            b == self.valid(),
    {
        let lat = self.lat.order_rank();
        let lon = self.lon.order_rank();
        self.lat.is_finite() && self.lon.is_finite() && -(MAX_LATITUDE_BITS as i64) <= lat && lat
            <= MAX_LATITUDE_BITS as i64 && -(MAX_LONGITUDE_BITS as i64) <= lon && lon <= MAX_LONGITUDE_BITS as i64
    }
}

/// How a lookup ended.
#[derive(Clone, Copy, Debug, PartialEq, Eq, Structural)]
pub enum LookupStatus {
    Found,
    NotFound,
    Timeout,
    Error,
}

/// The outcome of a lookup.
#[derive(Clone, Debug, PartialEq, Eq)]
pub struct LookupResult {
    pub url: Option<String>,
    pub status: LookupStatus,
}

impl LookupResult {
    /// A panorama was found.
    pub fn found(url: String) -> (result: Self)
        ensures
            result.url == Some(url),
            result.status == LookupStatus::Found,
    {
        LookupResult { url: Some(url), status: LookupStatus::Found }
    }

    /// There is no panorama to show.
    pub fn without_url(status: LookupStatus) -> (result: Self)
        ensures
            result.url is None,
            result.status == status,
    {
        LookupResult { url: None, status }
    }

    /// The outcome without a panorama.
    pub open spec fn none(status: LookupStatus) -> LookupResult {
        LookupResult { url: None, status }
    }

    /// Whether the outcome is worth remembering.
    pub open spec fn conclusive(self) -> bool {
        self.status == LookupStatus::Found || self.status == LookupStatus::NotFound
    }

    fn copy(&self) -> (result: Self)
        ensures
            result == *self,
    {
        LookupResult { url: copy_text(&self.url), status: self.status }
    }
}

/// Coordinates in millionths of a degree, by which results are remembered.
#[derive(Clone, Copy, Debug, PartialEq, Eq, Structural)]
pub struct CacheKey {
    pub lat_e6: i32,
    pub lon_e6: i32,
}

impl CacheKey {
    /// Both coordinates as one number.
    pub open spec fn packed(self) -> u64 {
        ((self.lat_e6 + 0x8000_0000) * 0x1_0000_0000 + self.lon_e6 + 0x8000_0000) as u64
    }

    fn pack(self) -> (n: u64)
        ensures
            n == self.packed(),
    {
        let lat: u64 = (self.lat_e6 as i64 + 0x8000_0000) as u64;
        let lon: u64 = (self.lon_e6 as i64 + 0x8000_0000) as u64;
        lat * 0x1_0000_0000 + lon
    }
}

/// Different coordinates are remembered apart.
pub proof fn packed_keys_differ(a: CacheKey, b: CacheKey)
    requires
        a.packed() == b.packed(),
    ensures
        a == b,
{
}

/// A result and when it ceases to hold, in nanoseconds on a steady clock.
#[derive(Debug)]
pub struct CachedLookup {
    pub result: LookupResult,
    pub expires_at: u128,
}

/// The remembered results.
pub struct LookupCache {
    pub entries: HashMap<u64, CachedLookup>,
}

/// The entries that have not expired.
pub open spec fn unexpired(entries: Map<u64, CachedLookup>, now: u128) -> Map<u64, CachedLookup> {
    entries.restrict(Set::new(|k: u64| entries.dom().contains(k) && entries[k].expires_at > now))
}

/// Whether no entry expires before the one under `key`.
pub open spec fn expires_first(entries: Map<u64, CachedLookup>, key: u64) -> bool {
    &&& entries.dom().contains(key)
    &&& forall|k: u64| #[trigger]
        entries.dom().contains(k) ==> entries[key].expires_at <= entries[k].expires_at
}

/// Whether `after` is `before` with room for one more entry: as it is if it was
/// not full; otherwise without what has expired and, if that is not enough,
/// without an entry that expires first.
pub open spec fn makes_room(
    before: Map<u64, CachedLookup>,
    now: u128,
    after: Map<u64, CachedLookup>,
) -> bool {
    if before.len() < MAX_CACHE_ENTRIES {
        after == before
    } else {
        let live = unexpired(before, now);
        if live.len() < MAX_CACHE_ENTRIES {
            after == live
        } else {
            exists|key: u64| #[trigger] expires_first(live, key) && after == live.remove(key)
        }
    }
}

/// Whether `after` is `before` once a result was taken note of at `now`: only a
/// conclusive one is remembered, for 24 hours.
pub open spec fn remembers(
    before: Map<u64, CachedLookup>,
    key: CacheKey,
    result: LookupResult,
    now: u128,
    after: Map<u64, CachedLookup>,
) -> bool {
    if result.conclusive() {
        exists|room: Map<u64, CachedLookup>| #[trigger]
            makes_room(before, now, room) && after == room.insert(
                key.packed(),
                CachedLookup { result, expires_at: (now + CACHE_TTL_NANOS) as u128 },
            )
    } else {
        after == before
    }
}

impl LookupCache {
    /// The remembered results by their packed coordinates.
    pub open spec fn view(self) -> Map<u64, CachedLookup> {
        self.entries@
    }

    /// Whether no more is remembered than allowed.
    pub open spec fn bounded(self) -> bool {
        self@.dom().finite() && self@.len() <= MAX_CACHE_ENTRIES
    }

    /// Nothing is remembered yet.
    pub fn new() -> (cache: Self)
        ensures
            cache@ == Map::<u64, CachedLookup>::empty(),
            cache.bounded(),
    {
        broadcast use vstd::std_specs::hash::group_hash_axioms;

        let cache = LookupCache { entries: HashMap::new() };
        assert(cache@ =~= Map::empty());
        cache
    }

    /// How many results are remembered.
    pub fn len(&self) -> (n: usize)
        ensures
            n == self@.len(),
    {
        broadcast use vstd::std_specs::hash::group_hash_axioms;

        self.entries.len()
    }

    fn keys(&self) -> (keys: Vec<u64>)
        ensures
            forall|k: u64| self@.dom().contains(k) <==> #[trigger] keys@.contains(k),
    {
        broadcast use vstd::std_specs::hash::group_hash_axioms;

        let mut keys: Vec<u64> = Vec::new();
        let ghost all = vstd::std_specs::iter::IteratorSpec::remaining(
            &vstd::std_specs::hash::spec_keys_iter(&self.entries),
        );
        for k in it: self.entries.keys()
            invariant
                keys@.len() == it.index(),
                forall|i: int| 0 <= i < keys@.len() ==> keys@[i] == *it.seq()[i],
                it.seq() == all,
        {
            keys.push(*k);
        }
        assert(keys@ =~= all.unref());
        assert forall|k: u64| self@.dom().contains(k) <==> #[trigger] keys@.contains(k) by {
            assert(all.unref().to_set().contains(k) <==> all.unref().contains(k));
        }
        keys
    }

    fn drop_expired(&mut self, now: u128)
        ensures
            final(self)@ == unexpired(old(self)@, now),
    {
        broadcast use vstd::std_specs::hash::group_hash_axioms;

        let keys = self.keys();
        let ghost before = self@;
        let mut i: usize = 0;
        while i < keys.len()
            invariant
                i <= keys@.len(),
                forall|k: u64| before.dom().contains(k) <==> #[trigger] keys@.contains(k),
                forall|k: u64| #[trigger]
                    self@.dom().contains(k) <==> {
                        &&& before.dom().contains(k)
                        &&& before[k].expires_at > now || !keys@.take(i as int).contains(k)
                    },
                forall|k: u64| #[trigger] self@.dom().contains(k) ==> self@[k] == before[k],
            decreases keys@.len() - i,
        {
            let key = keys[i];
            let expired = match self.entries.get(&key) {
                Some(cached) => cached.expires_at <= now,
                None => false,
            };
            let ghost earlier = self@;
            if expired {
                self.entries.remove(&key);
            }
            proof {
                let seen = keys@.take(i as int);
                let more = keys@.take(i + 1);
                assert(more =~= seen.push(key));
                assert(keys@.contains(key));
                assert forall|k: u64| more.contains(k) <==> (seen.contains(k) || k == key) by {
                    if seen.contains(k) {
                        let j = choose|j: int| 0 <= j < seen.len() && seen[j] == k;
                        assert(more[j] == k);
                    }
                    if k == key {
                        assert(more[i as int] == k);
                    }
                    if more.contains(k) && k != key {
                        let j = choose|j: int| 0 <= j < more.len() && more[j] == k;
                        assert(seen[j] == k);
                    }
                }
                assert forall|k: u64| #[trigger] self@.dom().contains(k) <==> {
                    &&& before.dom().contains(k)
                    &&& before[k].expires_at > now || !more.contains(k)
                } by {
                    assert(earlier.dom().contains(k) <==> {
                        &&& before.dom().contains(k)
                        &&& before[k].expires_at > now || !seen.contains(k)
                    });
                }
            }
            i = i + 1;
        }
        assert(keys@.take(keys@.len() as int) =~= keys@);
        assert(self@ =~= unexpired(before, now));
    }

    fn soonest(&self) -> (key: Option<u64>)
        ensures
            match key {
                Some(k) => expires_first(self@, k),
                None => self@.dom() == Set::<u64>::empty(),
            },
    {
        broadcast use vstd::std_specs::hash::group_hash_axioms;

        let keys = self.keys();
        let mut best: Option<(u64, u128)> = None;
        let mut i: usize = 0;
        while i < keys.len()
            invariant
                i <= keys@.len(),
                forall|k: u64| self@.dom().contains(k) <==> #[trigger] keys@.contains(k),
                match best {
                    Some((key, expires_at)) => {
                        &&& self@.dom().contains(key) && self@[key].expires_at == expires_at
                        &&& forall|j: int|
                            0 <= j < i ==> expires_at <= self@[#[trigger] keys@[j]].expires_at
                    },
                    None => i == 0,
                },
            decreases keys@.len() - i,
        {
            let key = keys[i];
            assert(keys@.contains(key));
            match self.entries.get(&key) {
                Some(cached) => {
                    match best {
                        Some((_, expires_at)) => {
                            if cached.expires_at < expires_at {
                                best = Some((key, cached.expires_at));
                            }
                        },
                        None => {
                            best = Some((key, cached.expires_at));
                        },
                    }
                },
                None => {},
            }
            i = i + 1;
        }
        match best {
            Some((key, _)) => {
                assert forall|k: u64| #[trigger]
                    self@.dom().contains(k) implies self@[key].expires_at
                    <= self@[k].expires_at by {
                    assert(keys@.contains(k));
                    let j = choose|j: int| 0 <= j < keys@.len() && keys@[j] == k;
                }
                Some(key)
            },
            None => {
                assert forall|k: u64| !self@.dom().contains(k) by {
                    assert(!keys@.contains(k));
                }
                assert(self@.dom() =~= Set::<u64>::empty());
                None
            },
        }
    }

    /// The remembered result for some coordinates; what has expired is forgotten.
    pub fn recall(&mut self, key: CacheKey, now: u128) -> (result: Option<LookupResult>)
        ensures
            ({
                let k = key.packed();
                if !old(self)@.dom().contains(k) {
                    result is None && final(self)@ == old(self)@
                } else if old(self)@[k].expires_at > now {
                    result == Some(old(self)@[k].result) && final(self)@ == old(self)@
                } else {
                    result is None && final(self)@ == old(self)@.remove(k)
                }
            }),
            old(self).bounded() ==> final(self).bounded(),
    {
        broadcast use vstd::std_specs::hash::group_hash_axioms;

        let k = key.pack();
        let mut found: Option<LookupResult> = None;
        let mut expired = false;
        match self.entries.get(&k) {
            Some(cached) => {
                if cached.expires_at > now {
                    found = Some(cached.result.copy());
                } else {
                    expired = true;
                }
            },
            None => {},
        }
        if expired {
            self.entries.remove(&k);
        }
        found
    }

    /// Remembers a conclusive result for 24 hours.
    ///
    /// A full memory first forgets what has expired and, if that is not enough, one
    /// result among those that expire first.
    pub fn remember(&mut self, key: CacheKey, result: &LookupResult, now: u128)
        requires
            now + CACHE_TTL_NANOS <= u128::MAX,
        ensures
            remembers(old(self)@, key, *result, now, final(self)@),
            old(self).bounded() ==> final(self).bounded(),
    {
        broadcast use vstd::std_specs::hash::group_hash_axioms;

        match result.status {
            LookupStatus::Found => {},
            LookupStatus::NotFound => {},
            LookupStatus::Timeout => {
                return ;
            },
            LookupStatus::Error => {
                return ;
            },
        }
        let ghost before = self@;
        if self.entries.len() >= MAX_CACHE_ENTRIES {
            self.drop_expired(now);
            proof {
                vstd::set_lib::lemma_len_subset(self@.dom(), before.dom());
            }
            if self.entries.len() >= MAX_CACHE_ENTRIES {
                let ghost live = self@;
                match self.soonest() {
                    Some(oldest) => {
                        self.entries.remove(&oldest);
                        assert(expires_first(live, oldest));
                        assert(self@ == live.remove(oldest));
                    },
                    None => {
                        assert(live.dom().len() == 0);
                    },
                }
            }
        }
        assert(makes_room(before, now, self@));
        let ghost room = self@;
        let cached = CachedLookup {
            result: result.copy(),
            expires_at: now + CACHE_TTL_NANOS as u128,
        };
        self.entries.insert(key.pack(), cached);
        assert(self@ == room.insert(key.packed(), cached));
    }
}

/// A key without the white space around it; nothing where there is none left.
pub fn usable_key(api_key: Option<String>) -> (key: Option<String>)
    ensures
        match key {
            Some(k) => api_key matches Some(given) && k@ == trimmed(given@) && k@.len() > 0,
            None => api_key matches Some(given) ==> trimmed(given@).len() == 0,
        },
{
    match api_key {
        Some(given) => {
            let key = trim(given.as_str());
            if key.as_str().is_empty() {
                None
            } else {
                Some(key)
            }
        },
        None => None,
    }
}

/// The metadata of a panorama as the service reports it.
#[derive(Debug)]
pub struct MetadataReply {
    pub status: String,
    pub location: Option<Coordinates>,
}

/// What became of a request to the service.
#[derive(Debug)]
pub enum LookupReply {
    /// The service answered.
    Answer(MetadataReply),
    /// The service answered with something else than metadata.
    Unreadable,
    /// The service refused to answer.
    Refused,
    /// No answer came in time.
    TimedOut,
    /// The service could not be reached.
    Failed,
}

/// The link to the panorama at a location that is written as `location`.
pub open spec fn panorama_url(location: Seq<char>) -> Seq<char> {
    "https://www.google.com/maps/@"@ + "?api=1&map_action=pano&viewpoint="@ + location
}

/// Whether `result` is what a reply means. `describe` writes a location.
pub open spec fn understands<D>(describe: D, reply: LookupReply, result: LookupResult) -> bool where
    D: Fn(Coordinates) -> String,
 {
    match reply {
        LookupReply::Answer(metadata) => if metadata.status@ == "OK"@ {
            match metadata.location {
                Some(location) => if location.valid() {
                    &&& result.status == LookupStatus::Found
                    &&& result.url is Some
                    &&& exists|text: String| #[trigger]
                        call_ensures(describe, (location,), text) && result.url->0@ == panorama_url(
                            text@,
                        )
                } else {
                    result == LookupResult::none(LookupStatus::Error)
                },
                None => result == LookupResult::none(LookupStatus::Error),
            }
        } else if metadata.status@ == "ZERO_RESULTS"@ {
            result == LookupResult::none(LookupStatus::NotFound)
        } else {
            result == LookupResult::none(LookupStatus::Error)
        },
        LookupReply::TimedOut => result == LookupResult::none(LookupStatus::Timeout),
        _ => result == LookupResult::none(LookupStatus::Error),
    }
}

/// What a reply means.
///
/// `describe` writes latitude and longitude with six decimal places.
pub fn interpret_reply<D>(reply: &LookupReply, describe: &D) -> (result: LookupResult) where
    D: Fn(Coordinates) -> String,

    requires
        forall|c: Coordinates| call_requires(*describe, (c,)),
    ensures
        understands(*describe, *reply, result),
{
    match reply {
        LookupReply::Answer(metadata) => {
            let status = metadata.status.as_str();
            if same_text(status, "OK") {
                match metadata.location {
                    Some(location) => {
                        if location.is_valid() {
                            let text = describe(location);
                            let mut url = "https://www.google.com/maps/@".to_owned();
                            url.append("?api=1&map_action=pano&viewpoint=");
                            url.append(text.as_str());
                            return LookupResult::found(url);
                        }
                    },
                    None => {},
                }
                LookupResult::without_url(LookupStatus::Error)
            } else if same_text(status, "ZERO_RESULTS") {
                LookupResult::without_url(LookupStatus::NotFound)
            } else {
                LookupResult::without_url(LookupStatus::Error)
            }
        },
        LookupReply::TimedOut => LookupResult::without_url(LookupStatus::Timeout),
        LookupReply::Unreadable => LookupResult::without_url(LookupStatus::Error),
        LookupReply::Refused => LookupResult::without_url(LookupStatus::Error),
        LookupReply::Failed => LookupResult::without_url(LookupStatus::Error),
    }
}

/// What is to be done for a lookup.
#[derive(Debug)]
pub enum LookupStep {
    /// The lookup is over.
    Done(LookupResult),
    /// The service is to be asked.
    Ask,
}

/// What has happened to a lookup.
#[derive(Debug)]
pub enum LookupEvent {
    /// It was asked for.
    Requested,
    /// Its turn has come to ask the service.
    Admitted,
    /// There are no more turns.
    TurnedAway,
    /// The service has replied, or not.
    Replied(LookupReply),
}

/// What is to be done next for a lookup.
#[derive(Debug)]
pub enum LookupAction {
    /// The lookup is over.
    Finish(LookupResult),
    /// Wait for a turn.
    Queue,
    /// Ask the service, with these parameters.
    Ask(Vec<(String, String)>),
}

/// Whether `query` asks, under a key, about the panorama near a place. `describe`
/// writes latitude and longitude with six decimal places.
pub open spec fn asks_about<D>(
    describe: D,
    coordinates: Coordinates,
    api_key: Seq<char>,
    query: Seq<(String, String)>,
) -> bool where D: Fn(Coordinates) -> String {
    &&& query.len() == 3
    &&& query[0].0@ == "location"@ && call_ensures(describe, (coordinates,), query[0].1)
    &&& query[1].0@ == "radius"@ && query[1].1@ == "50"@
    &&& query[2].0@ == "key"@ && query[2].1@ == api_key
}

/// Where panoramas are looked up, and what is remembered of it.
pub struct StreetViewService {
    pub api_key: Option<String>,
    pub metadata_url: String,
    pub cache: LookupCache,
}

impl StreetViewService {
    /// A service that asks under a key; without one it is out of order.
    pub fn new(api_key: Option<String>) -> (service: Self)
        ensures
            service.metadata_url@ == GOOGLE_METADATA_URL@,
            service.metadata_url@ == "https://maps.googleapis.com/maps/api/streetview/metadata"@,
            service.enabled() == (api_key matches Some(key) && trimmed(key@).len() > 0),
            service.enabled() ==> service.api_key->0@ == trimmed(api_key->0@),
            service.cache@ == Map::<u64, CachedLookup>::empty(),
            service.cache.bounded(),
    {
        StreetViewService::with_metadata_url(api_key, GOOGLE_METADATA_URL)
    }

    /// A service that asks at an address of its own.
    pub fn with_metadata_url(api_key: Option<String>, metadata_url: &str) -> (service: Self)
        ensures
            service.metadata_url@ == metadata_url@,
            service.enabled() == (api_key matches Some(key) && trimmed(key@).len() > 0),
            service.enabled() ==> service.api_key->0@ == trimmed(api_key->0@),
            service.cache@ == Map::<u64, CachedLookup>::empty(),
            service.cache.bounded(),
    {
        StreetViewService {
            api_key: usable_key(api_key),
            metadata_url: metadata_url.to_owned(),
            cache: LookupCache::new(),
        }
    }

    /// Whether the service is in order.
    pub open spec fn enabled(self) -> bool {
        self.api_key is Some
    }

    /// Whether the service is in order.
    pub fn is_enabled(&self) -> (b: bool)
        ensures
            b == self.enabled(),
    {
        self.api_key.is_some()
    }

    /// The parameters of a request about the panorama near a place; nothing where the
    /// service is out of order.
    ///
    /// `describe` writes latitude and longitude with six decimal places.
    pub fn metadata_query<D>(&self, coordinates: Coordinates, describe: &D) -> (query: Option<
        Vec<(String, String)>,
    >) where D: Fn(Coordinates) -> String
        requires
            forall|c: Coordinates| call_requires(*describe, (c,)),
        ensures
            match query {
                Some(q) => self.enabled() && asks_about(
                    *describe,
                    coordinates,
                    self.api_key->0@,
                    q@,
                ),
                None => !self.enabled(),
            },
    {
        match &self.api_key {
            Some(key) => {
                let mut query: Vec<(String, String)> = Vec::new();
                query.push(("location".to_owned(), describe(coordinates)));
                query.push(("radius".to_owned(), "50".to_owned()));
                query.push(("key".to_owned(), key.clone()));
                Some(query)
            },
            None => None,
        }
    }

    /// How a lookup begins, and what is remembered afterwards: it is over where the
    /// coordinates are not valid, the service is out of order, or the result is
    /// remembered. What has expired is forgotten.
    pub open spec fn begins(self, coordinates: Coordinates, key: CacheKey, now: u128) -> (
        LookupStep,
        Map<u64, CachedLookup>,
    ) {
        let k = key.packed();
        let entries = self.cache@;
        if !coordinates.valid() || !self.enabled() {
            (LookupStep::Done(LookupResult::none(LookupStatus::Error)), entries)
        } else if !entries.dom().contains(k) {
            (LookupStep::Ask, entries)
        } else if entries[k].expires_at > now {
            (LookupStep::Done(entries[k].result), entries)
        } else {
            (LookupStep::Ask, entries.remove(k))
        }
    }

    /// Begins a lookup: it is over where the coordinates are not valid, the service
    /// is out of order, or the result is remembered.
    pub fn begin_lookup(&mut self, coordinates: Coordinates, key: CacheKey, now: u128) -> (step:
        LookupStep)
        ensures
            final(self).api_key == old(self).api_key,
            final(self).metadata_url == old(self).metadata_url,
            old(self).cache.bounded() ==> final(self).cache.bounded(),
            (step, final(self).cache@) == old(self).begins(coordinates, key, now),
    {
        if !coordinates.is_valid() || !self.is_enabled() {
            return LookupStep::Done(LookupResult::without_url(LookupStatus::Error));
        }
        match self.cache.recall(key, now) {
            Some(result) => LookupStep::Done(result),
            None => LookupStep::Ask,
        }
    }

    /// Ends a lookup with the reply of the service.
    pub fn finish_lookup<D>(&mut self, key: CacheKey, reply: &LookupReply, describe: &D, now: u128)
        -> (result: LookupResult) where D: Fn(Coordinates) -> String
        requires
            forall|c: Coordinates| call_requires(*describe, (c,)),
            now + CACHE_TTL_NANOS <= u128::MAX,
        ensures
            understands(*describe, *reply, result),
            final(self).api_key == old(self).api_key,
            final(self).metadata_url == old(self).metadata_url,
            remembers(old(self).cache@, key, result, now, final(self).cache@),
            old(self).cache.bounded() ==> final(self).cache.bounded(),
    {
        let result = interpret_reply(reply, describe);
        self.cache.remember(key, &result, now);
        result
    }

    /// Whether `action` is to be done next for the lookup of a place under its key,
    /// with `entries` remembered afterwards.
    pub open spec fn goes_on<D>(
        self,
        coordinates: Coordinates,
        key: CacheKey,
        event: LookupEvent,
        describe: D,
        now: u128,
        action: LookupAction,
        entries: Map<u64, CachedLookup>,
    ) -> bool where D: Fn(Coordinates) -> String {
        match event {
            LookupEvent::Requested => {
                let (step, kept) = self.begins(coordinates, key, now);
                &&& entries == kept
                &&& match step {
                    LookupStep::Done(result) => action == LookupAction::Finish(result),
                    LookupStep::Ask => action is Queue,
                }
            },
            LookupEvent::Admitted => {
                let (step, kept) = self.begins(coordinates, key, now);
                &&& entries == kept
                &&& match step {
                    LookupStep::Done(result) => action == LookupAction::Finish(result),
                    LookupStep::Ask => action matches LookupAction::Ask(query) && asks_about(
                        describe,
                        coordinates,
                        self.api_key->0@,
                        query@,
                    ),
                }
            },
            LookupEvent::TurnedAway => {
                &&& entries == self.cache@
                &&& action == LookupAction::Finish(LookupResult::none(LookupStatus::Error))
            },
            LookupEvent::Replied(reply) => {
                &&& action matches LookupAction::Finish(result)
                &&& understands(describe, reply, result)
                &&& remembers(self.cache@, key, result, now, entries)
            },
        }
    }

    /// What is to be done next for a lookup.
    ///
    /// Before its turn and again when its turn has come it is over where it need not
    /// ask, since another lookup of the same place may have ended meanwhile. A lookup
    /// that gets no turn has failed.
    ///
    /// `round` gives latitude and longitude in whole millionths of a degree, under
    /// which results are remembered; `describe` writes them with six decimal places.
    pub fn lookup<K, D>(
        &mut self,
        coordinates: Coordinates,
        event: &LookupEvent,
        round: &K,
        describe: &D,
        now: u128,
    ) -> (action: LookupAction) where
        K: Fn(Coordinates) -> CacheKey,
        D: Fn(Coordinates) -> String,

        requires
            forall|c: Coordinates| call_requires(*round, (c,)),
            forall|c: Coordinates| call_requires(*describe, (c,)),
            now + CACHE_TTL_NANOS <= u128::MAX,
        ensures
            final(self).api_key == old(self).api_key,
            final(self).metadata_url == old(self).metadata_url,
            old(self).cache.bounded() ==> final(self).cache.bounded(),
            exists|key: CacheKey| #[trigger]
                call_ensures(*round, (coordinates,), key) && old(self).goes_on(
                    coordinates,
                    key,
                    *event,
                    *describe,
                    now,
                    action,
                    final(self).cache@,
                ),
    {
        let key = round(coordinates);
        match event {
            LookupEvent::Requested => match self.begin_lookup(coordinates, key, now) {
                LookupStep::Done(result) => LookupAction::Finish(result),
                LookupStep::Ask => LookupAction::Queue,
            },
            LookupEvent::Admitted => match self.begin_lookup(coordinates, key, now) {
                LookupStep::Done(result) => LookupAction::Finish(result),
                LookupStep::Ask => match self.metadata_query(coordinates, describe) {
                    Some(query) => LookupAction::Ask(query),
                    None => LookupAction::Finish(LookupResult::without_url(LookupStatus::Error)),
                },
            },
            LookupEvent::TurnedAway => LookupAction::Finish(
                LookupResult::without_url(LookupStatus::Error),
            ),
            LookupEvent::Replied(reply) => LookupAction::Finish(
                self.finish_lookup(key, reply, describe, now),
            ),
        }
    }
}

/// The result that was reported for a position, the last one where there are
/// several; a failed lookup where there is none.
pub open spec fn reported(joined: Seq<Option<(usize, LookupResult)>>, i: int) -> LookupResult
    decreases joined.len(),
{
    if joined.len() == 0 {
        LookupResult::none(LookupStatus::Error)
    } else {
        match joined.last() {
            Some((index, result)) => if index == i {
                result
            } else {
                reported(joined.drop_last(), i)
            },
            None => reported(joined.drop_last(), i),
        }
    }
}

/// Puts the results of many lookups, which end in any order, in the order in which
/// they were asked for; a lookup that reports nothing has failed.
pub fn collect_results(count: usize, joined: &Vec<Option<(usize, LookupResult)>>) -> (results: Vec<
    LookupResult,
>)
    requires
        forall|j: int|
            0 <= j < joined@.len() ==> (#[trigger] joined@[j] matches Some(entry) ==> entry.0
                < count),
    ensures
        results@.len() == count,
        forall|i: int| 0 <= i < count ==> #[trigger] results@[i] == reported(joined@, i),
{
    let mut results: Vec<LookupResult> = Vec::new();
    let mut n: usize = 0;
    while n < count
        invariant
            n <= count,
            results@.len() == n,
            forall|i: int|
                0 <= i < n ==> #[trigger] results@[i] == LookupResult::none(LookupStatus::Error),
        decreases count - n,
    {
        results.push(LookupResult::without_url(LookupStatus::Error));
        n = n + 1;
    }
    let mut j: usize = 0;
    while j < joined.len()
        invariant
            j <= joined@.len(),
            results@.len() == count,
            forall|m: int|
                0 <= m < joined@.len() ==> (#[trigger] joined@[m] matches Some(entry) ==> entry.0
                    < count),
            forall|i: int|
                0 <= i < count ==> #[trigger] results@[i] == reported(joined@.take(j as int), i),
        decreases joined@.len() - j,
    {
        assert(joined@.take(j + 1).drop_last() =~= joined@.take(j as int));
        assert(joined@.take(j + 1).last() == joined@[j as int]);
        match &joined[j] {
            Some((index, result)) => {
                let copy = result.copy();
                results.set(*index, copy);
            },
            None => {},
        }
        j = j + 1;
    }
    assert(joined@.take(joined@.len() as int) =~= joined@);
    results
}

/// A panorama that was found, or found missing, is not asked for again within 24 hours:
/// a lookup of the same place ends with the same result.
pub proof fn conclusive_lookups_are_not_repeated(
    before: Map<u64, CachedLookup>,
    service: StreetViewService,
    coordinates: Coordinates,
    key: CacheKey,
    result: LookupResult,
    stored_at: u128,
    asked_at: u128,
)
    requires
        stored_at + CACHE_TTL_NANOS <= u128::MAX,
        asked_at < stored_at + CACHE_TTL_NANOS,
        result.conclusive(),
        remembers(before, key, result, stored_at, service.cache@),
        coordinates.valid() && service.enabled(),
    ensures
        service.begins(coordinates, key, asked_at) == (
            LookupStep::Done(result),
            service.cache@,
        ),
{
}

/// A lookup that timed out or failed is not remembered, so that the next one of the
/// same place asks again unless it was remembered before.
pub proof fn failed_lookups_are_not_remembered(
    before: Map<u64, CachedLookup>,
    key: CacheKey,
    result: LookupResult,
    now: u128,
    after: Map<u64, CachedLookup>,
)
    requires
        result.status == LookupStatus::Timeout || result.status == LookupStatus::Error,
        remembers(before, key, result, now, after),
    ensures
        after == before,
{
}

/// A link is given only where the service has confirmed a panorama at a valid place.
pub proof fn links_are_confirmed<D>(describe: D, reply: LookupReply, result: LookupResult) where
    D: Fn(Coordinates) -> String,

    requires
        understands(describe, reply, result),
        result.url is Some,
    ensures
        result.status == LookupStatus::Found,
        reply matches LookupReply::Answer(metadata) && metadata.status@ == "OK"@ && (
        metadata.location matches Some(location) && location.valid()),
{
}

/// A batch preserves the order in which it was asked for: where exactly one lookup
/// reports for a position, its result stands there.
pub proof fn batch_preserves_input_order(
    joined: Seq<Option<(usize, LookupResult)>>,
    j: int,
    index: usize,
    result: LookupResult,
)
    requires
        0 <= j < joined.len(),
        joined[j] == Some((index, result)),
        forall|k: int|
            0 <= k < joined.len() && k != j ==> (#[trigger] joined[k] matches Some(entry) ==> entry.0
                != index),
    ensures
        reported(joined, index as int) == result,
    decreases joined.len(),
{
    if j < joined.len() - 1 {
        let shorter = joined.drop_last();
        assert(joined[joined.len() - 1] == joined.last());
        assert forall|k: int|
            0 <= k < shorter.len() && k != j implies (#[trigger] shorter[k] matches Some(
            entry,
        ) ==> entry.0 != index) by {
            assert(shorter[k] == joined[k]);
        }
        batch_preserves_input_order(shorter, j, index, result);
    }
}

/// Whether everything that has not expired is kept as it was, but for one entry.
pub open spec fn keeps_all_but(
    before: Map<u64, CachedLookup>,
    now: u128,
    after: Map<u64, CachedLookup>,
    lost: u64,
) -> bool {
    forall|k: u64| #[trigger]
        before.dom().contains(k) && before[k].expires_at > now && k != lost
            ==> after.dom().contains(k) && after[k] == before[k]
}

/// Making room loses at most one result that has not expired.
pub proof fn making_room_loses_at_most_one(
    before: Map<u64, CachedLookup>,
    now: u128,
    after: Map<u64, CachedLookup>,
)
    requires
        makes_room(before, now, after),
    ensures
        exists|lost: u64| #[trigger] keeps_all_but(before, now, after, lost),
{
    let live = unexpired(before, now);
    let lost: u64 = if before.len() >= MAX_CACHE_ENTRIES && live.len() >= MAX_CACHE_ENTRIES {
        choose|key: u64| #[trigger] expires_first(live, key) && after == live.remove(key)
    } else {
        0
    };
    assert forall|k: u64| #[trigger]
        before.dom().contains(k) && before[k].expires_at > now && k
            != lost implies after.dom().contains(k) && after[k] == before[k] by {
        assert(live.dom().contains(k));
    }
    assert(keeps_all_but(before, now, after, lost));
}

/// Coordinates are valid exactly where both are finite numbers, the latitude from -90 to
/// 90 degrees and the longitude from -180 to 180 degrees.
pub proof fn valid_coordinates_lie_on_the_globe(c: Coordinates)
    ensures
        c.valid() <==> {
            &&& c.lat.rank() <= (Binary64 { bits: 0x4056_8000_0000_0000 }).rank()
            &&& (Binary64 { bits: 0xc056_8000_0000_0000 }).rank() <= c.lat.rank()
            &&& c.lon.rank() <= (Binary64 { bits: 0x4066_8000_0000_0000 }).rank()
            &&& (Binary64 { bits: 0xc066_8000_0000_0000 }).rank() <= c.lon.rank()
        },
        c.valid() ==> c.lat.finite() && c.lon.finite(),
{
}

/// A conclusive result is remembered under its coordinates for 24 hours, whatever stood
/// there before. Nothing else is added or changed; nothing is lost that has not expired
/// unless 100000 results were remembered, and then what is lost beside those expires no
/// later than anything that is kept.
pub proof fn remembering_adds_one_result(
    before: Map<u64, CachedLookup>,
    key: CacheKey,
    result: LookupResult,
    now: u128,
    after: Map<u64, CachedLookup>,
    k: u64,
)
    requires
        now + 86_400_000_000_000 <= u128::MAX,
        result.status == LookupStatus::Found || result.status == LookupStatus::NotFound,
        remembers(before, key, result, now, after),
    ensures
        after.dom().contains(key.packed()),
        after[key.packed()].result == result,
        after[key.packed()].expires_at == now + 86_400_000_000_000,
        k != key.packed() && after.dom().contains(k) ==> before.dom().contains(k) && after[k]
            == before[k],
        before.len() < 100_000 && before.dom().contains(k) ==> after.dom().contains(k),
        before.len() >= 100_000 && k != key.packed() && after.dom().contains(k)
            ==> before[k].expires_at > now,
        unexpired(before, now).dom().contains(k) <==> before.dom().contains(k)
            && before[k].expires_at > now,
        k != key.packed() && before.dom().contains(k) && before[k].expires_at > now
            && !after.dom().contains(k) ==> {
            &&& before.len() >= 100_000
            &&& unexpired(before, now).len() >= 100_000
            &&& forall|other: u64| #[trigger]
                after.dom().contains(other) && other != key.packed() ==> before[k].expires_at
                    <= after[other].expires_at
        },
{
    let room = choose|room: Map<u64, CachedLookup>| #[trigger]
        makes_room(before, now, room) && after == room.insert(
            key.packed(),
            CachedLookup { result, expires_at: (now + CACHE_TTL_NANOS) as u128 },
        );
    let live = unexpired(before, now);
    if before.len() >= 100_000 {
        if live.len() >= 100_000 {
            let lost = choose|lost: u64| #[trigger]
                expires_first(live, lost) && room == live.remove(lost);
            if k != key.packed() && before.dom().contains(k) && before[k].expires_at > now
                && !after.dom().contains(k) {
                assert(live.dom().contains(k));
                assert(k == lost);
                assert forall|other: u64| #[trigger]
                    after.dom().contains(other) && other != key.packed() implies before[k].expires_at
                    <= after[other].expires_at by {
                    assert(live.dom().contains(other));
                }
            }
        } else if before.dom().contains(k) && before[k].expires_at > now {
            assert(live.dom().contains(k));
        }
    }
}

/// A lookup asks exactly where the coordinates are valid, the service has a key, and no
/// result is remembered that has not expired; a remembered result is given as it is, and
/// in any other case the lookup has failed.
pub proof fn lookups_ask_only_where_needed(
    service: StreetViewService,
    coordinates: Coordinates,
    key: CacheKey,
    now: u128,
)
    ensures
        ({
            let (step, entries) = service.begins(coordinates, key, now);
            let k = key.packed();
            let fresh = service.cache@.dom().contains(k) && service.cache@[k].expires_at > now;
            &&& step is Ask <==> coordinates.valid() && service.api_key is Some && !fresh
            &&& coordinates.valid() && service.api_key is Some && fresh ==> step
                == LookupStep::Done(service.cache@[k].result)
            &&& !coordinates.valid() || service.api_key is None ==> {
                &&& step matches LookupStep::Done(result)
                &&& result.url is None && result.status == LookupStatus::Error
            }
            &&& forall|other: u64|
                other != k ==> (#[trigger] entries.dom().contains(other)
                    <==> service.cache@.dom().contains(other)) && (entries.dom().contains(other)
                    ==> entries[other] == service.cache@[other])
            &&& fresh ==> entries == service.cache@
        }),
{
}

/// Only an answer with status `OK` and a valid location gives a link, which shows that
/// location; one with status `ZERO_RESULTS` says that there is no panorama; no answer in
/// time is a timeout; and anything else is an error.
pub proof fn replies_are_understood<D>(describe: D, reply: LookupReply, result: LookupResult) where
    D: Fn(Coordinates) -> String,

    requires
        understands(describe, reply, result),
    ensures
        result.status == LookupStatus::Found <==> {
            &&& reply matches LookupReply::Answer(metadata)
            &&& metadata.status@ == "OK"@
            &&& metadata.location matches Some(location)
            &&& location.valid()
        },
        result.status == LookupStatus::Found ==> exists|text: String| #[trigger]
            call_ensures(describe, ((reply->Answer_0).location->0,), text) && result.url->0@
                == "https://www.google.com/maps/@?api=1&map_action=pano&viewpoint="@ + text@,
        result.status == LookupStatus::NotFound <==> (reply matches LookupReply::Answer(metadata)
            && metadata.status@ == "ZERO_RESULTS"@),
        result.status == LookupStatus::Timeout <==> reply is TimedOut,
        result.url is Some <==> result.status == LookupStatus::Found,
{
    reveal_strlit("OK");
    reveal_strlit("ZERO_RESULTS");
    assert("OK"@.len() == 2 && "ZERO_RESULTS"@.len() == 12);
    if result.status == LookupStatus::Found {
        lemma_panorama_address();
        let text = choose|text: String| #[trigger]
            call_ensures(describe, ((reply->Answer_0).location->0,), text) && result.url->0@
                == panorama_url(text@);
        assert(result.url->0@
            == "https://www.google.com/maps/@?api=1&map_action=pano&viewpoint="@ + text@);
    }
}

proof fn lemma_panorama_address()
    ensures
        "https://www.google.com/maps/@"@ + "?api=1&map_action=pano&viewpoint="@
            == "https://www.google.com/maps/@?api=1&map_action=pano&viewpoint="@,
{
    reveal_strlit("https://www.google.com/maps/@");
    reveal_strlit("?api=1&map_action=pano&viewpoint=");
    reveal_strlit("https://www.google.com/maps/@?api=1&map_action=pano&viewpoint=");
    assert("https://www.google.com/maps/@"@ + "?api=1&map_action=pano&viewpoint="@
        =~= "https://www.google.com/maps/@?api=1&map_action=pano&viewpoint="@);
}

/// A lookup first waits for its turn and then asks about its own place, unless it need
/// not ask; one that gets no turn fails and changes nothing.
pub proof fn lookups_wait_before_they_ask<D>(
    service: StreetViewService,
    coordinates: Coordinates,
    key: CacheKey,
    event: LookupEvent,
    describe: D,
    now: u128,
    action: LookupAction,
    entries: Map<u64, CachedLookup>,
) where D: Fn(Coordinates) -> String
    requires
        service.goes_on(coordinates, key, event, describe, now, action, entries),
    ensures
        action is Queue ==> event is Requested && service.begins(coordinates, key, now).0 is Ask,
        action is Ask ==> event is Admitted && service.begins(coordinates, key, now).0 is Ask,
        event is Requested && service.begins(coordinates, key, now).0 is Ask ==> action is Queue,
        event is Admitted && service.begins(coordinates, key, now).0 is Ask ==> action is Ask,
        action matches LookupAction::Ask(query) ==> {
            &&& query@.len() == 3
            &&& query@[0].0@ == "location"@ && call_ensures(describe, (coordinates,), query@[0].1)
            &&& query@[1].0@ == "radius"@ && query@[1].1@ == "50"@
            &&& query@[2].0@ == "key"@ && query@[2].1@ == service.api_key->0@
        },
        event is TurnedAway ==> {
            &&& entries == service.cache@
            &&& action matches LookupAction::Finish(result)
            &&& result.url is None && result.status == LookupStatus::Error
        },
        event matches LookupEvent::Replied(reply) ==> {
            &&& action matches LookupAction::Finish(result)
            &&& understands(describe, reply, result)
            &&& result.status == LookupStatus::Timeout || result.status == LookupStatus::Error
                ==> entries == service.cache@
            &&& result.status == LookupStatus::Found || result.status == LookupStatus::NotFound
                ==> entries.dom().contains(key.packed()) && entries[key.packed()].result == result
        },
{
}

/// The last report for a position counts, and a position without a report has failed.
pub proof fn the_last_report_counts(joined: Seq<Option<(usize, LookupResult)>>, i: int, j: int)
    ensures
        (forall|k: int|
            0 <= k < joined.len() ==> (#[trigger] joined[k] matches Some(entry) ==> entry.0 != i))
            ==> reported(joined, i).url is None && reported(joined, i).status
            == LookupStatus::Error,
        0 <= j < joined.len() && joined[j] is Some && (joined[j]->0).0 == i && (forall|k: int|
            j < k < joined.len() ==> (#[trigger] joined[k] matches Some(entry) ==> entry.0 != i))
            ==> reported(joined, i) == (joined[j]->0).1,
    decreases joined.len(),
{
    if joined.len() > 0 {
        let n = joined.len() - 1;
        let fewer = joined.drop_last();
        assert(joined[n] == joined.last());
        the_last_report_counts(fewer, i, j);
        assert(forall|k: int| 0 <= k < n ==> #[trigger] fewer[k] == joined[k]);
        assert(forall|k: int| 0 <= k < n ==> #[trigger] joined[k] == fewer[k]);
    }
}

} // verus!
