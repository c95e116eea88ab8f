//! What the tags of a map object say about drinking water and places.

use vstd::prelude::*;

use crate::text::{has_prefix, same_text, trim, trimmed};
use crate::types::{OsmElementType, OsmPlace, OsmWaterPoint, RoutePoint};

verus! {

/// The last value that the tags give for a key.
pub open spec fn last_value(tags: Seq<(&str, &str)>, key: Seq<char>) -> Option<Seq<char>>
    decreases tags.len(),
{
    if tags.len() == 0 {
        None
    } else if tags.last().0@ == key {
        Some(tags.last().1@)
    } else {
        last_value(tags.drop_last(), key)
    }
}

/// Whether the tags say that there is drinking water: a drinking water point, or
/// toilets where drinking water is confirmed.
pub open spec fn has_drinking_water(tags: Seq<(&str, &str)>) -> bool {
    let amenity = last_value(tags, "amenity"@);
    ||| amenity == Some("drinking_water"@)
    ||| amenity == Some("toilets"@) && last_value(tags, "drinking_water"@) == Some("yes"@)
}

/// Whether an optional text is the given one.
pub open spec fn text_is(text: Option<String>, expected: Option<Seq<char>>) -> bool {
    match text {
        Some(t) => expected == Some(t@),
        None => expected is None,
    }
}

fn is_value(value: Option<&str>, expected: &str) -> (b: bool)
    ensures
        b == (value matches Some(v) && v@ == expected@),
{
    match value {
        Some(v) => same_text(v, expected),
        None => false,
    }
}

/// The name of an object with drinking water, which may be missing; nothing where
/// there is no drinking water.
pub fn qualifying_water_name(tags: &[(&str, &str)]) -> (name: Option<Option<String>>)
    ensures
        match name {
            Some(n) => has_drinking_water(tags@) && text_is(n, last_value(tags@, "name"@)),
            None => !has_drinking_water(tags@),
        },
        name is Some <==> tagged(tags@, "amenity"@, "drinking_water"@) || (tagged(
            tags@,
            "amenity"@,
            "toilets"@,
        ) && tagged(tags@, "drinking_water"@, "yes"@)),
{
    proof {
        reveal_strlit("amenity");
        reveal_strlit("drinking_water");
        reveal_strlit("name");
        assert("amenity"@.len() == 7);
        assert("drinking_water"@.len() == 14);
        assert("name"@.len() == 4);
    }
    let mut amenity: Option<&str> = None;
    let mut drinking_water: Option<&str> = None;
    let mut name: Option<&str> = None;
    let mut i: usize = 0;
    while i < tags.len()
        invariant
            i <= tags@.len(),
            "amenity"@.len() == 7,
            "drinking_water"@.len() == 14,
            "name"@.len() == 4,
            match amenity {
                Some(v) => last_value(tags@.take(i as int), "amenity"@) == Some(v@),
                None => last_value(tags@.take(i as int), "amenity"@) is None,
            },
            match drinking_water {
                Some(v) => last_value(tags@.take(i as int), "drinking_water"@) == Some(v@),
                None => last_value(tags@.take(i as int), "drinking_water"@) is None,
            },
            match name {
                Some(v) => last_value(tags@.take(i as int), "name"@) == Some(v@),
                None => last_value(tags@.take(i as int), "name"@) is None,
            },
        decreases tags@.len() - i,
    {
        let (key, value) = tags[i];
        assert(tags@.take(i + 1).drop_last() =~= tags@.take(i as int));
        assert(tags@.take(i + 1).last() == tags@[i as int]);
        if same_text(key, "amenity") {
            amenity = Some(value);
        } else if same_text(key, "drinking_water") {
            drinking_water = Some(value);
        } else if same_text(key, "name") {
            name = Some(value);
        }
        i = i + 1;
    }
    assert(tags@.take(tags@.len() as int) =~= tags@);
    proof {
        only_taps_and_confirmed_toilets_have_water(tags@);
    }
    if is_value(amenity, "drinking_water") || (is_value(amenity, "toilets") && is_value(
        drinking_water,
        "yes",
    )) {
        match name {
            Some(n) => Some(Some(n.to_owned())),
            None => Some(None),
        }
    } else {
        None
    }
}

/// Whether `water` is the water point at a node with the given tags.
pub open spec fn describes_water(
    water: OsmWaterPoint,
    osm_id: i64,
    point: RoutePoint,
    tags: Seq<(&str, &str)>,
) -> bool {
    &&& water.osm_type == OsmElementType::Node
    &&& water.osm_id == osm_id
    &&& water.lat == point.lat && water.lon == point.lon
    &&& text_is(water.name, last_value(tags, "name"@))
}

/// The water point at a node with the given tags.
pub fn water_point_from_parts(osm_id: i64, point: RoutePoint, tags: &[(&str, &str)]) -> (found:
    Option<OsmWaterPoint>)
    ensures
        match found {
            Some(water) => has_drinking_water(tags@) && describes_water(
                water,
                osm_id,
                point,
                tags@,
            ),
            None => !has_drinking_water(tags@),
        },
{
    match qualifying_water_name(tags) {
        Some(name) => Some(
            OsmWaterPoint {
                osm_type: OsmElementType::Node,
                osm_id,
                lat: point.lat,
                lon: point.lon,
                name,
            },
        ),
        None => None,
    }
}

/// Whether a kind of place is searched for.
pub open spec fn searched_place(value: Seq<char>) -> bool {
    value == "city"@ || value == "town"@ || value == "village"@ || value == "hamlet"@
}

/// The last kind of place that the tags give and that is searched for.
pub open spec fn place_kind(tags: Seq<(&str, &str)>) -> Option<Seq<char>>
    decreases tags.len(),
{
    if tags.len() == 0 {
        None
    } else if tags.last().0@ == "place"@ && searched_place(tags.last().1@) {
        Some(tags.last().1@)
    } else {
        place_kind(tags.drop_last())
    }
}

/// The kind of a place is always one that is searched for.
pub proof fn place_kinds_are_searched(tags: Seq<(&str, &str)>)
    ensures
        place_kind(tags) matches Some(kind) ==> searched_place(kind),
    decreases tags.len(),
{
    if tags.len() > 0 {
        place_kinds_are_searched(tags.drop_last());
    }
}

/// Whether a key gives another name for a place.
pub open spec fn alias_key(key: Seq<char>) -> bool {
    key == "alt_name"@ || key == "official_name"@ || key == "name:en"@ || key == "name:fr"@
}

/// A text with the other names of the tags behind it, each after a space.
pub open spec fn with_aliases(text: Seq<char>, tags: Seq<(&str, &str)>) -> Seq<char>
    decreases tags.len(),
{
    if tags.len() == 0 {
        text
    } else {
        let before = with_aliases(text, tags.drop_last());
        let alias = trimmed(tags.last().1@);
        if alias_key(tags.last().0@) && alias.len() > 0 {
            before + " "@ + alias
        } else {
            before
        }
    }
}

/// The name of a place, without the white space around it; nothing where none is
/// left.
pub open spec fn place_name(tags: Seq<(&str, &str)>) -> Option<Seq<char>> {
    match last_value(tags, "name"@) {
        Some(name) => if trimmed(name).len() > 0 {
            Some(trimmed(name))
        } else {
            None
        },
        None => None,
    }
}

/// Whether the tags give a named place that is searched for.
pub open spec fn has_place(tags: Seq<(&str, &str)>) -> bool {
    place_name(tags) is Some && place_kind(tags) is Some
}

/// Whether `place` is the place at a node with the given tags.
pub open spec fn describes_place(
    place: OsmPlace,
    osm_id: i64,
    point: RoutePoint,
    tags: Seq<(&str, &str)>,
) -> bool {
    &&& place.osm_id == osm_id
    &&& place.lat == point.lat && place.lon == point.lon
    &&& place_name(tags) == Some(place.name@)
    &&& place_kind(tags) == Some(place.place_type@)
    &&& place.search_text@ == with_aliases(place.name@, tags)
}

fn is_searched_place(value: &str) -> (b: bool)
    ensures
        b == searched_place(value@),
{
    same_text(value, "city") || same_text(value, "town") || same_text(value, "village")
        || same_text(value, "hamlet")
}

fn is_alias_key(key: &str) -> (b: bool)
    ensures
        b == alias_key(key@),
{
    same_text(key, "alt_name") || same_text(key, "official_name") || same_text(key, "name:en")
        || same_text(key, "name:fr")
}

/// Appends the other names of the tags, each after a space.
fn push_aliases(text: &mut String, tags: &[(&str, &str)])
    ensures
        final(text)@ == with_aliases(old(text)@, tags@),
{
    let ghost start = text@;
    let mut i: usize = 0;
    while i < tags.len()
        invariant
            i <= tags@.len(),
            text@ == with_aliases(start, tags@.take(i as int)),
        decreases tags@.len() - i,
    {
        let (key, value) = tags[i];
        assert(tags@.take(i + 1).drop_last() =~= tags@.take(i as int));
        assert(tags@.take(i + 1).last() == tags@[i as int]);
        if is_alias_key(key) {
            let alias = trim(value);
            if !alias.as_str().is_empty() {
                text.append(" ");
                text.append(alias.as_str());
            }
        }
        i = i + 1;
    }
    assert(tags@.take(tags@.len() as int) =~= tags@);
}

/// The named place at a node with the given tags.
///
/// Cities, towns, villages and hamlets count. The text to search holds the name
/// and then the other names in the order of the tags.
pub fn place_from_parts(osm_id: i64, point: RoutePoint, tags: &[(&str, &str)]) -> (found: Option<
    OsmPlace,
>)
    ensures
        match found {
            Some(place) => has_place(tags@) && describes_place(place, osm_id, point, tags@),
            None => !has_place(tags@),
        },
{
    let mut kind: Option<&str> = None;
    let mut name: Option<&str> = None;
    proof {
        reveal_strlit("place");
        reveal_strlit("name");
        assert("place"@.len() == 5);
        assert("name"@.len() == 4);
    }
    let mut i: usize = 0;
    while i < tags.len()
        invariant
            i <= tags@.len(),
            "place"@.len() == 5,
            "name"@.len() == 4,
            match kind {
                Some(v) => place_kind(tags@.take(i as int)) == Some(v@),
                None => place_kind(tags@.take(i as int)) is None,
            },
            match name {
                Some(v) => last_value(tags@.take(i as int), "name"@) == Some(v@),
                None => last_value(tags@.take(i as int), "name"@) is None,
            },
        decreases tags@.len() - i,
    {
        let (key, value) = tags[i];
        assert(tags@.take(i + 1).drop_last() =~= tags@.take(i as int));
        assert(tags@.take(i + 1).last() == tags@[i as int]);
        if same_text(key, "place") {
            if is_searched_place(value) {
                kind = Some(value);
            }
        } else if same_text(key, "name") {
            name = Some(value);
        }
        i = i + 1;
    }
    assert(tags@.take(tags@.len() as int) =~= tags@);
    match (name, kind) {
        (Some(raw_name), Some(place_type)) => {
            let name = trim(raw_name);
            if name.as_str().is_empty() {
                return None;
            }
            let mut search_text = name.clone();
            push_aliases(&mut search_text, tags);
            Some(
                OsmPlace {
                    osm_id,
                    name,
                    place_type: place_type.to_owned(),
                    lat: point.lat,
                    lon: point.lon,
                    search_text,
                },
            )
        },
        _ => None,
    }
}

/// Whether `part` stands somewhere in `text`.
pub open spec fn holds(text: Seq<char>, part: Seq<char>) -> bool {
    exists|at: int|
        0 <= at && at + part.len() <= text.len() && #[trigger] text.subrange(at, at + part.len())
            == part
}

/// The text to search of a place begins with its name.
pub proof fn search_text_begins_with_name(name: Seq<char>, tags: Seq<(&str, &str)>)
    ensures
        has_prefix(with_aliases(name, tags), name),
    decreases tags.len(),
{
    if tags.len() > 0 {
        search_text_begins_with_name(name, tags.drop_last());
        let before = with_aliases(name, tags.drop_last());
        let after = with_aliases(name, tags);
        assert(after.subrange(0, before.len() as int) =~= before);
        assert(after.subrange(0, name.len() as int) =~= before.subrange(0, name.len() as int));
    } else {
        assert(name.subrange(0, name.len() as int) =~= name);
    }
}

/// The text to search of a place holds every other name of the place.
pub proof fn search_text_holds_every_alias(name: Seq<char>, tags: Seq<(&str, &str)>, i: int)
    requires
        0 <= i < tags.len(),
        alias_key(tags[i].0@),
        trimmed(tags[i].1@).len() > 0,
    ensures
        holds(with_aliases(name, tags), trimmed(tags[i].1@)),
    decreases tags.len(),
{
    let alias = trimmed(tags[i].1@);
    let before = with_aliases(name, tags.drop_last());
    let after = with_aliases(name, tags);
    if i == tags.len() - 1 {
        let at = after.len() - alias.len();
        assert(after.subrange(at, at + alias.len()) =~= alias);
    } else {
        search_text_holds_every_alias(name, tags.drop_last(), i);
        let at = choose|at: int|
            0 <= at && at + alias.len() <= before.len() && #[trigger] before.subrange(
                at,
                at + alias.len(),
            ) == alias;
        assert(after.subrange(at, at + alias.len()) =~= before.subrange(at, at + alias.len()));
    }
}

/// Whether the last tag of a key gives a value.
pub open spec fn tagged(tags: Seq<(&str, &str)>, key: Seq<char>, value: Seq<char>) -> bool {
    exists|i: int|
        {
            &&& 0 <= i < tags.len()
            &&& (#[trigger] tags[i]).0@ == key && tags[i].1@ == value
            &&& forall|j: int| i < j < tags.len() ==> (#[trigger] tags[j]).0@ != key
        }
}

/// The value of a key is that of its last tag, and it is missing only where no tag has
/// the key.
pub proof fn the_last_tag_of_a_key_counts(tags: Seq<(&str, &str)>, key: Seq<char>)
    ensures
        forall|value: Seq<char>|
            (last_value(tags, key) == Some(value)) == #[trigger] tagged(tags, key, value),
        last_value(tags, key) is None <==> forall|i: int|
            0 <= i < tags.len() ==> (#[trigger] tags[i]).0@ != key,
    decreases tags.len(),
{
    if tags.len() > 0 {
        let fewer = tags.drop_last();
        let n = tags.len() - 1;
        assert(tags[n] == tags.last());
        the_last_tag_of_a_key_counts(fewer, key);
        assert forall|value: Seq<char>|
            (last_value(tags, key) == Some(value)) == #[trigger] tagged(tags, key, value) by {
            if tags[n].0@ == key {
                if last_value(tags, key) == Some(value) {
                    assert(tags[n].1@ == value);
                }
                if tagged(tags, key, value) {
                    let i = choose|i: int|
                        {
                            &&& 0 <= i < tags.len()
                            &&& (#[trigger] tags[i]).0@ == key && tags[i].1@ == value
                            &&& forall|j: int| i < j < tags.len() ==> (#[trigger] tags[j]).0@ != key
                        };
                    assert(i == n);
                }
            } else {
                assert(tagged(fewer, key, value) == tagged(tags, key, value)) by {
                    if tagged(fewer, key, value) {
                        let i = choose|i: int|
                            {
                                &&& 0 <= i < fewer.len()
                                &&& (#[trigger] fewer[i]).0@ == key && fewer[i].1@ == value
                                &&& forall|j: int|
                                    i < j < fewer.len() ==> (#[trigger] fewer[j]).0@ != key
                            };
                        assert(tags[i] == fewer[i]);
                        assert forall|j: int| i < j < tags.len() implies (
                        #[trigger] tags[j]).0@ != key by {
                            if j < n {
                                assert(fewer[j] == tags[j]);
                            }
                        }
                    }
                    if tagged(tags, key, value) {
                        let i = choose|i: int|
                            {
                                &&& 0 <= i < tags.len()
                                &&& (#[trigger] tags[i]).0@ == key && tags[i].1@ == value
                                &&& forall|j: int|
                                    i < j < tags.len() ==> (#[trigger] tags[j]).0@ != key
                            };
                        assert(fewer[i] == tags[i]);
                        assert forall|j: int| i < j < fewer.len() implies (
                        #[trigger] fewer[j]).0@ != key by {
                            assert(fewer[j] == tags[j]);
                        }
                    }
                }
            }
        }
        if last_value(tags, key) is None {
            assert forall|i: int| 0 <= i < tags.len() implies (#[trigger] tags[i]).0@ != key by {
                if i < n {
                    assert(fewer[i] == tags[i]);
                }
            }
        } else if tags[n].0@ != key {
            let i = choose|i: int| 0 <= i < fewer.len() && (#[trigger] fewer[i]).0@ == key;
            assert(tags[i] == fewer[i]);
        }
    } else {
        assert forall|value: Seq<char>| !(#[trigger] tagged(tags, key, value)) by {}
    }
}

/// An object tagged as a drinking water point always has drinking water, toilets have
/// it exactly where it is confirmed, and no other object has it, whatever else its
/// tags say.
pub proof fn only_taps_and_confirmed_toilets_have_water(tags: Seq<(&str, &str)>)
    ensures
        tagged(tags, "amenity"@, "drinking_water"@) ==> has_drinking_water(tags),
        tagged(tags, "amenity"@, "toilets"@) ==> (has_drinking_water(tags) <==> tagged(
            tags,
            "drinking_water"@,
            "yes"@,
        )),
        !tagged(tags, "amenity"@, "drinking_water"@) && !tagged(tags, "amenity"@, "toilets"@)
            ==> !has_drinking_water(tags),
        (forall|i: int| 0 <= i < tags.len() ==> (#[trigger] tags[i]).0@ != "amenity"@)
            ==> !has_drinking_water(tags),
{
    the_last_tag_of_a_key_counts(tags, "amenity"@);
    the_last_tag_of_a_key_counts(tags, "drinking_water"@);
    assert(tagged(tags, "amenity"@, "drinking_water"@) == (last_value(tags, "amenity"@) == Some(
        "drinking_water"@,
    )));
    assert(tagged(tags, "amenity"@, "toilets"@) == (last_value(tags, "amenity"@) == Some(
        "toilets"@,
    )));
    assert(tagged(tags, "drinking_water"@, "yes"@) == (last_value(tags, "drinking_water"@) == Some(
        "yes"@,
    )));
    reveal_strlit("toilets");
    reveal_strlit("drinking_water");
    assert("toilets"@.len() == 7);
    assert("drinking_water"@.len() == 14);
}

/// Tags with other keys than these four change nothing about the drinking water and
/// its name.
pub proof fn other_tags_do_not_matter_for_water(
    before: Seq<(&str, &str)>,
    tag: (&str, &str),
    after: Seq<(&str, &str)>,
)
    requires
        tag.0@ != "amenity"@ && tag.0@ != "drinking_water"@ && tag.0@ != "name"@,
    ensures
        has_drinking_water(before.push(tag) + after) == has_drinking_water(before + after),
        last_value(before.push(tag) + after, "name"@) == last_value(before + after, "name"@),
{
    lemma_other_tag(before, tag, after, "amenity"@);
    lemma_other_tag(before, tag, after, "drinking_water"@);
    lemma_other_tag(before, tag, after, "name"@);
}

proof fn lemma_other_tag(
    before: Seq<(&str, &str)>,
    tag: (&str, &str),
    after: Seq<(&str, &str)>,
    key: Seq<char>,
)
    requires
        tag.0@ != key,
    ensures
        last_value(before.push(tag) + after, key) == last_value(before + after, key),
    decreases after.len(),
{
    let with = before.push(tag) + after;
    let without = before + after;
    if after.len() == 0 {
        assert(with.drop_last() =~= before);
        assert(without =~= before);
        assert(with.last() == tag);
    } else {
        assert(with.drop_last() =~= before.push(tag) + after.drop_last());
        assert(without.drop_last() =~= before + after.drop_last());
        assert(with.last() == after.last() && without.last() == after.last());
        lemma_other_tag(before, tag, after.drop_last(), key);
    }
}

/// A water point lies where its node lies and has the identifier and the name of the
/// node.
pub proof fn water_points_keep_their_node(
    water: OsmWaterPoint,
    osm_id: i64,
    point: RoutePoint,
    tags: Seq<(&str, &str)>,
)
    requires
        describes_water(water, osm_id, point, tags),
    ensures
        water.osm_type == OsmElementType::Node,
        water.osm_id == osm_id,
        water.lat == point.lat,
        water.lon == point.lon,
        match water.name {
            Some(name) => tagged(tags, "name"@, name@),
            None => forall|i: int| 0 <= i < tags.len() ==> (#[trigger] tags[i]).0@ != "name"@,
        },
{
    the_last_tag_of_a_key_counts(tags, "name"@);
    match water.name {
        Some(name) => assert(tagged(tags, "name"@, name@) == (last_value(tags, "name"@) == Some(
            name@,
        ))),
        None => {},
    }
}

/// Whether the last tag that gives a city, a town, a village or a hamlet gives `kind`.
pub open spec fn placed(tags: Seq<(&str, &str)>, kind: Seq<char>) -> bool {
    exists|i: int|
        {
            &&& 0 <= i < tags.len()
            &&& (#[trigger] tags[i]).0@ == "place"@ && tags[i].1@ == kind
            &&& kind == "city"@ || kind == "town"@ || kind == "village"@ || kind == "hamlet"@
            &&& forall|j: int|
                i < j < tags.len() ==> (#[trigger] tags[j]).0@ != "place"@ || !(tags[j].1@
                    == "city"@ || tags[j].1@ == "town"@ || tags[j].1@ == "village"@ || tags[j].1@
                    == "hamlet"@)
        }
}

/// The kind of a place is given by the last tag for a city, a town, a village or a
/// hamlet, and it is missing only where there is no such tag.
pub proof fn the_last_kind_of_place_counts(tags: Seq<(&str, &str)>)
    ensures
        forall|kind: Seq<char>| (place_kind(tags) == Some(kind)) == #[trigger] placed(tags, kind),
        place_kind(tags) is None <==> forall|i: int|
            0 <= i < tags.len() ==> (#[trigger] tags[i]).0@ != "place"@ || !(tags[i].1@ == "city"@
                || tags[i].1@ == "town"@ || tags[i].1@ == "village"@ || tags[i].1@ == "hamlet"@),
    decreases tags.len(),
{
    if tags.len() > 0 {
        let fewer = tags.drop_last();
        let n = tags.len() - 1;
        let last = tags[n];
        assert(tags[n] == tags.last());
        the_last_kind_of_place_counts(fewer);
        let counts = last.0@ == "place"@ && (last.1@ == "city"@ || last.1@ == "town"@ || last.1@
            == "village"@ || last.1@ == "hamlet"@);
        assert(counts ==> place_kind(tags) == Some(last.1@));
        assert(!counts ==> place_kind(tags) == place_kind(fewer));
        assert forall|kind: Seq<char>|
            (place_kind(tags) == Some(kind)) == #[trigger] placed(tags, kind) by {
            if counts {
                if kind == last.1@ {
                    assert(tags[n].1@ == kind);
                    assert(placed(tags, kind));
                }
            } else {
                if placed(fewer, kind) {
                    let i = choose|i: int|
                        {
                            &&& 0 <= i < fewer.len()
                            &&& (#[trigger] fewer[i]).0@ == "place"@ && fewer[i].1@ == kind
                            &&& kind == "city"@ || kind == "town"@ || kind == "village"@ || kind
                                == "hamlet"@
                            &&& forall|j: int|
                                i < j < fewer.len() ==> (#[trigger] fewer[j]).0@ != "place"@ || !(
                                fewer[j].1@ == "city"@ || fewer[j].1@ == "town"@ || fewer[j].1@
                                    == "village"@ || fewer[j].1@ == "hamlet"@)
                        };
                    assert(tags[i] == fewer[i]);
                    assert forall|j: int| i < j < tags.len() implies (#[trigger] tags[j]).0@
                        != "place"@ || !(tags[j].1@ == "city"@ || tags[j].1@ == "town"@
                        || tags[j].1@ == "village"@ || tags[j].1@ == "hamlet"@) by {
                        if j < n {
                            assert(fewer[j] == tags[j]);
                        }
                    }
                    assert(placed(tags, kind));
                }
                if placed(tags, kind) {
                    let i = choose|i: int|
                        {
                            &&& 0 <= i < tags.len()
                            &&& (#[trigger] tags[i]).0@ == "place"@ && tags[i].1@ == kind
                            &&& kind == "city"@ || kind == "town"@ || kind == "village"@ || kind
                                == "hamlet"@
                            &&& forall|j: int|
                                i < j < tags.len() ==> (#[trigger] tags[j]).0@ != "place"@ || !(
                                tags[j].1@ == "city"@ || tags[j].1@ == "town"@ || tags[j].1@
                                    == "village"@ || tags[j].1@ == "hamlet"@)
                        };
                    assert(fewer[i] == tags[i]);
                    assert forall|j: int| i < j < fewer.len() implies (#[trigger] fewer[j]).0@
                        != "place"@ || !(fewer[j].1@ == "city"@ || fewer[j].1@ == "town"@
                        || fewer[j].1@ == "village"@ || fewer[j].1@ == "hamlet"@) by {
                        assert(fewer[j] == tags[j]);
                    }
                    assert(placed(fewer, kind));
                }
            }
        }
        if place_kind(tags) is None {
            assert forall|i: int| 0 <= i < tags.len() implies (#[trigger] tags[i]).0@ != "place"@
                || !(tags[i].1@ == "city"@ || tags[i].1@ == "town"@ || tags[i].1@ == "village"@
                || tags[i].1@ == "hamlet"@) by {
                if i < n {
                    assert(fewer[i] == tags[i]);
                }
            }
        } else if !counts {
            let i = choose|i: int|
                0 <= i < fewer.len() && !((#[trigger] fewer[i]).0@ != "place"@ || !(fewer[i].1@
                    == "city"@ || fewer[i].1@ == "town"@ || fewer[i].1@ == "village"@
                    || fewer[i].1@ == "hamlet"@));
            assert(tags[i] == fewer[i]);
        }
    } else {
        assert forall|kind: Seq<char>| !(#[trigger] placed(tags, kind)) by {}
    }
}

/// The text to search is made tag by tag: the other names of a list of tags follow
/// those of the tags before it; one tag adds a space and its value if its key is that
/// of another name and something is left of the value without the white space around
/// it, and nothing otherwise.
pub proof fn search_texts_grow_tag_by_tag(
    text: Seq<char>,
    before: Seq<(&str, &str)>,
    after: Seq<(&str, &str)>,
    tag: (&str, &str),
)
    ensures
        with_aliases(text, Seq::empty()) == text,
        with_aliases(text, before + after) == with_aliases(with_aliases(text, before), after),
        with_aliases(text, seq![tag]) == if (tag.0@ == "alt_name"@ || tag.0@ == "official_name"@
            || tag.0@ == "name:en"@ || tag.0@ == "name:fr"@) && trimmed(tag.1@).len() > 0 {
            text + " "@ + trimmed(tag.1@)
        } else {
            text
        },
    decreases after.len(),
{
    assert(seq![tag].drop_last() =~= Seq::empty());
    assert(seq![tag].last() == tag);
    reveal_with_fuel(with_aliases, 2);
    if after.len() == 0 {
        assert(before + after =~= before);
    } else {
        assert((before + after).drop_last() =~= before + after.drop_last());
        search_texts_grow_tag_by_tag(text, before, after.drop_last(), tag);
    }
}

/// A place lies where its node lies and has the identifier, the trimmed name and the
/// kind of the node; its text to search begins with the name.
pub proof fn places_keep_their_node(
    place: OsmPlace,
    osm_id: i64,
    point: RoutePoint,
    tags: Seq<(&str, &str)>,
)
    requires
        has_place(tags),
        describes_place(place, osm_id, point, tags),
    ensures
        place.osm_id == osm_id,
        place.lat == point.lat,
        place.lon == point.lon,
        place.name@.len() > 0,
        exists|name: Seq<char>| #[trigger]
            tagged(tags, "name"@, name) && place.name@ == trimmed(name),
        placed(tags, place.place_type@),
        place.search_text@ == with_aliases(place.name@, tags),
{
    the_last_tag_of_a_key_counts(tags, "name"@);
    the_last_kind_of_place_counts(tags);
    let name = last_value(tags, "name"@)->0;
    assert(tagged(tags, "name"@, name));
    assert(placed(tags, place.place_type@) == (place_kind(tags) == Some(place.place_type@)));
}

/// A node gives a place exactly where its last name has more than white space and some
/// tag gives a city, a town, a village or a hamlet.
pub proof fn named_settlements_are_places(tags: Seq<(&str, &str)>)
    ensures
        has_place(tags) <==> {
            &&& exists|name: Seq<char>| #[trigger]
                tagged(tags, "name"@, name) && trimmed(name).len() > 0
            &&& exists|kind: Seq<char>| #[trigger] placed(tags, kind)
        },
{
    the_last_tag_of_a_key_counts(tags, "name"@);
    the_last_kind_of_place_counts(tags);
    if has_place(tags) {
        let name = last_value(tags, "name"@)->0;
        assert(tagged(tags, "name"@, name) && trimmed(name).len() > 0);
        assert(placed(tags, place_kind(tags)->0));
    }
}

/// Cities, towns, villages and hamlets are searched for, and nothing else.
pub proof fn four_kinds_of_places_are_searched(kind: Seq<char>)
    ensures
        searched_place(kind) <==> kind == "city"@ || kind == "town"@ || kind == "village"@ || kind
            == "hamlet"@,
{
}

} // verus!
