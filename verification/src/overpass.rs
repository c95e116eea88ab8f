//! Drinking water from the Overpass service.

use vstd::prelude::*;

use crate::binary64::Binary64;
use crate::text::{chars_of, copy_text, same_text, text_of};
use crate::types::{BBox, OsmElementType, OsmWaterPoint};

verus! {

/// How many characters of a refusal are shown.
pub const PREVIEW_CHARS: usize = 500;

/// An element of an Overpass answer.
#[derive(Debug)]
pub struct OverpassElement {
    pub kind: String,
    pub id: i64,
    pub lat: Option<Binary64>,
    pub lon: Option<Binary64>,
    pub tags: Option<OverpassTags>,
}

/// The tags of an element that count.
#[derive(Debug)]
pub struct OverpassTags {
    pub amenity: Option<String>,
    pub name: Option<String>,
}

/// The query for drinking water within four sides that are written out.
pub open spec fn query_within(
    south: Seq<char>,
    west: Seq<char>,
    north: Seq<char>,
    east: Seq<char>,
) -> Seq<char> {
    "[out:json][timeout:25];\nnode[\"amenity\"=\"drinking_water\"]("@ + south + ","@ + west + ","@
        + north + ","@ + east + ");\nout body;"@
}

/// Whether `query` asks for drinking water within a box. `write` writes a number.
pub open spec fn queries<W>(write: W, bbox: BBox, query: Seq<char>) -> bool where
    W: Fn(Binary64) -> String,
 {
    exists|south: String, west: String, north: String, east: String|
        {
            &&& #[trigger] call_ensures(write, (bbox.min_lat,), south)
            &&& #[trigger] call_ensures(write, (bbox.min_lon,), west)
            &&& #[trigger] call_ensures(write, (bbox.max_lat,), north)
            &&& #[trigger] call_ensures(write, (bbox.max_lon,), east)
            &&& query == query_within(south@, west@, north@, east@)
        }
}

/// The query for drinking water within a box. `write` writes a number.
pub fn drinking_water_query<W>(bbox: BBox, write: &W) -> (query: String) where
    W: Fn(Binary64) -> String,

    requires
        forall|v: Binary64| call_requires(*write, (v,)),
    ensures
        queries(*write, bbox, query@),
{
    let south = write(bbox.min_lat);
    let west = write(bbox.min_lon);
    let north = write(bbox.max_lat);
    let east = write(bbox.max_lon);
    let mut query = "[out:json][timeout:25];\nnode[\"amenity\"=\"drinking_water\"](".to_owned();
    query.append(south.as_str());
    query.append(",");
    query.append(west.as_str());
    query.append(",");
    query.append(north.as_str());
    query.append(",");
    query.append(east.as_str());
    query.append(");\nout body;");
    query
}

impl OverpassElement {
    /// Whether the element is a node of explicit drinking water with a place.
    pub open spec fn is_drinking_water(self) -> bool {
        &&& self.kind@ == "node"@
        &&& self.tags matches Some(tags) && (tags.amenity matches Some(amenity) && amenity@
            == "drinking_water"@)
        &&& self.lat is Some && self.lon is Some
    }

    /// Whether `water` is the water point that the element stands for.
    pub open spec fn stands_for(self, water: OsmWaterPoint) -> bool {
        &&& water.osm_type == OsmElementType::Node
        &&& water.osm_id == self.id
        &&& self.lat == Some(water.lat) && self.lon == Some(water.lon)
        &&& self.tags matches Some(tags) && water.name == tags.name
    }
}

/// The positions of the elements with drinking water, in order.
pub open spec fn water_positions(elements: Seq<OverpassElement>) -> Seq<int>
    decreases elements.len(),
{
    if elements.len() == 0 {
        Seq::empty()
    } else {
        let rest = water_positions(elements.drop_last());
        if elements.last().is_drinking_water() {
            rest.push(elements.len() - 1)
        } else {
            rest
        }
    }
}

fn water_point_of(element: &OverpassElement) -> (water: Option<OsmWaterPoint>)
    ensures
        match water {
            Some(w) => element.is_drinking_water() && element.stands_for(w),
            None => !element.is_drinking_water(),
        },
{
    if !same_text(element.kind.as_str(), "node") {
        return None;
    }
    match &element.tags {
        None => None,
        Some(tags) => match &tags.amenity {
            None => None,
            Some(amenity) => {
                if !same_text(amenity.as_str(), "drinking_water") {
                    return None;
                }
                match (element.lat, element.lon) {
                    (Some(lat), Some(lon)) => Some(
                        OsmWaterPoint {
                            osm_type: OsmElementType::Node,
                            osm_id: element.id,
                            lat,
                            lon,
                            name: copy_text(&tags.name),
                        },
                    ),
                    _ => None,
                }
            },
        },
    }
}

/// The drinking water points of an answer, in its order.
pub fn parse_overpass_response(elements: &Vec<OverpassElement>) -> (points: Vec<OsmWaterPoint>)
    ensures
        points@.len() == water_positions(elements@).len(),
        forall|k: int|
            0 <= k < points@.len() ==> elements@[water_positions(elements@)[k]].stands_for(
                #[trigger] points@[k],
            ),
        points@.len() <= elements@.len(),
{
    let mut points: Vec<OsmWaterPoint> = Vec::new();
    let mut i: usize = 0;
    while i < elements.len()
        invariant
            i <= elements@.len(),
            points@.len() == water_positions(elements@.take(i as int)).len(),
            points@.len() <= i,
            forall|k: int|
                0 <= k < points@.len() ==> elements@[water_positions(
                    elements@.take(i as int),
                )[k]].stands_for(#[trigger] points@[k]),
        decreases elements@.len() - i,
    {
        assert(elements@.take(i + 1).drop_last() =~= elements@.take(i as int));
        assert(elements@.take(i + 1).last() == elements@[i as int]);
        match water_point_of(&elements[i]) {
            Some(water) => {
                points.push(water);
            },
            None => {},
        }
        i = i + 1;
    }
    assert(elements@.take(elements@.len() as int) =~= elements@);
    points
}

/// The beginning of the text of a refusal.
pub fn preview(body: &str) -> (shown: String)
    ensures
        shown@ == body@.take(if body@.len() <= PREVIEW_CHARS {
            body@.len() as int
        } else {
            PREVIEW_CHARS as int
        }),
        shown@.len() == if body@.len() <= 500 {
            body@.len() as int
        } else {
            500
        },
        forall|i: int| 0 <= i < shown@.len() ==> #[trigger] shown@[i] == body@[i],
{
    let chars = chars_of(body);
    let end: usize = if chars.len() <= PREVIEW_CHARS {
        chars.len()
    } else {
        PREVIEW_CHARS
    };
    let shown = text_of(&chars, 0, end);
    assert(shown@ =~= body@.take(end as int));
    shown
}

/// The query names its four sides in the order south, west, north and east.
pub proof fn queries_name_the_sides_in_order<W>(write: W, bbox: BBox, query: Seq<char>) where
    W: Fn(Binary64) -> String,

    requires
        queries(write, bbox, query),
    ensures
        exists|south: String, west: String, north: String, east: String|
            {
                &&& #[trigger] call_ensures(write, (bbox.min_lat,), south)
                &&& #[trigger] call_ensures(write, (bbox.min_lon,), west)
                &&& #[trigger] call_ensures(write, (bbox.max_lat,), north)
                &&& #[trigger] call_ensures(write, (bbox.max_lon,), east)
                &&& query
                    == "[out:json][timeout:25];\nnode[\"amenity\"=\"drinking_water\"]("@ + south@
                    + ","@ + west@ + ","@ + north@ + ","@ + east@ + ");\nout body;"@
            },
{
}

/// An element is a water point exactly where it is a node with a place that is tagged as
/// drinking water; the point has the identifier, the place and the name of the element.
pub proof fn water_points_are_tagged_nodes(element: OverpassElement, water: OsmWaterPoint)
    ensures
        element.is_drinking_water() <==> {
            &&& element.kind@ == "node"@
            &&& element.lat is Some && element.lon is Some
            &&& element.tags is Some && (element.tags->0).amenity is Some
            &&& (element.tags->0).amenity->0@ == "drinking_water"@
        },
        element.stands_for(water) && element.is_drinking_water() ==> {
            &&& water.osm_type == OsmElementType::Node
            &&& water.osm_id == element.id
            &&& water.lat == element.lat->0
            &&& water.lon == element.lon->0
            &&& water.name == (element.tags->0).name
        },
{
}

/// The water points of an answer are those of all elements with drinking water, each
/// once, in the order of the answer.
pub proof fn every_water_element_is_taken(elements: Seq<OverpassElement>)
    ensures
        forall|k: int|
            0 <= k < water_positions(elements).len() ==> {
                &&& 0 <= #[trigger] water_positions(elements)[k] < elements.len()
                &&& elements[water_positions(elements)[k]].is_drinking_water()
            },
        forall|j: int, k: int|
            0 <= j < k < water_positions(elements).len() ==> water_positions(elements)[j]
                < water_positions(elements)[k],
        forall|i: int|
            0 <= i < elements.len() && (#[trigger] elements[i]).is_drinking_water()
                ==> water_positions(elements).contains(i),
    decreases elements.len(),
{
    if elements.len() > 0 {
        let fewer = elements.drop_last();
        let n = elements.len() - 1;
        every_water_element_is_taken(fewer);
        let before = water_positions(fewer);
        let all = water_positions(elements);
        assert(elements[n] == elements.last());
        assert forall|k: int| 0 <= k < all.len() implies {
            &&& 0 <= #[trigger] all[k] < elements.len()
            &&& elements[all[k]].is_drinking_water()
        } by {
            if k < before.len() {
                assert(all[k] == before[k]);
                assert(fewer[before[k]] == elements[before[k]]);
            }
        }
        assert forall|j: int, k: int| 0 <= j < k < all.len() implies all[j] < all[k] by {
            assert(all[j] == before[j]);
            if k < before.len() {
                assert(all[k] == before[k]);
            }
        }
        assert forall|i: int|
            0 <= i < elements.len() && (
            #[trigger] elements[i]).is_drinking_water() implies all.contains(i) by {
            if i < n {
                assert(fewer[i] == elements[i]);
                let k = choose|k: int| 0 <= k < before.len() && before[k] == i;
                assert(all[k] == i);
            } else {
                assert(all[all.len() - 1] == n);
            }
        }
    }
}

} // verus!
