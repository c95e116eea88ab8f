//! Routes, map objects and analysis results.

use vstd::prelude::*;

use crate::binary64::Binary64;
use crate::text::same_text;

verus! {

/// The bit pattern of 90 degrees.
pub const MAX_LATITUDE_BITS: u64 = 0x4056_8000_0000_0000;

/// The bit pattern of 180 degrees.
pub const MAX_LONGITUDE_BITS: u64 = 0x4066_8000_0000_0000;

/// The kind of an OpenStreetMap element that holds a water point.
#[derive(Clone, Copy, Debug, PartialEq, Eq, Hash, Structural)]
pub enum OsmElementType {
    Node,
    Way,
}

impl Default for OsmElementType {
    /// Water points without a recorded kind are nodes.
    fn default() -> (kind: Self)
        ensures
            kind == OsmElementType::Node,
    {
        OsmElementType::Node
    }
}

impl OsmElementType {
    /// The text that stands for the kind in the database and in responses.
    pub open spec fn name(self) -> Seq<char> {
        match self {
            OsmElementType::Node => "node"@,
            OsmElementType::Way => "way"@,
        }
    }

    /// The kind that a database text stands for.
    pub open spec fn named(value: Seq<char>) -> Option<OsmElementType> {
        if value == "node"@ {
            Some(OsmElementType::Node)
        } else if value == "way"@ {
            Some(OsmElementType::Way)
        } else {
            None
        }
    }

    /// The text that stands for the kind.
    pub fn as_str(self) -> (s: &'static str)
        ensures
            s@ == self.name(),
    {
        match self {
            OsmElementType::Node => "node",
            OsmElementType::Way => "way",
        }
    }

    /// The kind that a database text stands for; nothing for any other text.
    pub fn from_db_value(value: &str) -> (kind: Option<Self>)
        ensures
            kind == OsmElementType::named(value@),
    {
        if same_text(value, "node") {
            Some(OsmElementType::Node)
        } else if same_text(value, "way") {
            Some(OsmElementType::Way)
        } else {
            None
        }
    }
}

/// The text of a kind is read back as that kind.
pub proof fn element_type_reads_back(kind: OsmElementType)
    ensures
        OsmElementType::named(kind.name()) == Some(kind),
{
    reveal_strlit("node");
    reveal_strlit("way");
    assert("node"@.len() == 4);
    assert("way"@.len() == 3);
}

/// A point of a route, in degrees and metres.
#[derive(Clone, Copy, Debug, PartialEq, Eq, Structural)]
pub struct RoutePoint {
    pub lat: Binary64,
    pub lon: Binary64,
    pub ele: Option<Binary64>,
}

/// The measures of a route together with its points.
#[derive(Clone, Debug, PartialEq, Eq)]
pub struct RouteSummary {
    pub distance_m: Binary64,
    pub elevation_gain_m: Binary64,
    pub elevation_loss_m: Binary64,
    pub min_elevation_m: Option<Binary64>,
    pub max_elevation_m: Option<Binary64>,
    pub points: Vec<RoutePoint>,
}

/// A water point near a route.
#[derive(Clone, Debug, PartialEq, Eq)]
pub struct WaterPointResult {
    pub osm_type: OsmElementType,
    pub osm_id: i64,
    pub name: Option<String>,
    pub lat: Binary64,
    pub lon: Binary64,
    pub km: Binary64,
    pub distance_to_route_m: Binary64,
}

/// The answer to a route analysis.
#[derive(Clone, Debug, PartialEq, Eq)]
pub struct AnalyzeResponse {
    pub route: RouteSummary,
    pub water_points: Vec<WaterPointResult>,
}

/// A drinking water point of the map.
#[derive(Clone, Debug, PartialEq, Eq)]
pub struct OsmWaterPoint {
    pub osm_type: OsmElementType,
    pub osm_id: i64,
    pub lat: Binary64,
    pub lon: Binary64,
    pub name: Option<String>,
}

/// A named place of the map.
#[derive(Clone, Debug, PartialEq, Eq)]
pub struct OsmPlace {
    pub osm_id: i64,
    pub name: String,
    pub place_type: String,
    pub lat: Binary64,
    pub lon: Binary64,
    pub search_text: String,
}

/// A place found by name.
#[derive(Clone, Debug, PartialEq, Eq)]
pub struct PlaceSearchResult {
    pub osm_id: i64,
    pub name: String,
    pub place_type: String,
    pub lat: Binary64,
    pub lon: Binary64,
}

/// A box of latitudes and longitudes.
#[derive(Clone, Copy, Debug, PartialEq, Eq, Structural)]
pub struct BBox {
    pub min_lat: Binary64,
    pub min_lon: Binary64,
    pub max_lat: Binary64,
    pub max_lon: Binary64,
}

impl BBox {
    /// The box of a single point.
    pub open spec fn at(point: RoutePoint) -> BBox {
        BBox {
            min_lat: point.lat,
            min_lon: point.lon,
            max_lat: point.lat,
            max_lon: point.lon,
        }
    }

    /// The smallest box over `self` and `other`.
    pub open spec fn joined(self, other: BBox) -> BBox {
        BBox {
            min_lat: self.min_lat.spec_min(other.min_lat),
            min_lon: self.min_lon.spec_min(other.min_lon),
            max_lat: self.max_lat.spec_max(other.max_lat),
            max_lon: self.max_lon.spec_max(other.max_lon),
        }
    }

    /// The box of one or more points.
    pub open spec fn around(points: Seq<RoutePoint>) -> BBox
        decreases points.len(),
    {
        if points.len() <= 1 {
            BBox::at(points[0])
        } else {
            BBox::around(points.drop_last()).joined(BBox::at(points.last()))
        }
    }

    /// Whether `other` lies within `self`.
    pub open spec fn covers(self, other: BBox) -> bool {
        &&& self.min_lat.le(other.min_lat)
        &&& self.min_lon.le(other.min_lon)
        &&& other.max_lat.le(self.max_lat)
        &&& other.max_lon.le(self.max_lon)
    }

    /// Whether all four sides are numbers.
    pub open spec fn numeric(self) -> bool {
        !self.min_lat.nan() && !self.min_lon.nan() && !self.max_lat.nan() && !self.max_lon.nan()
    }

    /// The box around the points; nothing where there is no point.
    pub fn from_points(points: &[RoutePoint]) -> (bbox: Option<Self>)
        ensures
            match bbox {
                Some(b) => points@.len() > 0 && b == BBox::around(points@),
                None => points@.len() == 0,
            },
    {
        if points.len() == 0 {
            return None;
        }
        let first = points[0];
        let mut bbox = BBox {
            min_lat: first.lat,
            min_lon: first.lon,
            max_lat: first.lat,
            max_lon: first.lon,
        };
        let mut i: usize = 1;
        assert(points@.take(1)[0] == points@[0]);
        while i < points.len()
            invariant
                1 <= i <= points@.len(),
                bbox == BBox::around(points@.take(i as int)),
            decreases points@.len() - i,
        {
            let point = points[i];
            bbox =
            BBox {
                min_lat: bbox.min_lat.min(point.lat),
                min_lon: bbox.min_lon.min(point.lon),
                max_lat: bbox.max_lat.max(point.lat),
                max_lon: bbox.max_lon.max(point.lon),
            };
            assert(points@.take(i + 1).drop_last() =~= points@.take(i as int));
            i = i + 1;
        }
        assert(points@.take(points@.len() as int) =~= points@);
        Some(bbox)
    }

    /// Whether `other` lies within `self`.
    pub fn contains(self, other: Self) -> (b: bool)
        ensures
            b == self.covers(other),
    {
        self.min_lat.at_most(other.min_lat) && self.min_lon.at_most(other.min_lon)
            && other.max_lat.at_most(self.max_lat) && other.max_lon.at_most(self.max_lon)
    }

    /// The smallest box over both boxes.
    pub fn union(self, other: Self) -> (bbox: Self)
        ensures
            bbox == self.joined(other),
    {
        BBox {
            min_lat: self.min_lat.min(other.min_lat),
            min_lon: self.min_lon.min(other.min_lon),
            max_lat: self.max_lat.max(other.max_lat),
            max_lon: self.max_lon.max(other.max_lon),
        }
    }
}

/// The union of two boxes covers both.
pub proof fn union_covers_both(a: BBox, b: BBox)
    requires
        a.numeric(),
        b.numeric(),
    ensures
        a.joined(b).numeric(),
        a.joined(b).covers(a),
        a.joined(b).covers(b),
{
}

/// A box that covers two others covers their union.
pub proof fn union_is_smallest(a: BBox, b: BBox, outer: BBox)
    requires
        outer.covers(a),
        outer.covers(b),
    ensures
        outer.covers(a.joined(b)),
{
}

/// Covering is transitive.
pub proof fn covering_is_transitive(a: BBox, b: BBox, c: BBox)
    requires
        a.covers(b),
        b.covers(c),
    ensures
        a.covers(c),
{
}

/// The box around points covers every one of them.
pub proof fn box_covers_its_points(points: Seq<RoutePoint>, i: int)
    requires
        0 <= i < points.len(),
        forall|k: int| 0 <= k < points.len() ==> BBox::at(#[trigger] points[k]).numeric(),
    ensures
        BBox::around(points).numeric(),
        BBox::around(points).covers(BBox::at(points[i])),
    decreases points.len(),
{
    if points.len() > 1 {
        let shorter = points.drop_last();
        assert forall|k: int| 0 <= k < shorter.len() implies BBox::at(
            #[trigger] shorter[k],
        ).numeric() by {
            assert(shorter[k] == points[k]);
        }
        let last = BBox::at(points.last());
        assert(points.last() == points[points.len() - 1]);
        if i < points.len() - 1 {
            box_covers_its_points(shorter, i);
            union_covers_both(BBox::around(shorter), last);
            covering_is_transitive(BBox::around(points), BBox::around(shorter), BBox::at(points[i]));
        } else {
            box_covers_its_points(shorter, 0);
            union_covers_both(BBox::around(shorter), last);
        }
    } else {
        assert(BBox::at(points[0]).numeric());
    }
}

/// A node is called a node and a way a way, and no other text stands for a kind.
pub proof fn kinds_have_their_names(value: Seq<char>)
    ensures
        OsmElementType::Node.name() == "node"@,
        OsmElementType::Way.name() == "way"@,
        OsmElementType::named(value) == Some(OsmElementType::Node) <==> value == "node"@,
        OsmElementType::named(value) == Some(OsmElementType::Way) <==> value == "way"@,
{
    element_type_reads_back(OsmElementType::Way);
}

/// One box lies within another exactly where all sides are numbers and none of its sides
/// lies beyond that of the other.
pub proof fn covering_compares_the_sides(outer: BBox, inner: BBox)
    ensures
        outer.covers(inner) ==> outer.numeric() && inner.numeric(),
        outer.numeric() && inner.numeric() ==> (outer.covers(inner) <==> {
            &&& outer.min_lat.rank() <= inner.min_lat.rank()
            &&& outer.min_lon.rank() <= inner.min_lon.rank()
            &&& inner.max_lat.rank() <= outer.max_lat.rank()
            &&& inner.max_lon.rank() <= outer.max_lon.rank()
        }),
        outer.numeric() <==> !outer.min_lat.nan() && !outer.min_lon.nan() && !outer.max_lat.nan()
            && !outer.max_lon.nan(),
{
}

/// Each side of a union is that side of one of the two boxes.
pub proof fn union_sides_are_sides(a: BBox, b: BBox)
    ensures
        a.joined(b).min_lat == a.min_lat || a.joined(b).min_lat == b.min_lat,
        a.joined(b).min_lon == a.min_lon || a.joined(b).min_lon == b.min_lon,
        a.joined(b).max_lat == a.max_lat || a.joined(b).max_lat == b.max_lat,
        a.joined(b).max_lon == a.max_lon || a.joined(b).max_lon == b.max_lon,
{
}

proof fn lemma_side_is_attained(points: Seq<RoutePoint>)
    requires
        points.len() > 0,
    ensures
        exists|i: int|
            0 <= i < points.len() && (#[trigger] points[i]).lat == BBox::around(points).min_lat,
        exists|i: int|
            0 <= i < points.len() && (#[trigger] points[i]).lon == BBox::around(points).min_lon,
        exists|i: int|
            0 <= i < points.len() && (#[trigger] points[i]).lat == BBox::around(points).max_lat,
        exists|i: int|
            0 <= i < points.len() && (#[trigger] points[i]).lon == BBox::around(points).max_lon,
    decreases points.len(),
{
    if points.len() == 1 {
        assert(points[0].lat == BBox::around(points).min_lat);
    } else {
        let fewer = points.drop_last();
        let n = points.len() - 1;
        let before = BBox::around(fewer);
        lemma_side_is_attained(fewer);
        assert(points[n] == points.last());
        let a = choose|i: int| 0 <= i < n && (#[trigger] fewer[i]).lat == before.min_lat;
        let b = choose|i: int| 0 <= i < n && (#[trigger] fewer[i]).lon == before.min_lon;
        let c = choose|i: int| 0 <= i < n && (#[trigger] fewer[i]).lat == before.max_lat;
        let d = choose|i: int| 0 <= i < n && (#[trigger] fewer[i]).lon == before.max_lon;
        assert(points[a] == fewer[a] && points[b] == fewer[b] && points[c] == fewer[c]
            && points[d] == fewer[d]);
    }
}

/// The box around points is tight: no point lies beyond a side, and on each side lies a
/// point.
pub proof fn boxes_are_tight(points: Seq<RoutePoint>)
    requires
        points.len() > 0,
    ensures
        (forall|k: int|
            0 <= k < points.len() ==> !(#[trigger] points[k]).lat.nan() && !points[k].lon.nan())
            ==> forall|i: int|
            0 <= i < points.len() ==> {
                &&& BBox::around(points).min_lat.rank() <= (#[trigger] points[i]).lat.rank()
                &&& points[i].lat.rank() <= BBox::around(points).max_lat.rank()
                &&& BBox::around(points).min_lon.rank() <= points[i].lon.rank()
                &&& points[i].lon.rank() <= BBox::around(points).max_lon.rank()
            },
        exists|i: int|
            0 <= i < points.len() && (#[trigger] points[i]).lat == BBox::around(points).min_lat,
        exists|i: int|
            0 <= i < points.len() && (#[trigger] points[i]).lon == BBox::around(points).min_lon,
        exists|i: int|
            0 <= i < points.len() && (#[trigger] points[i]).lat == BBox::around(points).max_lat,
        exists|i: int|
            0 <= i < points.len() && (#[trigger] points[i]).lon == BBox::around(points).max_lon,
{
    lemma_side_is_attained(points);
    if forall|k: int|
        0 <= k < points.len() ==> !(#[trigger] points[k]).lat.nan() && !points[k].lon.nan() {
        assert forall|k: int| 0 <= k < points.len() implies BBox::at(
            #[trigger] points[k],
        ).numeric() by {}
        assert forall|i: int| 0 <= i < points.len() implies {
            &&& BBox::around(points).min_lat.rank() <= (#[trigger] points[i]).lat.rank()
            &&& points[i].lat.rank() <= BBox::around(points).max_lat.rank()
            &&& BBox::around(points).min_lon.rank() <= points[i].lon.rank()
            &&& points[i].lon.rank() <= BBox::around(points).max_lon.rank()
        } by {
            box_covers_its_points(points, i);
        }
    }
}

} // verus!
