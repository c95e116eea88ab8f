//! The data set that is made of a map extract.
//!
//! A first pass over the extract finds nodes and ways with drinking water, and
//! places; a second one finds the nodes of the ways, so that every way can be put
//! down as a single point.

use std::collections::{HashMap, HashSet};

use vstd::prelude::*;

use crate::binary64::Binary64;
use crate::osm_tags::{describes_place, describes_water, has_drinking_water, has_place, last_value, named_settlements_are_places, only_taps_and_confirmed_toilets_have_water, place_from_parts, place_kinds_are_searched, placed, places_keep_their_node, qualifying_water_name, searched_place, tagged, text_is, the_last_tag_of_a_key_counts, water_point_from_parts, water_points_keep_their_node};
use crate::text::trimmed;
use crate::types::{OsmElementType, OsmPlace, OsmWaterPoint, RoutePoint};

verus! {

/// An element of a map extract.
#[derive(Clone, Copy, Debug)]
pub enum OsmElement<'a> {
    Node { id: i64, lat: Binary64, lon: Binary64, tags: &'a [(&'a str, &'a str)] },
    Way { id: i64, tags: &'a [(&'a str, &'a str)], refs: &'a [i64] },
    Relation,
}

/// A way with drinking water, before it is known where it lies.
#[derive(Debug)]
pub struct WaterWay {
    pub osm_id: i64,
    pub name: Option<String>,
    pub node_refs: Vec<i64>,
}

/// What the first pass has found, by identifier.
pub struct WaterObjectScan {
    pub points: HashMap<i64, OsmWaterPoint>,
    pub places: HashMap<i64, OsmPlace>,
    pub ways: HashMap<i64, WaterWay>,
}

/// The point of a node.
pub open spec fn node_point(lat: Binary64, lon: Binary64) -> RoutePoint {
    RoutePoint { lat, lon, ele: None }
}

/// Whether `way` is a water way with the given parts.
pub open spec fn describes_way(
    way: WaterWay,
    osm_id: i64,
    tags: Seq<(&str, &str)>,
    refs: Seq<i64>,
) -> bool {
    &&& way.osm_id == osm_id
    &&& text_is(way.name, last_value(tags, "name"@))
    &&& way.node_refs@ == refs
}

/// Whether a map has one entry, under `key`, if `present`, and none otherwise.
pub open spec fn at_most_one<V>(map: Map<i64, V>, key: i64, present: bool) -> bool {
    map.dom() == if present {
        set![key]
    } else {
        Set::empty()
    }
}

impl WaterObjectScan {
    /// Whether every object is filed under its own identifier, every water point of
    /// the scan is a node, and every place is of a kind that is searched for.
    pub open spec fn well_filed(self) -> bool {
        &&& forall|id: i64| #[trigger]
            self.points@.dom().contains(id) ==> self.points@[id].osm_id == id
                && self.points@[id].osm_type == OsmElementType::Node
        &&& forall|id: i64| #[trigger]
            self.places@.dom().contains(id) ==> self.places@[id].osm_id == id && searched_place(
                self.places@[id].place_type@,
            )
        &&& forall|id: i64| #[trigger]
            self.ways@.dom().contains(id) ==> self.ways@[id].osm_id == id
    }

    /// Whether the scan is what a single element gives.
    pub open spec fn scans(self, element: OsmElement) -> bool {
        match element {
            OsmElement::Node { id, lat, lon, tags } => {
                let point = node_point(lat, lon);
                &&& at_most_one(self.points@, id, has_drinking_water(tags@))
                &&& has_drinking_water(tags@) ==> describes_water(
                    self.points@[id],
                    id,
                    point,
                    tags@,
                )
                &&& at_most_one(self.places@, id, has_place(tags@))
                &&& has_place(tags@) ==> describes_place(self.places@[id], id, point, tags@)
                &&& self.ways@.dom() == Set::<i64>::empty()
            },
            OsmElement::Way { id, tags, refs } => {
                &&& self.points@.dom() == Set::<i64>::empty()
                &&& self.places@.dom() == Set::<i64>::empty()
                &&& at_most_one(self.ways@, id, has_drinking_water(tags@))
                &&& has_drinking_water(tags@) ==> describes_way(self.ways@[id], id, tags@, refs@)
            },
            OsmElement::Relation => {
                &&& self.points@.dom() == Set::<i64>::empty()
                &&& self.places@.dom() == Set::<i64>::empty()
                &&& self.ways@.dom() == Set::<i64>::empty()
            },
        }
    }

    /// Nothing is found yet.
    pub fn empty() -> (scan: Self)
        ensures
            scan.points@ == Map::<i64, OsmWaterPoint>::empty(),
            scan.places@ == Map::<i64, OsmPlace>::empty(),
            scan.ways@ == Map::<i64, WaterWay>::empty(),
            scan.well_filed(),
    {
        broadcast use vstd::std_specs::hash::group_hash_axioms;

        WaterObjectScan { points: HashMap::new(), places: HashMap::new(), ways: HashMap::new() }
    }

    /// What a single element gives.
    pub fn of_element(element: &OsmElement) -> (scan: Self)
        ensures
            scan.scans(*element),
            scan.well_filed(),
    {
        broadcast use vstd::std_specs::hash::group_hash_axioms;

        let mut scan = WaterObjectScan::empty();
        match element {
            OsmElement::Node { id, lat, lon, tags } => {
                let point = RoutePoint { lat: *lat, lon: *lon, ele: None };
                match water_point_from_parts(*id, point, tags) {
                    Some(water) => {
                        scan.points.insert(*id, water);
                    },
                    None => {},
                }
                match place_from_parts(*id, point, tags) {
                    Some(place) => {
                        scan.places.insert(*id, place);
                    },
                    None => {},
                }
            },
            OsmElement::Way { id, tags, refs } => {
                match qualifying_water_name(tags) {
                    Some(name) => {
                        let mut node_refs: Vec<i64> = Vec::new();
                        node_refs.extend_from_slice(refs);
                        assert(node_refs@ =~= refs@);
                        scan.ways.insert(*id, WaterWay { osm_id: *id, name, node_refs });
                    },
                    None => {},
                }
            },
            OsmElement::Relation => {},
        }
        proof {
            match *element {
                OsmElement::Node { id, lat, lon, tags } => {
                    place_kinds_are_searched(tags@);
                    assert(scan.points@.dom() =~= if has_drinking_water(tags@) {
                        set![id]
                    } else {
                        Set::empty()
                    });
                    assert(scan.places@.dom() =~= if has_place(tags@) {
                        set![id]
                    } else {
                        Set::empty()
                    });
                    assert(scan.ways@.dom() =~= Set::<i64>::empty());
                },
                OsmElement::Way { id, tags, refs } => {
                    assert(scan.ways@.dom() =~= if has_drinking_water(tags@) {
                        set![id]
                    } else {
                        Set::empty()
                    });
                    assert(scan.points@.dom() =~= Set::<i64>::empty());
                    assert(scan.places@.dom() =~= Set::<i64>::empty());
                },
                OsmElement::Relation => {
                    assert(scan.points@.dom() =~= Set::<i64>::empty());
                    assert(scan.places@.dom() =~= Set::<i64>::empty());
                    assert(scan.ways@.dom() =~= Set::<i64>::empty());
                },
            }
        }
        scan
    }

    /// The findings of two parts of an extract; where both have an object of one
    /// identifier, the later part counts.
    pub fn merge(self, later: Self) -> (scan: Self)
        ensures
            scan.points@ == self.points@.union_prefer_right(later.points@),
            scan.places@ == self.places@.union_prefer_right(later.places@),
            scan.ways@ == self.ways@.union_prefer_right(later.ways@),
            self.well_filed() && later.well_filed() ==> scan.well_filed(),
    {
        let mut points = self.points;
        let mut places = self.places;
        let mut ways = self.ways;
        extend_map(&mut points, later.points);
        extend_map(&mut places, later.places);
        extend_map(&mut ways, later.ways);
        WaterObjectScan { points, places, ways }
    }
}

/// The identifiers under which a map has entries, each once.
fn ids_of<V>(map: &HashMap<i64, V>) -> (ids: Vec<i64>)
    ensures
        ids@.no_duplicates(),
        ids@.to_set() == map@.dom(),
{
    broadcast use vstd::std_specs::hash::group_hash_axioms;

    let mut ids: Vec<i64> = Vec::new();
    let ghost all = vstd::std_specs::iter::IteratorSpec::remaining(
        &vstd::std_specs::hash::spec_keys_iter(map),
    );
    for id in it: map.keys()
        invariant
            ids@.len() == it.index(),
            forall|i: int| 0 <= i < ids@.len() ==> ids@[i] == *it.seq()[i],
            it.seq() == all,
    {
        ids.push(*id);
    }
    assert(ids@ =~= all.unref());
    assert forall|i: int, j: int| 0 <= i < ids@.len() && 0 <= j < ids@.len() && i != j implies ids@[
    i] != ids@[j] by {
        assert(all[i] != all[j]);
    }
    ids
}

/// Adds the entries of another map; they replace entries under the same keys.
pub fn extend_map<V>(map: &mut HashMap<i64, V>, more: HashMap<i64, V>)
    ensures
        final(map)@ == old(map)@.union_prefer_right(more@),
{
    broadcast use vstd::std_specs::hash::group_hash_axioms;

    let ids = ids_of(&more);
    let ghost before = map@;
    let ghost added = more@;
    let mut rest = more;
    let mut i: usize = 0;
    while i < ids.len()
        invariant
            i <= ids@.len(),
            ids@.no_duplicates(),
            ids@.to_set() == added.dom(),
            forall|k: i64| #[trigger]
                rest@.dom().contains(k) <==> added.dom().contains(k) && !ids@.take(
                    i as int,
                ).contains(k),
            forall|k: i64| #[trigger] rest@.dom().contains(k) ==> rest@[k] == added[k],
            forall|k: i64| #[trigger]
                map@.dom().contains(k) <==> before.dom().contains(k) || ids@.take(
                    i as int,
                ).contains(k),
            forall|k: i64| #[trigger]
                map@.dom().contains(k) ==> map@[k] == if ids@.take(i as int).contains(k) {
                    added[k]
                } else {
                    before[k]
                },
        decreases ids@.len() - i,
    {
        let id = ids[i];
        proof {
            lemma_take_contains(ids@, i as int);
            assert(ids@.to_set().contains(id));
        }
        match rest.remove(&id) {
            Some(value) => {
                map.insert(id, value);
            },
            None => {
                assert(rest@.dom().contains(id));
            },
        }
        i = i + 1;
    }
    proof {
        assert(ids@.take(ids@.len() as int) =~= ids@);
        assert forall|k: i64| ids@.contains(k) <==> added.dom().contains(k) by {
            assert(ids@.to_set().contains(k) <==> ids@.contains(k));
        }
        assert(map@ =~= before.union_prefer_right(added));
    }
}

proof fn lemma_take_contains(ids: Seq<i64>, i: int)
    requires
        0 <= i < ids.len(),
        ids.no_duplicates(),
    ensures
        !ids.take(i).contains(ids[i]),
        forall|k: i64| #[trigger]
            ids.take(i + 1).contains(k) <==> ids.take(i).contains(k) || k == ids[i],
{
    let seen = ids.take(i);
    let more = ids.take(i + 1);
    assert forall|k: i64| #[trigger] more.contains(k) <==> seen.contains(k) || k == ids[i] by {
        if seen.contains(k) {
            let j = choose|j: int| 0 <= j < seen.len() && seen[j] == k;
            assert(more[j] == k);
        }
        if k == ids[i] {
            assert(more[i] == k);
        }
        if more.contains(k) && k != ids[i] {
            let j = choose|j: int| 0 <= j < more.len() && more[j] == k;
            assert(seen[j] == k);
        }
    }
}

/// Merging the findings of neighbouring parts does not depend on how an extract is
/// cut into parts.
pub proof fn merging_is_associative<V>(a: Map<i64, V>, b: Map<i64, V>, c: Map<i64, V>)
    ensures
        a.union_prefer_right(b).union_prefer_right(c) == a.union_prefer_right(
            b.union_prefer_right(c),
        ),
{
    assert(a.union_prefer_right(b).union_prefer_right(c) =~= a.union_prefer_right(
        b.union_prefer_right(c),
    ));
}

/// An empty part adds nothing.
pub proof fn empty_parts_add_nothing<V>(a: Map<i64, V>)
    ensures
        a.union_prefer_right(Map::empty()) == a,
        Map::empty().union_prefer_right(a) == a,
{
    assert(a.union_prefer_right(Map::empty()) =~= a);
    assert(Map::<i64, V>::empty().union_prefer_right(a) =~= a);
}

/// Whether some way of the scan passes through a node.
pub open spec fn passes_through(ways: Map<i64, WaterWay>, node: i64) -> bool {
    exists|id: i64| #[trigger] ways.dom().contains(id) && ways[id].node_refs@.contains(node)
}

impl WaterObjectScan {
    /// Whether ways were found, so that nodes must be looked up.
    pub fn has_ways(&self) -> (b: bool)
        ensures
            b == (self.ways@.dom() != Set::<i64>::empty()),
    {
        broadcast use vstd::std_specs::hash::group_hash_axioms;

        let ids = ids_of(&self.ways);
        proof {
            if ids@.len() == 0 {
                assert(ids@.to_set() =~= Set::empty());
            } else {
                assert(ids@.to_set().contains(ids@[0]));
            }
        }
        ids.len() > 0
    }

    /// The nodes through which the ways pass.
    pub fn required_node_ids(&self) -> (nodes: HashSet<i64>)
        ensures
            forall|node: i64| #[trigger]
                nodes@.contains(node) <==> passes_through(self.ways@, node),
            forall|id: i64, i: int|
                self.ways@.dom().contains(id) && 0 <= i < self.ways@[id].node_refs@.len()
                    ==> nodes@.contains(#[trigger] self.ways@[id].node_refs@[i]),
    {
        broadcast use vstd::std_specs::hash::group_hash_axioms;

        let ids = ids_of(&self.ways);
        let mut nodes: HashSet<i64> = HashSet::new();
        let mut i: usize = 0;
        while i < ids.len()
            invariant
                i <= ids@.len(),
                ids@.to_set() == self.ways@.dom(),
                forall|node: i64| #[trigger]
                    nodes@.contains(node) ==> passes_through(self.ways@, node),
                forall|j: int, node: i64|
                    0 <= j < i && #[trigger] self.ways@[ids@[j]].node_refs@.contains(node)
                        ==> nodes@.contains(node),
            decreases ids@.len() - i,
        {
            let id = ids[i];
            assert(ids@.to_set().contains(id));
            match self.ways.get(&id) {
                Some(way) => {
                    let mut r: usize = 0;
                    while r < way.node_refs.len()
                        invariant
                            r <= way.node_refs@.len(),
                            i < ids@.len(),
                            id == ids@[i as int],
                            self.ways@.dom().contains(id),
                            *way == self.ways@[id],
                            forall|node: i64| #[trigger]
                                nodes@.contains(node) ==> passes_through(self.ways@, node),
                            forall|j: int, node: i64|
                                0 <= j < i && #[trigger] self.ways@[ids@[j]].node_refs@.contains(
                                    node,
                                ) ==> nodes@.contains(node),
                            forall|q: int| 0 <= q < r ==> nodes@.contains(
                                #[trigger] way.node_refs@[q],
                            ),
                        decreases way.node_refs@.len() - r,
                    {
                        let node = way.node_refs[r];
                        assert(way.node_refs@.contains(node));
                        assert(passes_through(self.ways@, node));
                        nodes.insert(node);
                        r = r + 1;
                    }
                    assert forall|node: i64| way.node_refs@.contains(node) implies nodes@.contains(
                        node,
                    ) by {
                        let q = choose|q: int|
                            0 <= q < way.node_refs@.len() && way.node_refs@[q] == node;
                        assert(nodes@.contains(way.node_refs@[q]));
                    }
                },
                None => {},
            }
            i = i + 1;
        }
        proof {
            assert forall|node: i64| passes_through(self.ways@, node) implies #[trigger] nodes@.contains(
                node,
            ) by {
                let id = choose|id: i64| #[trigger]
                    self.ways@.dom().contains(id) && self.ways@[id].node_refs@.contains(node);
                assert(ids@.to_set().contains(id));
                let j = choose|j: int| 0 <= j < ids@.len() && ids@[j] == id;
                assert(self.ways@[ids@[j]].node_refs@.contains(node));
            }
            assert forall|id: i64, i: int|
                self.ways@.dom().contains(id) && 0 <= i
                    < self.ways@[id].node_refs@.len() implies nodes@.contains(
                #[trigger] self.ways@[id].node_refs@[i],
            ) by {
                let node = self.ways@[id].node_refs@[i];
                assert(self.ways@[id].node_refs@.contains(node));
                assert(passes_through(self.ways@, node));
            }
        }
        nodes
    }
}

/// Where an element lies, if it is one of the nodes that are looked for.
pub fn resolve_node(element: &OsmElement, required: &HashSet<i64>) -> (found: Option<
    (i64, RoutePoint),
>)
    ensures
        match *element {
            OsmElement::Node { id, lat, lon, tags } => found == if required@.contains(id) {
                Some((id, node_point(lat, lon)))
            } else {
                None
            },
            _ => found is None,
        },
        found matches Some(f) ==> match *element {
            OsmElement::Node { id, lat, lon, tags } => {
                &&& required@.contains(id)
                &&& f.0 == id && f.1.lat == lat && f.1.lon == lon && f.1.ele is None
            },
            _ => false,
        },
        match *element {
            OsmElement::Node { id, lat, lon, tags } => required@.contains(id) ==> found is Some,
            _ => true,
        },
{
    broadcast use vstd::std_specs::hash::group_hash_axioms;

    match element {
        OsmElement::Node { id, lat, lon, .. } => {
            if required.contains(id) {
                Some((*id, RoutePoint { lat: *lat, lon: *lon, ele: None }))
            } else {
                None
            }
        },
        OsmElement::Way { .. } => None,
        OsmElement::Relation => None,
    }
}

impl WaterWay {
    /// Whether the way ends where it begins.
    pub open spec fn closed_ring(self) -> bool {
        let refs = self.node_refs@;
        refs.len() == 0 || refs[0] == refs.last()
    }

    /// Whether it is known of all nodes of the way where they lie.
    pub open spec fn resolvable(self, coordinates: Map<i64, RoutePoint>) -> bool {
        forall|i: int|
            0 <= i < self.node_refs@.len() ==> coordinates.dom().contains(
                #[trigger] self.node_refs@[i],
            )
    }

    /// The points of the way, without the last one of a closed way.
    pub open spec fn outline(self, coordinates: Map<i64, RoutePoint>) -> Seq<RoutePoint> {
        let refs = self.node_refs@;
        let count = if self.closed_ring() && refs.len() > 0 {
            (refs.len() - 1) as nat
        } else {
            refs.len()
        };
        Seq::new(count, |i: int| coordinates[refs[i]])
    }

    /// Whether a point can stand for the way: all nodes are known and at least two
    /// points are left.
    pub open spec fn locatable(self, coordinates: Map<i64, RoutePoint>) -> bool {
        self.resolvable(coordinates) && self.outline(coordinates).len() >= 2
    }
}

/// Whether `center` stands for some points: the centroid of a closed way with
/// three or more corners if it has one, the average of the points otherwise.
pub open spec fn centers_points<C, A>(
    centroid: C,
    average: A,
    points: Vec<RoutePoint>,
    closed: bool,
    center: RoutePoint,
) -> bool where C: Fn(&Vec<RoutePoint>) -> Option<RoutePoint>, A: Fn(&Vec<RoutePoint>) -> RoutePoint {
    let polygon = closed && points@.len() >= 3;
    ||| polygon && call_ensures(centroid, (&points,), Some(center))
    ||| {
        &&& polygon ==> call_ensures(centroid, (&points,), None)
        &&& call_ensures(average, (&points,), center)
    }
}

/// Whether `center` stands for an outline.
pub open spec fn centers<C, A>(
    centroid: C,
    average: A,
    outline: Seq<RoutePoint>,
    closed: bool,
    center: RoutePoint,
) -> bool where C: Fn(&Vec<RoutePoint>) -> Option<RoutePoint>, A: Fn(&Vec<RoutePoint>) -> RoutePoint {
    exists|points: Vec<RoutePoint>|
        points@ == outline && #[trigger] centers_points(centroid, average, points, closed, center)
}

/// Whether `found` is the point that stands for a way.
pub open spec fn locates<C, A>(
    centroid: C,
    average: A,
    way: WaterWay,
    coordinates: Map<i64, RoutePoint>,
    found: Option<OsmWaterPoint>,
) -> bool where C: Fn(&Vec<RoutePoint>) -> Option<RoutePoint>, A: Fn(&Vec<RoutePoint>) -> RoutePoint {
    match found {
        Some(water) => {
            &&& way.locatable(coordinates)
            &&& water.osm_type == OsmElementType::Way
            &&& water.osm_id == way.osm_id
            &&& water.name == way.name
            &&& exists|center: RoutePoint| #[trigger]
                centers(
                    centroid,
                    average,
                    way.outline(coordinates),
                    way.closed_ring(),
                    center,
                ) && water.lat == center.lat && water.lon == center.lon
        },
        None => !way.locatable(coordinates),
    }
}

/// The water point that stands for a way.
///
/// `centroid` is the centroid of a polygon, which one without area does not have;
/// `average` is the average of some points.
pub fn water_point_from_way<C, A>(
    way: WaterWay,
    node_coordinates: &HashMap<i64, RoutePoint>,
    centroid: &C,
    average: &A,
) -> (found: Option<OsmWaterPoint>) where
    C: Fn(&Vec<RoutePoint>) -> Option<RoutePoint>,
    A: Fn(&Vec<RoutePoint>) -> RoutePoint,

    requires
        forall|points: &Vec<RoutePoint>| call_requires(*centroid, (points,)),
        forall|points: &Vec<RoutePoint>| call_requires(*average, (points,)),
    ensures
        locates(*centroid, *average, way, node_coordinates@, found),
{
    broadcast use vstd::std_specs::hash::group_hash_axioms;

    let count = way.node_refs.len();
    let closed = count == 0 || way.node_refs[0] == way.node_refs[count - 1];
    let mut points: Vec<RoutePoint> = Vec::new();
    let mut i: usize = 0;
    while i < count
        invariant
            i <= count == way.node_refs@.len(),
            points@.len() == i,
            forall|j: int|
                0 <= j < i ==> {
                    &&& node_coordinates@.dom().contains(#[trigger] way.node_refs@[j])
                    &&& points@[j] == node_coordinates@[way.node_refs@[j]]
                },
        decreases count - i,
    {
        match node_coordinates.get(&way.node_refs[i]) {
            Some(point) => {
                points.push(*point);
            },
            None => {
                assert(!node_coordinates@.dom().contains(way.node_refs@[i as int]));
                return None;
            },
        }
        i = i + 1;
    }
    if closed {
        points.pop();
    }
    assert(points@ =~= way.outline(node_coordinates@));
    if points.len() < 2 {
        return None;
    }
    let mut center: Option<RoutePoint> = None;
    if closed && points.len() >= 3 {
        center = centroid(&points);
    }
    let place = match center {
        Some(place) => place,
        None => average(&points),
    };
    assert(centers_points(*centroid, *average, points, closed, place));
    assert(centers(
        *centroid,
        *average,
        way.outline(node_coordinates@),
        way.closed_ring(),
        place,
    ));
    Some(
        OsmWaterPoint {
            osm_type: OsmElementType::Way,
            osm_id: way.osm_id,
            lat: place.lat,
            lon: place.lon,
            name: way.name,
        },
    )
}

/// The data set that replaces the one in use.
#[derive(Debug)]
pub struct ParsedOsmDataset {
    pub points: Vec<OsmWaterPoint>,
    pub places: Vec<OsmPlace>,
    /// How many ways have no place of their own and are left out.
    pub skipped_ways: usize,
}

/// Whether `ids` lists the identifiers of a map, each once.
pub open spec fn lists<V>(ids: Seq<i64>, map: Map<i64, V>) -> bool {
    ids.no_duplicates() && ids.to_set() == map.dom()
}

/// The entries of a map in the order of some identifiers.
pub open spec fn values_of<V>(ids: Seq<i64>, map: Map<i64, V>) -> Seq<V> {
    Seq::new(ids.len(), |i: int| map[ids[i]])
}

/// The points that were found, in order.
pub open spec fn found_points(found: Seq<Option<OsmWaterPoint>>) -> Seq<OsmWaterPoint>
    decreases found.len(),
{
    if found.len() == 0 {
        Seq::empty()
    } else {
        match found.last() {
            Some(water) => found_points(found.drop_last()).push(water),
            None => found_points(found.drop_last()),
        }
    }
}

/// Takes the entries out of a map.
fn take_values<V>(map: HashMap<i64, V>) -> (taken: (Vec<i64>, Vec<V>))
    ensures
        lists(taken.0@, map@),
        taken.1@ == values_of(taken.0@, map@),
{
    broadcast use vstd::std_specs::hash::group_hash_axioms;

    let ids = ids_of(&map);
    let ghost all = map@;
    let mut rest = map;
    let mut values: Vec<V> = Vec::new();
    let mut i: usize = 0;
    while i < ids.len()
        invariant
            i <= ids@.len(),
            lists(ids@, all),
            values@ == values_of(ids@.take(i as int), all),
            forall|k: i64| #[trigger]
                rest@.dom().contains(k) <==> all.dom().contains(k) && !ids@.take(
                    i as int,
                ).contains(k),
            forall|k: i64| #[trigger] rest@.dom().contains(k) ==> rest@[k] == all[k],
        decreases ids@.len() - i,
    {
        let id = ids[i];
        proof {
            lemma_take_contains(ids@, i as int);
            assert(ids@.to_set().contains(id));
            assert(ids@.take(i + 1) =~= ids@.take(i as int).push(id));
        }
        match rest.remove(&id) {
            Some(value) => {
                values.push(value);
            },
            None => {
                assert(rest@.dom().contains(id));
            },
        }
        assert(values@ =~= values_of(ids@.take(i + 1), all));
        i = i + 1;
    }
    assert(ids@.take(ids@.len() as int) =~= ids@);
    (ids, values)
}

/// Whether a data set is made of a scan and of where the nodes of its ways lie:
/// it holds the water nodes, then the ways that can be located, and the places.
pub open spec fn assembled<C, A>(
    centroid: C,
    average: A,
    scan: WaterObjectScan,
    coordinates: Map<i64, RoutePoint>,
    node_ids: Seq<i64>,
    way_ids: Seq<i64>,
    place_ids: Seq<i64>,
    found: Seq<Option<OsmWaterPoint>>,
    dataset: ParsedOsmDataset,
) -> bool where C: Fn(&Vec<RoutePoint>) -> Option<RoutePoint>, A: Fn(&Vec<RoutePoint>) -> RoutePoint {
    &&& lists(node_ids, scan.points@)
    &&& lists(way_ids, scan.ways@)
    &&& lists(place_ids, scan.places@)
    &&& found.len() == way_ids.len()
    &&& forall|i: int|
        0 <= i < found.len() ==> locates(
            centroid,
            average,
            scan.ways@[way_ids[i]],
            coordinates,
            #[trigger] found[i],
        )
    &&& dataset.points@ == values_of(node_ids, scan.points@) + found_points(found)
    &&& dataset.places@ == values_of(place_ids, scan.places@)
    &&& dataset.skipped_ways == found.len() - found_points(found).len()
}

/// Makes the data set of what both passes have found.
pub fn assemble_dataset<C, A>(
    scan: WaterObjectScan,
    node_coordinates: &HashMap<i64, RoutePoint>,
    centroid: &C,
    average: &A,
) -> (dataset: ParsedOsmDataset) where
    C: Fn(&Vec<RoutePoint>) -> Option<RoutePoint>,
    A: Fn(&Vec<RoutePoint>) -> RoutePoint,

    requires
        forall|points: &Vec<RoutePoint>| call_requires(*centroid, (points,)),
        forall|points: &Vec<RoutePoint>| call_requires(*average, (points,)),
    ensures
        exists|
            node_ids: Seq<i64>,
            way_ids: Seq<i64>,
            place_ids: Seq<i64>,
            found: Seq<Option<OsmWaterPoint>>,
        | #[trigger]
            assembled(
                *centroid,
                *average,
                scan,
                node_coordinates@,
                node_ids,
                way_ids,
                place_ids,
                found,
                dataset,
            ),
{
    broadcast use vstd::std_specs::hash::group_hash_axioms;

    let ghost whole = scan;
    let (node_ids, mut points) = take_values(scan.points);
    let (place_ids, places) = take_values(scan.places);
    let way_ids = ids_of(&scan.ways);
    let ghost ways = scan.ways@;
    let ghost nodes = points@;
    let ghost mut found: Seq<Option<OsmWaterPoint>> = Seq::empty();
    let mut rest = scan.ways;
    let mut skipped_ways: usize = 0;
    let mut i: usize = 0;
    assert(points@ =~= nodes + found_points(found));
    while i < way_ids.len()
        invariant
            i <= way_ids@.len(),
            lists(way_ids@, ways),
            forall|k: i64| #[trigger]
                rest@.dom().contains(k) <==> ways.dom().contains(k) && !way_ids@.take(
                    i as int,
                ).contains(k),
            forall|k: i64| #[trigger] rest@.dom().contains(k) ==> rest@[k] == ways[k],
            found.len() == i,
            forall|j: int|
                0 <= j < i ==> locates(
                    *centroid,
                    *average,
                    ways[way_ids@[j]],
                    node_coordinates@,
                    #[trigger] found[j],
                ),
            points@ == nodes + found_points(found),
            skipped_ways == i - found_points(found).len(),
            found_points(found).len() <= i,
            forall|points: &Vec<RoutePoint>| call_requires(*centroid, (points,)),
            forall|points: &Vec<RoutePoint>| call_requires(*average, (points,)),
        decreases way_ids@.len() - i,
    {
        let id = way_ids[i];
        proof {
            lemma_take_contains(way_ids@, i as int);
            assert(way_ids@.to_set().contains(id));
        }
        match rest.remove(&id) {
            Some(way) => {
                let located = water_point_from_way(way, node_coordinates, centroid, average);
                proof {
                    let earlier = found;
                    found = earlier.push(located);
                    assert(found.drop_last() =~= earlier);
                    assert(found.last() == located);
                }
                match located {
                    Some(water) => {
                        points.push(water);
                    },
                    None => {
                        skipped_ways = skipped_ways + 1;
                    },
                }
                assert(points@ =~= nodes + found_points(found));
            },
            None => {
                assert(rest@.dom().contains(id));
            },
        }
        i = i + 1;
    }
    let dataset = ParsedOsmDataset { points, places, skipped_ways };
    assert(assembled(
        *centroid,
        *average,
        whole,
        node_coordinates@,
        node_ids@,
        way_ids@,
        place_ids@,
        found,
        dataset,
    ));
    dataset
}

proof fn lemma_found_points(found: Seq<Option<OsmWaterPoint>>, ids: Seq<i64>)
    requires
        found.len() == ids.len(),
        ids.no_duplicates(),
        forall|i: int|
            0 <= i < found.len() ==> (#[trigger] found[i] matches Some(water) ==> water.osm_type
                == OsmElementType::Way && water.osm_id == ids[i]),
    ensures
        forall|a: int|
            0 <= a < found_points(found).len() ==> (#[trigger] found_points(found)[a]).osm_type
                == OsmElementType::Way && ids.contains(found_points(found)[a].osm_id),
        forall|a: int, b: int|
            0 <= a < b < found_points(found).len() ==> found_points(found)[a].osm_id
                != found_points(found)[b].osm_id,
        forall|i: int|
            0 <= i < found.len() ==> (#[trigger] found[i] matches Some(water) ==> found_points(
                found,
            ).contains(water)),
    decreases found.len(),
{
    if found.len() > 0 {
        let fewer = found.drop_last();
        let fewer_ids = ids.drop_last();
        let last = found.len() - 1;
        assert forall|i: int| 0 <= i < fewer.len() implies (#[trigger] fewer[i] matches Some(
            water,
        ) ==> water.osm_type == OsmElementType::Way && water.osm_id == fewer_ids[i]) by {
            assert(fewer[i] == found[i]);
        }
        lemma_found_points(fewer, fewer_ids);
        let before = found_points(fewer);
        let after = found_points(found);
        assert(found[last] == found.last());
        assert(ids[last] == ids.last());
        assert forall|a: int| 0 <= a < before.len() implies ids.contains(
            (#[trigger] before[a]).osm_id,
        ) && before[a].osm_id != ids[last] by {
            assert(fewer_ids.contains(before[a].osm_id));
            let k = choose|k: int| 0 <= k < fewer_ids.len() && fewer_ids[k] == before[a].osm_id;
            assert(ids[k] == before[a].osm_id);
        }
        assert forall|a: int| 0 <= a < after.len() implies (#[trigger] after[a]).osm_type
            == OsmElementType::Way && ids.contains(after[a].osm_id) by {
            if a < before.len() {
                assert(after[a] == before[a]);
            } else {
                assert(ids[last] == after[a].osm_id);
            }
        }
        assert forall|a: int, b: int| 0 <= a < b < after.len() implies after[a].osm_id
            != after[b].osm_id by {
            assert(after[a] == before[a]);
            if b < before.len() {
                assert(after[b] == before[b]);
            }
        }
        assert forall|i: int| 0 <= i < found.len() implies (#[trigger] found[i] matches Some(
            water,
        ) ==> after.contains(water)) by {
            if found[i] is Some {
                let water = found[i]->0;
                if i < last {
                    assert(fewer[i] == found[i]);
                    assert(before.contains(water));
                    let k = choose|k: int| 0 <= k < before.len() && before[k] == water;
                    assert(after[k] == water);
                } else {
                    assert(after[after.len() - 1] == water);
                }
            }
        }
    }
}

/// A data set holds no object twice: a node and a way may share an identifier, but
/// two nodes, two ways or two places never do.
pub proof fn dataset_objects_are_distinct<C, A>(
    centroid: C,
    average: A,
    scan: WaterObjectScan,
    coordinates: Map<i64, RoutePoint>,
    node_ids: Seq<i64>,
    way_ids: Seq<i64>,
    place_ids: Seq<i64>,
    found: Seq<Option<OsmWaterPoint>>,
    dataset: ParsedOsmDataset,
) where C: Fn(&Vec<RoutePoint>) -> Option<RoutePoint>, A: Fn(&Vec<RoutePoint>) -> RoutePoint
    requires
        scan.well_filed(),
        assembled(
            centroid,
            average,
            scan,
            coordinates,
            node_ids,
            way_ids,
            place_ids,
            found,
            dataset,
        ),
    ensures
        forall|a: int, b: int|
            0 <= a < b < dataset.points@.len() ==> {
                ||| (#[trigger] dataset.points@[a]).osm_type != (#[trigger] dataset.points@[b]).osm_type
                ||| dataset.points@[a].osm_id != dataset.points@[b].osm_id
            },
        forall|a: int, b: int|
            0 <= a < b < dataset.places@.len() ==> (#[trigger] dataset.places@[a]).osm_id != (
            #[trigger] dataset.places@[b]).osm_id,
{
    let nodes = values_of(node_ids, scan.points@);
    let located = found_points(found);
    assert forall|i: int| 0 <= i < found.len() implies (#[trigger] found[i] matches Some(water)
        ==> water.osm_type == OsmElementType::Way && water.osm_id == way_ids[i]) by {
        assert(way_ids.to_set().contains(way_ids[i]));
        assert(scan.ways@.dom().contains(way_ids[i]));
    }
    lemma_found_points(found, way_ids);
    assert forall|a: int| 0 <= a < nodes.len() implies (#[trigger] nodes[a]).osm_id == node_ids[a]
        && nodes[a].osm_type == OsmElementType::Node by {
        assert(node_ids.to_set().contains(node_ids[a]));
        assert(scan.points@.dom().contains(node_ids[a]));
    }
    assert forall|a: int, b: int| 0 <= a < b < dataset.points@.len() implies {
        ||| (#[trigger] dataset.points@[a]).osm_type != (#[trigger] dataset.points@[b]).osm_type
        ||| dataset.points@[a].osm_id != dataset.points@[b].osm_id
    } by {
        if b < nodes.len() {
            assert(dataset.points@[a] == nodes[a]);
            assert(dataset.points@[b] == nodes[b]);
        } else if a < nodes.len() {
            assert(dataset.points@[a] == nodes[a]);
            assert(dataset.points@[b] == located[b - nodes.len()]);
        } else {
            assert(dataset.points@[a] == located[a - nodes.len()]);
            assert(dataset.points@[b] == located[b - nodes.len()]);
        }
    }
    assert forall|a: int, b: int| 0 <= a < b < dataset.places@.len() implies (
    #[trigger] dataset.places@[a]).osm_id != (#[trigger] dataset.places@[b]).osm_id by {
        assert(place_ids.to_set().contains(place_ids[a]));
        assert(place_ids.to_set().contains(place_ids[b]));
        assert(scan.places@.dom().contains(place_ids[a]));
        assert(scan.places@.dom().contains(place_ids[b]));
    }
}

/// No way that can be located is lost.
pub proof fn locatable_ways_are_kept<C, A>(
    centroid: C,
    average: A,
    scan: WaterObjectScan,
    coordinates: Map<i64, RoutePoint>,
    node_ids: Seq<i64>,
    way_ids: Seq<i64>,
    place_ids: Seq<i64>,
    found: Seq<Option<OsmWaterPoint>>,
    dataset: ParsedOsmDataset,
    id: i64,
) where C: Fn(&Vec<RoutePoint>) -> Option<RoutePoint>, A: Fn(&Vec<RoutePoint>) -> RoutePoint
    requires
        scan.well_filed(),
        assembled(
            centroid,
            average,
            scan,
            coordinates,
            node_ids,
            way_ids,
            place_ids,
            found,
            dataset,
        ),
        scan.ways@.dom().contains(id),
        scan.ways@[id].locatable(coordinates),
    ensures
        exists|a: int|
            0 <= a < dataset.points@.len() && (#[trigger] dataset.points@[a]).osm_type
                == OsmElementType::Way && dataset.points@[a].osm_id == id,
{
    let nodes = values_of(node_ids, scan.points@);
    let located = found_points(found);
    assert forall|i: int| 0 <= i < found.len() implies (#[trigger] found[i] matches Some(water)
        ==> water.osm_type == OsmElementType::Way && water.osm_id == way_ids[i]) by {
        assert(way_ids.to_set().contains(way_ids[i]));
        assert(scan.ways@.dom().contains(way_ids[i]));
    }
    lemma_found_points(found, way_ids);
    assert(way_ids.to_set().contains(id));
    let i = choose|i: int| 0 <= i < way_ids.len() && way_ids[i] == id;
    assert(locates(centroid, average, scan.ways@[way_ids[i]], coordinates, found[i]));
    let water = found[i]->0;
    assert(located.contains(water));
    let k = choose|k: int| 0 <= k < located.len() && located[k] == water;
    assert(dataset.points@[nodes.len() + k] == water);
}

/// A node with drinking water gives a water point where it lies, a named settlement
/// gives a place where it lies, and a node gives no way.
pub proof fn nodes_give_points_and_places(
    scan: WaterObjectScan,
    id: i64,
    lat: Binary64,
    lon: Binary64,
    tags: &[(&str, &str)],
)
    requires
        scan.scans((OsmElement::Node { id, lat, lon, tags })),
    ensures
        scan.points@.dom().contains(id) <==> tagged(tags@, "amenity"@, "drinking_water"@) || (
        tagged(tags@, "amenity"@, "toilets"@) && tagged(tags@, "drinking_water"@, "yes"@)),
        scan.points@.dom().contains(id) ==> {
            &&& scan.points@[id].osm_type == OsmElementType::Node
            &&& scan.points@[id].osm_id == id
            &&& scan.points@[id].lat == lat
            &&& scan.points@[id].lon == lon
            &&& scan.points@[id].name matches Some(name) ==> tagged(tags@, "name"@, name@)
        },
        scan.places@.dom().contains(id) ==> {
            &&& scan.places@[id].osm_id == id
            &&& scan.places@[id].lat == lat
            &&& scan.places@[id].lon == lon
            &&& placed(tags@, scan.places@[id].place_type@)
        },
        scan.places@.dom().contains(id) <==> {
            &&& exists|name: Seq<char>| #[trigger]
                tagged(tags@, "name"@, name) && trimmed(name).len() > 0
            &&& exists|kind: Seq<char>| #[trigger] placed(tags@, kind)
        },
        forall|other: i64|
            other != id ==> !(#[trigger] scan.points@.dom().contains(other)),
        forall|other: i64|
            other != id ==> !(#[trigger] scan.places@.dom().contains(other)),
        forall|other: i64| !(#[trigger] scan.ways@.dom().contains(other)),
{
    only_taps_and_confirmed_toilets_have_water(tags@);
    named_settlements_are_places(tags@);
    if has_drinking_water(tags@) {
        water_points_keep_their_node(scan.points@[id], id, node_point(lat, lon), tags@);
        assert(scan.points@.dom().contains(id));
    }
    if has_place(tags@) {
        places_keep_their_node(scan.places@[id], id, node_point(lat, lon), tags@);
        assert(scan.places@.dom().contains(id));
    }
}

/// A way with drinking water is kept with all of its nodes in order, and it gives
/// neither a point nor a place by itself; a relation gives nothing.
pub proof fn ways_keep_their_nodes(
    scan: WaterObjectScan,
    id: i64,
    tags: &[(&str, &str)],
    refs: &[i64],
)
    requires
        scan.scans((OsmElement::Way { id, tags, refs })),
    ensures
        scan.ways@.dom().contains(id) <==> tagged(tags@, "amenity"@, "drinking_water"@) || (tagged(
            tags@,
            "amenity"@,
            "toilets"@,
        ) && tagged(tags@, "drinking_water"@, "yes"@)),
        scan.ways@.dom().contains(id) ==> {
            &&& scan.ways@[id].osm_id == id
            &&& scan.ways@[id].node_refs@.len() == refs@.len()
            &&& forall|i: int|
                0 <= i < refs@.len() ==> (#[trigger] scan.ways@[id].node_refs@[i]) == refs@[i]
            &&& scan.ways@[id].name matches Some(name) ==> tagged(tags@, "name"@, name@)
            &&& scan.ways@[id].name is None ==> forall|i: int|
                0 <= i < tags@.len() ==> (#[trigger] tags@[i]).0@ != "name"@
        },
        forall|other: i64| other != id ==> !(#[trigger] scan.ways@.dom().contains(other)),
        forall|other: i64| !(#[trigger] scan.points@.dom().contains(other)),
        forall|other: i64| !(#[trigger] scan.places@.dom().contains(other)),
{
    only_taps_and_confirmed_toilets_have_water(tags@);
    if has_drinking_water(tags@) {
        the_last_tag_of_a_key_counts(tags@, "name"@);
        assert(scan.ways@.dom().contains(id));
        match scan.ways@[id].name {
            Some(name) => assert(tagged(tags@, "name"@, name@) == (last_value(tags@, "name"@)
                == Some(name@))),
            None => {},
        }
    }
}

/// The point that stands for a way is made of where all of its nodes lie, in order, the
/// last one left out exactly where the way ends at its first node; at least two must be
/// left. A closed way with three or more corners lies at its centroid if it has one, and
/// any other way at the average.
pub proof fn ways_lie_amid_their_nodes<C, A>(
    centroid: C,
    average: A,
    way: WaterWay,
    coordinates: Map<i64, RoutePoint>,
    found: Option<OsmWaterPoint>,
) where C: Fn(&Vec<RoutePoint>) -> Option<RoutePoint>, A: Fn(&Vec<RoutePoint>) -> RoutePoint
    requires
        locates(centroid, average, way, coordinates, found),
    ensures
        found is Some <==> {
            let refs = way.node_refs@;
            &&& forall|i: int| 0 <= i < refs.len() ==> coordinates.dom().contains(#[trigger] refs[i])
            &&& refs.len() >= 2
            &&& refs[0] == refs[refs.len() - 1] ==> refs.len() >= 3
        },
        found matches Some(water) ==> {
            let refs = way.node_refs@;
            let closed = refs[0] == refs[refs.len() - 1];
            &&& water.osm_type == OsmElementType::Way
            &&& water.osm_id == way.osm_id
            &&& water.name == way.name
            &&& exists|points: Vec<RoutePoint>, center: RoutePoint|
                {
                    &&& points@.len() == if closed {
                        refs.len() - 1
                    } else {
                        refs.len() as int
                    }
                    &&& forall|i: int|
                        0 <= i < points@.len() ==> #[trigger] points@[i] == coordinates[refs[i]]
                    &&& water.lat == center.lat && water.lon == center.lon
                    &&& #[trigger] centers_points(centroid, average, points, closed, center)
                    &&& closed && points@.len() >= 3 ==> {
                        ||| call_ensures(centroid, (&points,), Some(center))
                        ||| call_ensures(centroid, (&points,), None::<RoutePoint>)
                            && call_ensures(average, (&points,), center)
                    }
                    &&& !(closed && points@.len() >= 3) ==> call_ensures(
                        average,
                        (&points,),
                        center,
                    )
                }
        },
{
    let refs = way.node_refs@;
    if found is Some {
        let water = found->0;
        let center = choose|center: RoutePoint| #[trigger]
            centers(
                centroid,
                average,
                way.outline(coordinates),
                way.closed_ring(),
                center,
            ) && water.lat == center.lat && water.lon == center.lon;
        let points = choose|points: Vec<RoutePoint>|
            points@ == way.outline(coordinates) && #[trigger] centers_points(
                centroid,
                average,
                points,
                way.closed_ring(),
                center,
            );
        assert(centers_points(centroid, average, points, refs[0] == refs[refs.len() - 1], center));
    } else if refs.len() >= 2 && forall|i: int|
        0 <= i < refs.len() ==> coordinates.dom().contains(#[trigger] refs[i]) {
        assert(way.resolvable(coordinates));
    }
}

proof fn lemma_found_are_found(found: Seq<Option<OsmWaterPoint>>, a: int)
    requires
        0 <= a < found_points(found).len(),
    ensures
        exists|i: int| 0 <= i < found.len() && #[trigger] found[i] == Some(found_points(found)[a]),
    decreases found.len(),
{
    let fewer = found.drop_last();
    if a < found_points(fewer).len() {
        lemma_found_are_found(fewer, a);
        let i = choose|i: int|
            0 <= i < fewer.len() && #[trigger] fewer[i] == Some(found_points(fewer)[a]);
        assert(found[i] == fewer[i]);
    } else {
        assert(found[found.len() - 1] == found.last());
    }
}

/// A data set holds every water node and every place that was scanned, as it is, and
/// every way is held or counted as left out.
pub proof fn nothing_scanned_is_lost<C, A>(
    centroid: C,
    average: A,
    scan: WaterObjectScan,
    coordinates: Map<i64, RoutePoint>,
    node_ids: Seq<i64>,
    way_ids: Seq<i64>,
    place_ids: Seq<i64>,
    found: Seq<Option<OsmWaterPoint>>,
    dataset: ParsedOsmDataset,
) where C: Fn(&Vec<RoutePoint>) -> Option<RoutePoint>, A: Fn(&Vec<RoutePoint>) -> RoutePoint
    requires
        assembled(
            centroid,
            average,
            scan,
            coordinates,
            node_ids,
            way_ids,
            place_ids,
            found,
            dataset,
        ),
    ensures
        forall|id: i64| #[trigger]
            scan.points@.dom().contains(id) ==> dataset.points@.contains(scan.points@[id]),
        forall|id: i64| #[trigger]
            scan.places@.dom().contains(id) ==> dataset.places@.contains(scan.places@[id]),
        dataset.points@.len() + dataset.skipped_ways == scan.points@.dom().len()
            + scan.ways@.dom().len(),
        dataset.places@.len() == scan.places@.dom().len(),
{
    let nodes = values_of(node_ids, scan.points@);
    let located = found_points(found);
    assert forall|id: i64| #[trigger]
        scan.points@.dom().contains(id) implies dataset.points@.contains(scan.points@[id]) by {
        assert(node_ids.to_set().contains(id));
        let i = choose|i: int| 0 <= i < node_ids.len() && node_ids[i] == id;
        assert(dataset.points@[i] == nodes[i]);
    }
    assert forall|id: i64| #[trigger]
        scan.places@.dom().contains(id) implies dataset.places@.contains(scan.places@[id]) by {
        assert(place_ids.to_set().contains(id));
        let i = choose|i: int| 0 <= i < place_ids.len() && place_ids[i] == id;
        assert(dataset.places@[i] == scan.places@[id]);
    }
    node_ids.unique_seq_to_set();
    way_ids.unique_seq_to_set();
    place_ids.unique_seq_to_set();
}

/// Every place of a data set is one that was scanned, and every point is a scanned water
/// node or stands for a scanned way.
pub proof fn dataset_objects_were_scanned<C, A>(
    centroid: C,
    average: A,
    scan: WaterObjectScan,
    coordinates: Map<i64, RoutePoint>,
    node_ids: Seq<i64>,
    way_ids: Seq<i64>,
    place_ids: Seq<i64>,
    found: Seq<Option<OsmWaterPoint>>,
    dataset: ParsedOsmDataset,
    a: int,
) where C: Fn(&Vec<RoutePoint>) -> Option<RoutePoint>, A: Fn(&Vec<RoutePoint>) -> RoutePoint
    requires
        assembled(
            centroid,
            average,
            scan,
            coordinates,
            node_ids,
            way_ids,
            place_ids,
            found,
            dataset,
        ),
    ensures
        0 <= a < dataset.places@.len() ==> exists|id: i64| #[trigger]
            scan.places@.dom().contains(id) && dataset.places@[a] == scan.places@[id],
        0 <= a < dataset.points@.len() ==> {
            ||| exists|id: i64| #[trigger]
                scan.points@.dom().contains(id) && dataset.points@[a] == scan.points@[id]
            ||| exists|id: i64| #[trigger]
                scan.ways@.dom().contains(id) && locates(
                    centroid,
                    average,
                    scan.ways@[id],
                    coordinates,
                    Some(dataset.points@[a]),
                )
        },
{
    let nodes = values_of(node_ids, scan.points@);
    let located = found_points(found);
    if 0 <= a < dataset.places@.len() {
        assert(place_ids.to_set().contains(place_ids[a]));
        assert(scan.places@.dom().contains(place_ids[a]));
    }
    if 0 <= a < nodes.len() {
        assert(dataset.points@[a] == nodes[a]);
        assert(node_ids.to_set().contains(node_ids[a]));
        assert(scan.points@.dom().contains(node_ids[a]));
    } else if nodes.len() <= a < dataset.points@.len() {
        let b = a - nodes.len();
        assert(dataset.points@[a] == located[b]);
        lemma_found_are_found(found, b);
        let i = choose|i: int| 0 <= i < found.len() && #[trigger] found[i] == Some(located[b]);
        assert(way_ids.to_set().contains(way_ids[i]));
        assert(scan.ways@.dom().contains(way_ids[i]));
    }
}

} // verus!
