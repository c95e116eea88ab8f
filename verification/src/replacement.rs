//! How the data set in the database is replaced.
//!
//! New tables are filled beside those in use and then take their place, all in one
//! transaction. The steps are listed here; the effect of each on the tables is
//! modelled, so that it can be stated what all of them together do.

use vstd::prelude::*;

use crate::osm_dataset::{assembled, dataset_objects_are_distinct, ParsedOsmDataset, WaterObjectScan};
use crate::osm_tags::searched_place;
use crate::types::{OsmPlace, OsmWaterPoint, RoutePoint};

verus! {

/// A table that is replaced.
#[derive(Clone, Copy, Debug, PartialEq, Eq, Structural)]
pub enum Table {
    WaterPoints,
    Places,
}

/// A step of a replacement.
#[derive(Clone, Copy, Debug, PartialEq, Eq, Structural)]
pub enum ReplaceStep {
    /// Drop what an earlier attempt may have left of the new table.
    DropLeftover(Table),
    /// Create the new table.
    CreateNext(Table),
    /// Insert a water point, which must not be there yet.
    InsertPoint { index: usize },
    /// Insert a water point in place of one with the same kind and identifier.
    UpsertPoint { index: usize },
    /// Insert a place, which must not be there yet.
    InsertPlace { index: usize },
    /// Empty the search index.
    ClearSearchIndex,
    /// Drop the table in use.
    DropCurrent(Table),
    /// Put the new table in use.
    Activate(Table),
    /// Index the table in use by its coordinates.
    IndexCoordinates(Table),
    /// Fill the search index with the places in use.
    FillSearchIndex,
}

/// The tables of the database, as far as they are replaced; a table that does not
/// exist is nothing.
pub struct Tables {
    pub water_points: Option<Seq<OsmWaterPoint>>,
    pub water_points_next: Option<Seq<OsmWaterPoint>>,
    pub places: Option<Seq<OsmPlace>>,
    pub places_next: Option<Seq<OsmPlace>>,
    pub search_index: Seq<OsmPlace>,
}

/// Whether two water points have the same kind and identifier.
pub open spec fn same_object(a: OsmWaterPoint, b: OsmWaterPoint) -> bool {
    a.osm_type == b.osm_type && a.osm_id == b.osm_id
}

/// Whether a table holds a water point of the same kind and identifier.
pub open spec fn holds_point(rows: Seq<OsmWaterPoint>, point: OsmWaterPoint) -> bool {
    exists|i: int| 0 <= i < rows.len() && same_object(#[trigger] rows[i], point)
}

/// Whether a table holds a place of the same identifier.
pub open spec fn holds_place(rows: Seq<OsmPlace>, place: OsmPlace) -> bool {
    exists|i: int| 0 <= i < rows.len() && (#[trigger] rows[i]).osm_id == place.osm_id
}

/// A table after a water point was put in, in place of one of the same kind and
/// identifier if there is one.
pub open spec fn with_point(rows: Seq<OsmWaterPoint>, point: OsmWaterPoint) -> Seq<OsmWaterPoint> {
    if holds_point(rows, point) {
        rows.map_values(
            |row: OsmWaterPoint|
                if same_object(row, point) {
                    point
                } else {
                    row
                },
        )
    } else {
        rows.push(point)
    }
}

impl Tables {
    /// The tables after a step; nothing where the step fails.
    pub open spec fn after(
        self,
        step: ReplaceStep,
        points: Seq<OsmWaterPoint>,
        places: Seq<OsmPlace>,
    ) -> Option<Tables> {
        match step {
            ReplaceStep::DropLeftover(Table::WaterPoints) => Some(
                Tables { water_points_next: None, ..self },
            ),
            ReplaceStep::DropLeftover(Table::Places) => Some(Tables { places_next: None, ..self }),
            ReplaceStep::CreateNext(Table::WaterPoints) => if self.water_points_next is None {
                Some(Tables { water_points_next: Some(Seq::empty()), ..self })
            } else {
                None
            },
            ReplaceStep::CreateNext(Table::Places) => if self.places_next is None {
                Some(Tables { places_next: Some(Seq::empty()), ..self })
            } else {
                None
            },
            ReplaceStep::InsertPoint { index } => match self.water_points_next {
                Some(rows) => if holds_point(rows, points[index as int]) {
                    None
                } else {
                    Some(
                        Tables {
                            water_points_next: Some(rows.push(points[index as int])),
                            ..self
                        },
                    )
                },
                None => None,
            },
            ReplaceStep::UpsertPoint { index } => match self.water_points_next {
                Some(rows) => Some(
                    Tables {
                        water_points_next: Some(with_point(rows, points[index as int])),
                        ..self
                    },
                ),
                None => None,
            },
            ReplaceStep::InsertPlace { index } => match self.places_next {
                Some(rows) => if holds_place(rows, places[index as int]) || !searched_place(
                    places[index as int].place_type@,
                ) {
                    None
                } else {
                    Some(Tables { places_next: Some(rows.push(places[index as int])), ..self })
                },
                None => None,
            },
            ReplaceStep::ClearSearchIndex => Some(Tables { search_index: Seq::empty(), ..self }),
            ReplaceStep::DropCurrent(Table::WaterPoints) => if self.water_points is Some {
                Some(Tables { water_points: None, ..self })
            } else {
                None
            },
            ReplaceStep::DropCurrent(Table::Places) => if self.places is Some {
                Some(Tables { places: None, ..self })
            } else {
                None
            },
            ReplaceStep::Activate(Table::WaterPoints) => if self.water_points is None
                && self.water_points_next is Some {
                Some(
                    Tables { water_points: self.water_points_next, water_points_next: None, ..self },
                )
            } else {
                None
            },
            ReplaceStep::Activate(Table::Places) => if self.places is None
                && self.places_next is Some {
                Some(Tables { places: self.places_next, places_next: None, ..self })
            } else {
                None
            },
            ReplaceStep::IndexCoordinates(Table::WaterPoints) => if self.water_points is Some {
                Some(self)
            } else {
                None
            },
            ReplaceStep::IndexCoordinates(Table::Places) => if self.places is Some {
                Some(self)
            } else {
                None
            },
            ReplaceStep::FillSearchIndex => match self.places {
                Some(rows) => Some(Tables { search_index: self.search_index + rows, ..self }),
                None => None,
            },
        }
    }

    /// The tables after some steps; nothing where one of them fails.
    pub open spec fn after_all(
        self,
        steps: Seq<ReplaceStep>,
        points: Seq<OsmWaterPoint>,
        places: Seq<OsmPlace>,
    ) -> Option<Tables>
        decreases steps.len(),
    {
        if steps.len() == 0 {
            Some(self)
        } else {
            match self.after_all(steps.drop_last(), points, places) {
                Some(tables) => tables.after(steps.last(), points, places),
                None => None,
            }
        }
    }

    /// Whether both tables are in use.
    pub open spec fn in_use(self) -> bool {
        self.water_points is Some && self.places is Some
    }
}

/// The steps that insert the first `n` water points.
pub open spec fn point_steps(n: nat) -> Seq<ReplaceStep> {
    Seq::new(n, |i: int| ReplaceStep::InsertPoint { index: i as usize })
}

/// The steps that insert the first `n` places.
pub open spec fn place_steps(n: nat) -> Seq<ReplaceStep> {
    Seq::new(n, |i: int| ReplaceStep::InsertPlace { index: i as usize })
}

/// The steps that put the first `n` water points in.
pub open spec fn upsert_steps(n: nat) -> Seq<ReplaceStep> {
    Seq::new(n, |i: int| ReplaceStep::UpsertPoint { index: i as usize })
}

/// How a new table is begun.
pub open spec fn begin_steps(table: Table) -> Seq<ReplaceStep> {
    seq![ReplaceStep::DropLeftover(table), ReplaceStep::CreateNext(table)]
}

/// How a new table takes the place of the one in use.
pub open spec fn swap_steps(table: Table) -> Seq<ReplaceStep> {
    seq![
        ReplaceStep::DropCurrent(table),
        ReplaceStep::Activate(table),
        ReplaceStep::IndexCoordinates(table),
    ]
}

/// The steps that replace the whole data set.
pub open spec fn dataset_steps(points: nat, places: nat) -> Seq<ReplaceStep> {
    begin_steps(Table::WaterPoints) + point_steps(points) + begin_steps(Table::Places)
        + place_steps(places) + seq![ReplaceStep::ClearSearchIndex] + swap_steps(Table::WaterPoints)
        + swap_steps(Table::Places) + seq![ReplaceStep::FillSearchIndex]
}

/// The steps that replace the water points.
pub open spec fn water_point_steps(points: nat) -> Seq<ReplaceStep> {
    begin_steps(Table::WaterPoints) + upsert_steps(points) + swap_steps(Table::WaterPoints)
}

fn push_begin(steps: &mut Vec<ReplaceStep>, table: Table)
    ensures
        final(steps)@ == old(steps)@ + begin_steps(table),
{
    steps.push(ReplaceStep::DropLeftover(table));
    steps.push(ReplaceStep::CreateNext(table));
    assert(steps@ =~= old(steps)@ + begin_steps(table));
}

fn push_swap(steps: &mut Vec<ReplaceStep>, table: Table)
    ensures
        final(steps)@ == old(steps)@ + swap_steps(table),
{
    steps.push(ReplaceStep::DropCurrent(table));
    steps.push(ReplaceStep::Activate(table));
    steps.push(ReplaceStep::IndexCoordinates(table));
    assert(steps@ =~= old(steps)@ + swap_steps(table));
}

/// The steps that replace the whole data set by one of so many water points and
/// places.
pub fn plan_dataset(points: usize, places: usize) -> (steps: Vec<ReplaceStep>)
    ensures
        steps@ == dataset_steps(points as nat, places as nat),
{
    let mut steps: Vec<ReplaceStep> = Vec::new();
    push_begin(&mut steps, Table::WaterPoints);
    assert(steps@ =~= begin_steps(Table::WaterPoints));
    let ghost before = steps@;
    let mut i: usize = 0;
    while i < points
        invariant
            i <= points,
            steps@ == before + point_steps(i as nat),
        decreases points - i,
    {
        steps.push(ReplaceStep::InsertPoint { index: i });
        assert(steps@ =~= before + point_steps((i + 1) as nat));
        i = i + 1;
    }
    push_begin(&mut steps, Table::Places);
    let ghost before = steps@;
    let mut j: usize = 0;
    while j < places
        invariant
            j <= places,
            steps@ == before + place_steps(j as nat),
        decreases places - j,
    {
        steps.push(ReplaceStep::InsertPlace { index: j });
        assert(steps@ =~= before + place_steps((j + 1) as nat));
        j = j + 1;
    }
    let ghost before = steps@;
    steps.push(ReplaceStep::ClearSearchIndex);
    assert(steps@ =~= before + seq![ReplaceStep::ClearSearchIndex]);
    push_swap(&mut steps, Table::WaterPoints);
    push_swap(&mut steps, Table::Places);
    let ghost before = steps@;
    steps.push(ReplaceStep::FillSearchIndex);
    assert(steps@ =~= before + seq![ReplaceStep::FillSearchIndex]);
    steps
}

/// The steps that replace the water points by so many others.
pub fn plan_water_points(points: usize) -> (steps: Vec<ReplaceStep>)
    ensures
        steps@ == water_point_steps(points as nat),
{
    let mut steps: Vec<ReplaceStep> = Vec::new();
    push_begin(&mut steps, Table::WaterPoints);
    assert(steps@ =~= begin_steps(Table::WaterPoints));
    let ghost before = steps@;
    let mut i: usize = 0;
    while i < points
        invariant
            i <= points,
            steps@ == before + upsert_steps(i as nat),
        decreases points - i,
    {
        steps.push(ReplaceStep::UpsertPoint { index: i });
        assert(steps@ =~= before + upsert_steps((i + 1) as nat));
        i = i + 1;
    }
    push_swap(&mut steps, Table::WaterPoints);
    steps
}

proof fn lemma_after_append(
    tables: Tables,
    first: Seq<ReplaceStep>,
    second: Seq<ReplaceStep>,
    points: Seq<OsmWaterPoint>,
    places: Seq<OsmPlace>,
)
    ensures
        tables.after_all(first + second, points, places) == match tables.after_all(
            first,
            points,
            places,
        ) {
            Some(middle) => middle.after_all(second, points, places),
            None => None,
        },
    decreases second.len(),
{
    if second.len() == 0 {
        assert(first + second =~= first);
    } else {
        assert((first + second).drop_last() =~= first + second.drop_last());
        lemma_after_append(tables, first, second.drop_last(), points, places);
    }
}

proof fn lemma_begin(
    tables: Tables,
    table: Table,
    points: Seq<OsmWaterPoint>,
    places: Seq<OsmPlace>,
)
    ensures
        tables.after_all(begin_steps(table), points, places) == match table {
            Table::WaterPoints => Some(
                Tables { water_points_next: Some(Seq::empty()), ..tables },
            ),
            Table::Places => Some(Tables { places_next: Some(Seq::empty()), ..tables }),
        },
{
    let steps = begin_steps(table);
    let one = steps.drop_last();
    assert(one =~= seq![ReplaceStep::DropLeftover(table)]);
    assert(one.drop_last() =~= Seq::empty());
    assert(steps.last() == ReplaceStep::CreateNext(table));
    assert(one.last() == ReplaceStep::DropLeftover(table));
    reveal_with_fuel(Tables::after_all, 3);
}

proof fn lemma_swap(
    tables: Tables,
    table: Table,
    points: Seq<OsmWaterPoint>,
    places: Seq<OsmPlace>,
)
    requires
        table == Table::WaterPoints ==> tables.water_points is Some
            && tables.water_points_next is Some,
        table == Table::Places ==> tables.places is Some && tables.places_next is Some,
    ensures
        tables.after_all(swap_steps(table), points, places) == match table {
            Table::WaterPoints => Some(
                Tables {
                    water_points: tables.water_points_next,
                    water_points_next: None,
                    ..tables
                },
            ),
            Table::Places => Some(
                Tables { places: tables.places_next, places_next: None, ..tables },
            ),
        },
{
    let steps = swap_steps(table);
    let two = steps.drop_last();
    let one = two.drop_last();
    assert(one =~= seq![ReplaceStep::DropCurrent(table)]);
    assert(one.drop_last() =~= Seq::empty());
    assert(steps.last() == ReplaceStep::IndexCoordinates(table));
    assert(two.last() == ReplaceStep::Activate(table));
    assert(one.last() == ReplaceStep::DropCurrent(table));
    reveal_with_fuel(Tables::after_all, 4);
}

proof fn lemma_point_steps(
    tables: Tables,
    points: Seq<OsmWaterPoint>,
    places: Seq<OsmPlace>,
    n: nat,
)
    requires
        tables.water_points_next == Some(Seq::<OsmWaterPoint>::empty()),
        n <= points.len() <= usize::MAX,
        forall|a: int, b: int|
            0 <= a < b < points.len() ==> !same_object(#[trigger] points[a], #[trigger] points[b]),
    ensures
        tables.after_all(point_steps(n), points, places) == Some(
            Tables { water_points_next: Some(points.take(n as int)), ..tables },
        ),
    decreases n,
{
    if n == 0 {
        assert(point_steps(0) =~= Seq::empty());
        assert(points.take(0) =~= Seq::empty());
    } else {
        let m = (n - 1) as nat;
        lemma_point_steps(tables, points, places, m);
        assert(point_steps(n).drop_last() =~= point_steps(m));
        let rows = points.take(m as int);
        assert(!holds_point(rows, points[m as int])) by {
            if holds_point(rows, points[m as int]) {
                let i = choose|i: int|
                    0 <= i < rows.len() && same_object(#[trigger] rows[i], points[m as int]);
                assert(same_object(points[i], points[m as int]));
            }
        }
        assert(rows.push(points[m as int]) =~= points.take(n as int));
        assert(point_steps(n).last() == ReplaceStep::InsertPoint { index: m as usize });
    }
}

proof fn lemma_place_steps(
    tables: Tables,
    points: Seq<OsmWaterPoint>,
    places: Seq<OsmPlace>,
    n: nat,
)
    requires
        tables.places_next == Some(Seq::<OsmPlace>::empty()),
        n <= places.len() <= usize::MAX,
        forall|a: int, b: int|
            0 <= a < b < places.len() ==> (#[trigger] places[a]).osm_id != (
            #[trigger] places[b]).osm_id,
        forall|a: int| 0 <= a < places.len() ==> searched_place((#[trigger] places[a]).place_type@),
    ensures
        tables.after_all(place_steps(n), points, places) == Some(
            Tables { places_next: Some(places.take(n as int)), ..tables },
        ),
    decreases n,
{
    if n == 0 {
        assert(place_steps(0) =~= Seq::empty());
        assert(places.take(0) =~= Seq::empty());
    } else {
        let m = (n - 1) as nat;
        lemma_place_steps(tables, points, places, m);
        assert(place_steps(n).drop_last() =~= place_steps(m));
        let rows = places.take(m as int);
        assert(!holds_place(rows, places[m as int])) by {
            if holds_place(rows, places[m as int]) {
                let i = choose|i: int|
                    0 <= i < rows.len() && (#[trigger] rows[i]).osm_id == places[m as int].osm_id;
                assert(places[i].osm_id == places[m as int].osm_id);
            }
        }
        assert(rows.push(places[m as int]) =~= places.take(n as int));
        assert(place_steps(n).last() == ReplaceStep::InsertPlace { index: m as usize });
    }
}

/// Whether all water points are of different kinds or identifiers.
pub open spec fn distinct_points(points: Seq<OsmWaterPoint>) -> bool {
    forall|a: int, b: int|
        0 <= a < b < points.len() ==> !same_object(#[trigger] points[a], #[trigger] points[b])
}

/// Whether all places have different identifiers and are of kinds that are searched.
pub open spec fn distinct_places(places: Seq<OsmPlace>) -> bool {
    &&& forall|a: int, b: int|
        0 <= a < b < places.len() ==> (#[trigger] places[a]).osm_id != (
        #[trigger] places[b]).osm_id
    &&& forall|a: int| 0 <= a < places.len() ==> searched_place((#[trigger] places[a]).place_type@)
}

/// Replacing the data set succeeds for objects that are all different, with places of
/// kinds that are searched, whatever the tables held before, and leaves exactly the new
/// objects in use, all of whose places
/// can be searched.
pub proof fn replacing_the_dataset_swaps_it(
    tables: Tables,
    points: Seq<OsmWaterPoint>,
    places: Seq<OsmPlace>,
)
    requires
        tables.in_use(),
        points.len() <= usize::MAX && places.len() <= usize::MAX,
        distinct_points(points),
        distinct_places(places),
    ensures
        tables.after_all(dataset_steps(points.len(), places.len()), points, places) == Some(
            Tables {
                water_points: Some(points),
                water_points_next: None,
                places: Some(places),
                places_next: None,
                search_index: places,
            },
        ),
{
    let s1 = begin_steps(Table::WaterPoints);
    let s2 = s1 + point_steps(points.len());
    let s3 = s2 + begin_steps(Table::Places);
    let s4 = s3 + place_steps(places.len());
    let s5 = s4 + seq![ReplaceStep::ClearSearchIndex];
    let s6 = s5 + swap_steps(Table::WaterPoints);
    let s7 = s6 + swap_steps(Table::Places);
    lemma_begin(tables, Table::WaterPoints, points, places);
    let t1 = tables.after_all(s1, points, places)->0;
    lemma_after_append(tables, s1, point_steps(points.len()), points, places);
    lemma_point_steps(t1, points, places, points.len());
    assert(points.take(points.len() as int) =~= points);
    let t2 = tables.after_all(s2, points, places)->0;
    lemma_after_append(tables, s2, begin_steps(Table::Places), points, places);
    lemma_begin(t2, Table::Places, points, places);
    let t3 = tables.after_all(s3, points, places)->0;
    lemma_after_append(tables, s3, place_steps(places.len()), points, places);
    lemma_place_steps(t3, points, places, places.len());
    assert(places.take(places.len() as int) =~= places);
    let t4 = tables.after_all(s4, points, places)->0;
    assert(s5.drop_last() =~= s4);
    let t5 = tables.after_all(s5, points, places)->0;
    lemma_after_append(tables, s5, swap_steps(Table::WaterPoints), points, places);
    lemma_swap(t5, Table::WaterPoints, points, places);
    let t6 = tables.after_all(s6, points, places)->0;
    lemma_after_append(tables, s6, swap_steps(Table::Places), points, places);
    lemma_swap(t6, Table::Places, points, places);
    let s8 = dataset_steps(points.len(), places.len());
    assert(s8.drop_last() =~= s7);
    assert(Seq::<OsmPlace>::empty() + places =~= places);
}

proof fn lemma_inserted_points_are_distinct(
    tables: Tables,
    points: Seq<OsmWaterPoint>,
    places: Seq<OsmPlace>,
    n: nat,
)
    requires
        tables.water_points_next == Some(Seq::<OsmWaterPoint>::empty()),
        n <= points.len() <= usize::MAX,
    ensures
        tables.after_all(point_steps(n), points, places) matches Some(after) ==> {
            &&& after == Tables { water_points_next: Some(points.take(n as int)), ..tables }
            &&& distinct_points(points.take(n as int))
        },
    decreases n,
{
    if n == 0 {
        assert(point_steps(0) =~= Seq::empty());
        assert(points.take(0) =~= Seq::empty());
    } else {
        let m = (n - 1) as nat;
        lemma_inserted_points_are_distinct(tables, points, places, m);
        assert(point_steps(n).drop_last() =~= point_steps(m));
        assert(point_steps(n).last() == ReplaceStep::InsertPoint { index: m as usize });
        let rows = points.take(m as int);
        let more = points.take(n as int);
        assert(rows.push(points[m as int]) =~= more);
        if tables.after_all(point_steps(n), points, places) is Some {
            assert forall|a: int, b: int| 0 <= a < b < more.len() implies !same_object(
                #[trigger] more[a],
                #[trigger] more[b],
            ) by {
                assert(rows[a] == more[a]);
                if b < m {
                    assert(rows[b] == more[b]);
                } else {
                    assert(!holds_point(rows, points[m as int]));
                }
            }
        }
    }
}

proof fn lemma_inserted_places_are_distinct(
    tables: Tables,
    points: Seq<OsmWaterPoint>,
    places: Seq<OsmPlace>,
    n: nat,
)
    requires
        tables.places_next == Some(Seq::<OsmPlace>::empty()),
        n <= places.len() <= usize::MAX,
    ensures
        tables.after_all(place_steps(n), points, places) matches Some(after) ==> {
            &&& after == Tables { places_next: Some(places.take(n as int)), ..tables }
            &&& distinct_places(places.take(n as int))
        },
    decreases n,
{
    if n == 0 {
        assert(place_steps(0) =~= Seq::empty());
        assert(places.take(0) =~= Seq::empty());
    } else {
        let m = (n - 1) as nat;
        lemma_inserted_places_are_distinct(tables, points, places, m);
        assert(place_steps(n).drop_last() =~= place_steps(m));
        assert(place_steps(n).last() == ReplaceStep::InsertPlace { index: m as usize });
        let rows = places.take(m as int);
        let more = places.take(n as int);
        assert(rows.push(places[m as int]) =~= more);
        if tables.after_all(place_steps(n), points, places) is Some {
            assert forall|a: int, b: int| 0 <= a < b < more.len() implies (
            #[trigger] more[a]).osm_id != (#[trigger] more[b]).osm_id by {
                assert(rows[a] == more[a]);
                if b < m {
                    assert(rows[b] == more[b]);
                } else {
                    assert(!holds_place(rows, places[m as int]));
                }
            }
            assert forall|a: int| 0 <= a < more.len() implies searched_place(
                (#[trigger] more[a]).place_type@,
            ) by {
                if a < m {
                    assert(rows[a] == more[a]);
                }
            }
        }
    }
}

/// A data set in which an object stands twice, or a place of a kind that is not
/// searched, cannot take the place of the one in use: a step fails, and with it the
/// whole replacement.
pub proof fn unfit_datasets_are_not_put_in_use(
    tables: Tables,
    points: Seq<OsmWaterPoint>,
    places: Seq<OsmPlace>,
)
    requires
        points.len() <= usize::MAX && places.len() <= usize::MAX,
        !distinct_points(points) || !distinct_places(places),
    ensures
        tables.after_all(dataset_steps(points.len(), places.len()), points, places) is None,
{
    let s1 = begin_steps(Table::WaterPoints);
    let s2 = s1 + point_steps(points.len());
    let s3 = s2 + begin_steps(Table::Places);
    let s4 = s3 + place_steps(places.len());
    let rest = seq![ReplaceStep::ClearSearchIndex] + swap_steps(Table::WaterPoints) + swap_steps(
        Table::Places,
    ) + seq![ReplaceStep::FillSearchIndex];
    assert(dataset_steps(points.len(), places.len()) =~= s4 + rest);
    lemma_after_append(tables, s4, rest, points, places);
    lemma_after_append(tables, s3, place_steps(places.len()), points, places);
    lemma_after_append(tables, s2, begin_steps(Table::Places), points, places);
    lemma_after_append(tables, s1, point_steps(points.len()), points, places);
    lemma_begin(tables, Table::WaterPoints, points, places);
    let t1 = tables.after_all(s1, points, places)->0;
    lemma_inserted_points_are_distinct(t1, points, places, points.len());
    assert(points.take(points.len() as int) =~= points);
    if tables.after_all(s2, points, places) is Some {
        let t2 = tables.after_all(s2, points, places)->0;
        lemma_begin(t2, Table::Places, points, places);
        let t3 = tables.after_all(s3, points, places)->0;
        lemma_inserted_places_are_distinct(t3, points, places, places.len());
        assert(places.take(places.len() as int) =~= places);
    }
}

/// The data set of an import always takes the place of the one in use.
pub proof fn imported_datasets_can_be_put_in_use<C, A>(
    tables: Tables,
    centroid: C,
    average: A,
    scan: WaterObjectScan,
    coordinates: Map<i64, RoutePoint>,
    node_ids: Seq<i64>,
    way_ids: Seq<i64>,
    place_ids: Seq<i64>,
    found: Seq<Option<OsmWaterPoint>>,
    dataset: ParsedOsmDataset,
) where C: Fn(&Vec<RoutePoint>) -> Option<RoutePoint>, A: Fn(&Vec<RoutePoint>) -> RoutePoint
    requires
        tables.in_use(),
        scan.well_filed(),
        dataset.points@.len() <= usize::MAX && dataset.places@.len() <= usize::MAX,
        assembled(
            centroid,
            average,
            scan,
            coordinates,
            node_ids,
            way_ids,
            place_ids,
            found,
            dataset,
        ),
    ensures
        tables.after_all(
            dataset_steps(dataset.points@.len(), dataset.places@.len()),
            dataset.points@,
            dataset.places@,
        ) == Some(
            Tables {
                water_points: Some(dataset.points@),
                water_points_next: None,
                places: Some(dataset.places@),
                places_next: None,
                search_index: dataset.places@,
            },
        ),
{
    dataset_objects_are_distinct(
        centroid,
        average,
        scan,
        coordinates,
        node_ids,
        way_ids,
        place_ids,
        found,
        dataset,
    );
    assert forall|a: int| 0 <= a < dataset.places@.len() implies searched_place(
        (#[trigger] dataset.places@[a]).place_type@,
    ) by {
        assert(place_ids.to_set().contains(place_ids[a]));
        assert(scan.places@.dom().contains(place_ids[a]));
    }
    replacing_the_dataset_swaps_it(tables, dataset.points@, dataset.places@);
}

/// The water points that remain of some: of those with one kind and identifier the
/// last one.
pub open spec fn merged_points(points: Seq<OsmWaterPoint>) -> Seq<OsmWaterPoint>
    decreases points.len(),
{
    if points.len() == 0 {
        Seq::empty()
    } else {
        with_point(merged_points(points.drop_last()), points.last())
    }
}

proof fn lemma_upsert_steps(
    tables: Tables,
    points: Seq<OsmWaterPoint>,
    places: Seq<OsmPlace>,
    n: nat,
)
    requires
        tables.water_points_next == Some(Seq::<OsmWaterPoint>::empty()),
        n <= points.len() <= usize::MAX,
    ensures
        tables.after_all(upsert_steps(n), points, places) == Some(
            Tables { water_points_next: Some(merged_points(points.take(n as int))), ..tables },
        ),
    decreases n,
{
    if n == 0 {
        assert(upsert_steps(0) =~= Seq::empty());
        assert(points.take(0) =~= Seq::empty());
    } else {
        let m = (n - 1) as nat;
        lemma_upsert_steps(tables, points, places, m);
        assert(upsert_steps(n).drop_last() =~= upsert_steps(m));
        assert(points.take(n as int).drop_last() =~= points.take(m as int));
        assert(upsert_steps(n).last() == ReplaceStep::UpsertPoint { index: m as usize });
    }
}

/// Replacing the water points always succeeds, leaves the new ones in use and touches
/// nothing else.
pub proof fn replacing_water_points_swaps_them(
    tables: Tables,
    points: Seq<OsmWaterPoint>,
    places: Seq<OsmPlace>,
)
    requires
        tables.in_use(),
        points.len() <= usize::MAX,
    ensures
        tables.after_all(water_point_steps(points.len()), points, places) == Some(
            Tables {
                water_points: Some(merged_points(points)),
                water_points_next: None,
                ..tables
            },
        ),
{
    let s1 = begin_steps(Table::WaterPoints);
    let s2 = s1 + upsert_steps(points.len());
    lemma_begin(tables, Table::WaterPoints, points, places);
    let t1 = tables.after_all(s1, points, places)->0;
    lemma_after_append(tables, s1, upsert_steps(points.len()), points, places);
    lemma_upsert_steps(t1, points, places, points.len());
    assert(points.take(points.len() as int) =~= points);
    let t2 = tables.after_all(s2, points, places)->0;
    lemma_after_append(tables, s2, swap_steps(Table::WaterPoints), points, places);
    lemma_swap(t2, Table::WaterPoints, points, places);
}

/// No two of the water points that remain have the same kind and identifier.
pub proof fn merged_points_are_distinct(points: Seq<OsmWaterPoint>)
    ensures
        forall|a: int, b: int|
            0 <= a < b < merged_points(points).len() ==> !same_object(
                #[trigger] merged_points(points)[a],
                #[trigger] merged_points(points)[b],
            ),
    decreases points.len(),
{
    if points.len() > 0 {
        merged_points_are_distinct(points.drop_last());
        let rows = merged_points(points.drop_last());
        let all = merged_points(points);
        let last = points.last();
        assert forall|a: int, b: int| 0 <= a < b < all.len() implies !same_object(
            #[trigger] all[a],
            #[trigger] all[b],
        ) by {
            if holds_point(rows, last) {
                assert(!same_object(rows[a], rows[b]));
            } else if b < rows.len() {
                assert(!same_object(rows[a], rows[b]));
            } else {
                assert(!same_object(rows[a], last));
            }
        }
    }
}

/// Of the water points with one kind and identifier the last one remains.
pub proof fn last_points_remain(points: Seq<OsmWaterPoint>, i: int)
    requires
        0 <= i < points.len(),
        forall|j: int| i < j < points.len() ==> !same_object(#[trigger] points[j], points[i]),
    ensures
        merged_points(points).contains(points[i]),
    decreases points.len(),
{
    let fewer = points.drop_last();
    let rows = merged_points(fewer);
    let all = merged_points(points);
    let last = points.last();
    if i == points.len() - 1 {
        if holds_point(rows, last) {
            let k = choose|k: int| 0 <= k < rows.len() && same_object(#[trigger] rows[k], last);
            assert(all[k] == last);
        } else {
            assert(all[rows.len() as int] == last);
        }
    } else {
        assert forall|j: int| i < j < fewer.len() implies !same_object(
            #[trigger] fewer[j],
            fewer[i],
        ) by {
            assert(!same_object(points[j], points[i]));
        }
        last_points_remain(fewer, i);
        let k = choose|k: int| 0 <= k < rows.len() && rows[k] == fewer[i];
        assert(!same_object(points[points.len() - 1], points[i]));
        assert(all[k] == points[i]);
    }
}

/// Of the water points that are put in, every one that remains is one of them, one of
/// each kind and identifier remains, and a node and a way never stand for each other.
pub proof fn one_point_of_each_object_remains(points: Seq<OsmWaterPoint>, i: int)
    ensures
        forall|k: int|
            0 <= k < merged_points(points).len() ==> points.contains(
                #[trigger] merged_points(points)[k],
            ),
        0 <= i < points.len() ==> exists|k: int|
            {
                &&& 0 <= k < merged_points(points).len()
                &&& (#[trigger] merged_points(points)[k]).osm_type == points[i].osm_type
                &&& merged_points(points)[k].osm_id == points[i].osm_id
            },
        forall|a: int, b: int|
            0 <= a < b < merged_points(points).len() ==> {
                ||| (#[trigger] merged_points(points)[a]).osm_type != (
                #[trigger] merged_points(points)[b]).osm_type
                ||| merged_points(points)[a].osm_id != merged_points(points)[b].osm_id
            },
    decreases points.len(),
{
    merged_points_are_distinct(points);
    let all = merged_points(points);
    assert forall|a: int, b: int| 0 <= a < b < all.len() implies {
        ||| (#[trigger] all[a]).osm_type != (#[trigger] all[b]).osm_type
        ||| all[a].osm_id != all[b].osm_id
    } by {
        assert(!same_object(all[a], all[b]));
    }
    if points.len() > 0 {
        let fewer = points.drop_last();
        let rows = merged_points(fewer);
        let last = points.last();
        let n = points.len() - 1;
        assert(points[n] == last);
        one_point_of_each_object_remains(fewer, i);
        assert forall|k: int| 0 <= k < all.len() implies points.contains(#[trigger] all[k]) by {
            if k < rows.len() {
                assert(fewer.contains(rows[k]));
                let m = choose|m: int| 0 <= m < fewer.len() && fewer[m] == rows[k];
                assert(points[m] == rows[k]);
            }
        }
        if 0 <= i < n {
            assert(fewer[i] == points[i]);
            let k = choose|k: int|
                {
                    &&& 0 <= k < rows.len()
                    &&& (#[trigger] rows[k]).osm_type == fewer[i].osm_type
                    &&& rows[k].osm_id == fewer[i].osm_id
                };
            assert(all[k].osm_type == points[i].osm_type && all[k].osm_id == points[i].osm_id);
        } else if i == n {
            if holds_point(rows, last) {
                let k = choose|k: int| 0 <= k < rows.len() && same_object(#[trigger] rows[k], last);
                assert(all[k] == last);
            } else {
                assert(all[rows.len() as int] == last);
            }
        }
    }
}

/// Objects that stand for different nodes and ways all remain, in their order.
pub proof fn different_points_all_remain(points: Seq<OsmWaterPoint>)
    requires
        forall|a: int, b: int|
            0 <= a < b < points.len() ==> (#[trigger] points[a]).osm_type != (
            #[trigger] points[b]).osm_type || points[a].osm_id != points[b].osm_id,
    ensures
        merged_points(points) == points,
    decreases points.len(),
{
    if points.len() > 0 {
        let fewer = points.drop_last();
        assert forall|a: int, b: int| 0 <= a < b < fewer.len() implies (
        #[trigger] fewer[a]).osm_type != (#[trigger] fewer[b]).osm_type || fewer[a].osm_id
            != fewer[b].osm_id by {
            assert(fewer[a] == points[a] && fewer[b] == points[b]);
        }
        different_points_all_remain(fewer);
        let last = points.last();
        if holds_point(fewer, last) {
            let k = choose|k: int| 0 <= k < fewer.len() && same_object(#[trigger] fewer[k], last);
            assert(points[k] == fewer[k] && points[points.len() - 1] == last);
        }
        assert(fewer.push(last) =~= points);
    } else {
        assert(merged_points(points) =~= points);
    }
}

/// The new data set is inserted completely and in order before anything in use is
/// touched: no table in use is dropped before the last water point and the last place
/// are inserted, and none is put in use before the one before it is dropped.
pub proof fn tables_in_use_are_dropped_last(points: nat, places: nat, i: int)
    requires
        points <= usize::MAX && places <= usize::MAX,
        0 <= i < dataset_steps(points, places).len(),
    ensures
        dataset_steps(points, places).len() == points + places + 12,
        0 <= i - 2 < points ==> dataset_steps(points, places)[i] == (ReplaceStep::InsertPoint {
            index: (i - 2) as usize,
        }),
        0 <= i - 4 - points < places ==> dataset_steps(points, places)[i] == (
        ReplaceStep::InsertPlace { index: (i - 4 - points) as usize }),
        (dataset_steps(points, places)[i] is DropCurrent
            || dataset_steps(points, places)[i] is ClearSearchIndex
            || dataset_steps(points, places)[i] is Activate) ==> i >= points + places + 4,
{
}

} // verus!
