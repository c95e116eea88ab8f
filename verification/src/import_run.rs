//! The course of an import.
//!
//! The start of an import is recorded, the extract is obtained and read, the data in
//! use are replaced, the cached analyses are cleared, and the end is recorded. The
//! effect of the steps is modelled, so that it can be stated what an import leaves
//! behind, however it ends.

use vstd::prelude::*;

use crate::replacement::{dataset_steps, Tables};
use crate::types::{OsmPlace, OsmWaterPoint};

verus! {

/// A step of an import.
#[derive(Clone, Copy, Debug, PartialEq, Eq, Structural)]
pub enum ImportStep {
    /// Record that the import is under way.
    RecordStart,
    /// Obtain the map extract.
    Obtain,
    /// Read the extract.
    Parse,
    /// Replace the data in use.
    Replace,
    /// Clear the analyses of routes, which rest on the data before.
    ClearCache,
    /// Record that the import has succeeded.
    RecordSuccess,
    /// Record that the import has failed.
    RecordFailure,
}

/// What is to be done after a step.
#[derive(Clone, Copy, Debug, PartialEq, Eq, Structural)]
pub enum ImportNext {
    Perform(ImportStep),
    /// The import has succeeded.
    Succeeded,
    /// The import has failed.
    Failed,
}

impl ImportStep {
    /// What follows the step when it succeeded or failed.
    pub open spec fn following(self, succeeded: bool) -> ImportNext {
        match self {
            ImportStep::RecordStart => if succeeded {
                ImportNext::Perform(ImportStep::Obtain)
            } else {
                ImportNext::Failed
            },
            ImportStep::RecordSuccess => if succeeded {
                ImportNext::Succeeded
            } else {
                ImportNext::Failed
            },
            ImportStep::RecordFailure => ImportNext::Failed,
            _ => if !succeeded {
                ImportNext::Perform(ImportStep::RecordFailure)
            } else {
                match self {
                    ImportStep::Obtain => ImportNext::Perform(ImportStep::Parse),
                    ImportStep::Parse => ImportNext::Perform(ImportStep::Replace),
                    ImportStep::Replace => ImportNext::Perform(ImportStep::ClearCache),
                    _ => ImportNext::Perform(ImportStep::RecordSuccess),
                }
            },
        }
    }

    /// The step with which an import begins.
    pub fn first() -> (step: Self)
        ensures
            step == ImportStep::RecordStart,
    {
        ImportStep::RecordStart
    }

    /// What follows the step. A failure is recorded once the start was; an import
    /// whose end cannot be recorded has failed.
    pub fn next(self, succeeded: bool) -> (next: ImportNext)
        ensures
            next == self.following(succeeded),
    {
        match (self, succeeded) {
            (ImportStep::RecordStart, true) => ImportNext::Perform(ImportStep::Obtain),
            (ImportStep::RecordStart, false) => ImportNext::Failed,
            (ImportStep::Obtain, true) => ImportNext::Perform(ImportStep::Parse),
            (ImportStep::Parse, true) => ImportNext::Perform(ImportStep::Replace),
            (ImportStep::Replace, true) => ImportNext::Perform(ImportStep::ClearCache),
            (ImportStep::ClearCache, true) => ImportNext::Perform(ImportStep::RecordSuccess),
            (ImportStep::RecordSuccess, true) => ImportNext::Succeeded,
            (ImportStep::RecordSuccess, false) => ImportNext::Failed,
            (ImportStep::RecordFailure, _) => ImportNext::Failed,
            (_, false) => ImportNext::Perform(ImportStep::RecordFailure),
        }
    }
}

/// What is recorded of an import.
pub enum RecordedStatus {
    Running,
    Success,
    Failed,
}

/// What an import touches: the tables in use, the routes with a cached analysis, and
/// what is recorded of the import.
#[verifier::ext_equal]
pub struct ImportWorld {
    pub tables: Tables,
    pub cached_routes: Set<Seq<char>>,
    pub status: Option<RecordedStatus>,
}

impl ImportWorld {
    /// Whether a step that succeeded turns this into `after`.
    pub open spec fn changes_to(
        self,
        step: ImportStep,
        after: ImportWorld,
        points: Seq<OsmWaterPoint>,
        places: Seq<OsmPlace>,
    ) -> bool {
        match step {
            ImportStep::RecordStart => after == (ImportWorld {
                status: Some(RecordedStatus::Running),
                ..self
            }),
            ImportStep::Replace => {
                &&& replaced(self.tables, points, places) is Some
                &&& after == (ImportWorld {
                    tables: replaced(self.tables, points, places)->0,
                    ..self
                })
            },
            ImportStep::ClearCache => after == (ImportWorld { cached_routes: Set::empty(), ..self }),
            ImportStep::RecordSuccess => after == (ImportWorld {
                status: Some(RecordedStatus::Success),
                ..self
            }),
            ImportStep::RecordFailure => after == (ImportWorld {
                status: Some(RecordedStatus::Failed),
                ..self
            }),
            _ => after == self,
        }
    }
}

/// The tables once the data in use are replaced; nothing where that fails.
pub open spec fn replaced(
    tables: Tables,
    points: Seq<OsmWaterPoint>,
    places: Seq<OsmPlace>,
) -> Option<Tables> {
    tables.after_all(dataset_steps(points.len(), places.len()), points, places)
}

/// Whether an import may go through the states `worlds`, one before every step and
/// one at the end, until `next` is to be done. A step that fails changes nothing.
pub open spec fn imports(
    worlds: Seq<ImportWorld>,
    steps: Seq<ImportStep>,
    next: ImportNext,
    points: Seq<OsmWaterPoint>,
    places: Seq<OsmPlace>,
) -> bool
    decreases steps.len(),
{
    &&& worlds.len() == steps.len() + 1
    &&& if steps.len() == 0 {
        next == ImportNext::Perform(ImportStep::RecordStart)
    } else {
        let step = steps.last();
        let before = worlds[steps.len() - 1];
        let after = worlds[steps.len() as int];
        &&& imports(
            worlds.drop_last(),
            steps.drop_last(),
            ImportNext::Perform(step),
            points,
            places,
        )
        &&& {
            ||| before.changes_to(step, after, points, places) && next == step.following(true)
            ||| after == before && next == step.following(false)
        }
    }
}

/// Whether the import has not touched the data and the analyses yet.
pub open spec fn untouched(start: ImportWorld, world: ImportWorld) -> bool {
    world.tables == start.tables && world.cached_routes == start.cached_routes
}

/// Whether the new data are in use.
pub open spec fn swapped(
    start: ImportWorld,
    world: ImportWorld,
    points: Seq<OsmWaterPoint>,
    places: Seq<OsmPlace>,
) -> bool {
    replaced(start.tables, points, places) == Some(world.tables)
}

proof fn lemma_import(
    worlds: Seq<ImportWorld>,
    steps: Seq<ImportStep>,
    next: ImportNext,
    points: Seq<OsmWaterPoint>,
    places: Seq<OsmPlace>,
)
    requires
        imports(worlds, steps, next, points, places),
        worlds[0].status is None,
    ensures
        ({
            let start = worlds[0];
            let world = worlds.last();
            let cleared = world.cached_routes == Set::<Seq<char>>::empty();
            &&& match next {
                ImportNext::Perform(ImportStep::RecordStart) => untouched(start, world),
                ImportNext::Perform(ImportStep::Obtain) => untouched(start, world),
                ImportNext::Perform(ImportStep::Parse) => untouched(start, world),
                ImportNext::Perform(ImportStep::Replace) => untouched(start, world),
                ImportNext::Perform(ImportStep::ClearCache) => {
                    swapped(start, world, points, places) && world.cached_routes
                        == start.cached_routes
                },
                ImportNext::Perform(ImportStep::RecordSuccess) => {
                    swapped(start, world, points, places) && cleared
                },
                ImportNext::Succeeded => swapped(start, world, points, places) && cleared,
                _ => {
                    ||| untouched(start, world)
                    ||| swapped(start, world, points, places) && world.cached_routes
                        == start.cached_routes
                    ||| next == ImportNext::Failed && swapped(start, world, points, places)
                        && cleared
                },
            }
            &&& match next {
                ImportNext::Perform(ImportStep::RecordStart) => world.status is None,
                ImportNext::Perform(_) => world.status == Some(RecordedStatus::Running),
                ImportNext::Succeeded => world.status == Some(RecordedStatus::Success),
                ImportNext::Failed => world.status != Some(RecordedStatus::Success),
            }
        }),
    decreases steps.len(),
{
    if steps.len() > 0 {
        let fewer = worlds.drop_last();
        lemma_import(fewer, steps.drop_last(), ImportNext::Perform(steps.last()), points, places);
        assert(fewer[0] == worlds[0]);
        assert(fewer.last() == worlds[steps.len() - 1]);
        assert(worlds.last() == worlds[steps.len() as int]);
    }
}

/// An import that has succeeded has put the new data in use, has left no analysis that
/// rests on the data before, and is recorded as a success.
pub proof fn successful_imports_are_complete(
    worlds: Seq<ImportWorld>,
    steps: Seq<ImportStep>,
    points: Seq<OsmWaterPoint>,
    places: Seq<OsmPlace>,
)
    requires
        imports(worlds, steps, ImportNext::Succeeded, points, places),
        worlds[0].status is None,
    ensures
        replaced(worlds[0].tables, points, places) == Some(worlds.last().tables),
        worlds.last().cached_routes == Set::<Seq<char>>::empty(),
        worlds.last().status == Some(RecordedStatus::Success),
{
    lemma_import(worlds, steps, ImportNext::Succeeded, points, places);
}

/// At every step either the data before or the new data are in use, and the analyses
/// stay until the new data are in use.
pub proof fn imports_swap_data_at_once(
    worlds: Seq<ImportWorld>,
    steps: Seq<ImportStep>,
    next: ImportNext,
    points: Seq<OsmWaterPoint>,
    places: Seq<OsmPlace>,
)
    requires
        imports(worlds, steps, next, points, places),
        worlds[0].status is None,
    ensures
        ({
            ||| untouched(worlds[0], worlds.last())
            ||| swapped(worlds[0], worlds.last(), points, places)
        }),
{
    lemma_import(worlds, steps, next, points, places);
}

/// An import is recorded as a success only where it has succeeded, so that one that
/// has failed is never taken for the latest successful one.
pub proof fn failed_imports_are_no_successes(
    worlds: Seq<ImportWorld>,
    steps: Seq<ImportStep>,
    next: ImportNext,
    points: Seq<OsmWaterPoint>,
    places: Seq<OsmPlace>,
)
    requires
        imports(worlds, steps, next, points, places),
        worlds[0].status is None,
    ensures
        (worlds.last().status == Some(RecordedStatus::Success)) == (next == ImportNext::Succeeded),
{
    lemma_import(worlds, steps, next, points, places);
}

/// The steps of an import in their order.
pub open spec fn course() -> Seq<ImportStep> {
    seq![
        ImportStep::RecordStart,
        ImportStep::Obtain,
        ImportStep::Parse,
        ImportStep::Replace,
        ImportStep::ClearCache,
        ImportStep::RecordSuccess,
    ]
}

proof fn lemma_course(
    worlds: Seq<ImportWorld>,
    steps: Seq<ImportStep>,
    next: ImportNext,
    points: Seq<OsmWaterPoint>,
    places: Seq<OsmPlace>,
)
    requires
        imports(worlds, steps, next, points, places),
    ensures
        match next {
            ImportNext::Perform(ImportStep::RecordFailure) => 2 <= steps.len() <= 5 && steps
                == course().take(steps.len() as int),
            ImportNext::Perform(step) => steps.len() <= 5 && steps == course().take(
                steps.len() as int,
            ) && course()[steps.len() as int] == step,
            ImportNext::Succeeded => steps == course(),
            ImportNext::Failed => {
                ||| steps == course().take(1)
                ||| steps == course()
                ||| {
                    &&& 3 <= steps.len() <= 6
                    &&& steps.last() == ImportStep::RecordFailure
                    &&& steps.drop_last() == course().take(steps.len() - 1)
                }
            },
        },
    decreases steps.len(),
{
    if steps.len() > 0 {
        let fewer = steps.drop_last();
        let step = steps.last();
        lemma_course(worlds.drop_last(), fewer, ImportNext::Perform(step), points, places);
        assert(steps =~= fewer.push(step));
        if step != ImportStep::RecordFailure {
            let n = fewer.len() as int;
            assert(course().take(n + 1) =~= course().take(n).push(course()[n]));
            if n == 5 {
                assert(course().take(6) =~= course());
            }
        }
    } else {
        assert(course().take(0) =~= steps);
    }
}

/// An import that has succeeded has gone through all six steps, each once and in order;
/// any other has broken off at one of them, and its failure was to be recorded unless
/// not even its start could be.
pub proof fn imports_go_step_by_step(
    worlds: Seq<ImportWorld>,
    steps: Seq<ImportStep>,
    next: ImportNext,
    points: Seq<OsmWaterPoint>,
    places: Seq<OsmPlace>,
)
    requires
        imports(worlds, steps, next, points, places),
        next == ImportNext::Succeeded || next == ImportNext::Failed,
    ensures
        next == ImportNext::Succeeded ==> steps == seq![
            ImportStep::RecordStart,
            ImportStep::Obtain,
            ImportStep::Parse,
            ImportStep::Replace,
            ImportStep::ClearCache,
            ImportStep::RecordSuccess,
        ],
        next == ImportNext::Failed ==> {
            ||| steps == seq![ImportStep::RecordStart]
            ||| steps == course()
            ||| steps.len() >= 3 && steps.last() == ImportStep::RecordFailure
        },
{
    lemma_course(worlds, steps, next, points, places);
    assert(course().take(1) =~= seq![ImportStep::RecordStart]);
}

/// What each step leaves behind: only the replacement changes the data in use, only the
/// clearing the analyses, and only the records the status.
pub proof fn steps_change_their_own_alone(
    before: ImportWorld,
    step: ImportStep,
    after: ImportWorld,
    points: Seq<OsmWaterPoint>,
    places: Seq<OsmPlace>,
)
    requires
        before.changes_to(step, after, points, places),
    ensures
        step != ImportStep::Replace ==> after.tables == before.tables,
        step != ImportStep::ClearCache ==> after.cached_routes == before.cached_routes,
        step == ImportStep::ClearCache ==> after.cached_routes == Set::<Seq<char>>::empty(),
        step == ImportStep::RecordStart ==> after.status == Some(RecordedStatus::Running),
        step == ImportStep::RecordSuccess ==> after.status == Some(RecordedStatus::Success),
        step == ImportStep::RecordFailure ==> after.status == Some(RecordedStatus::Failed),
        step == ImportStep::Obtain || step == ImportStep::Parse || step == ImportStep::Replace
            || step == ImportStep::ClearCache ==> after.status == before.status,
{
}

} // verus!
