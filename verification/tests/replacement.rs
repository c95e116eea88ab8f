use aquatrace::import_run::{ImportNext, ImportStep};
use aquatrace::osm_import::ProgressLog;
use aquatrace::replacement::{plan_dataset, plan_water_points, ReplaceStep, Table};

#[test]
fn a_data_set_is_written_beside_the_old_one_and_then_swapped() {
    assert_eq!(
        plan_dataset(2, 1),
        vec![
            ReplaceStep::DropLeftover(Table::WaterPoints),
            ReplaceStep::CreateNext(Table::WaterPoints),
            ReplaceStep::InsertPoint { index: 0 },
            ReplaceStep::InsertPoint { index: 1 },
            ReplaceStep::DropLeftover(Table::Places),
            ReplaceStep::CreateNext(Table::Places),
            ReplaceStep::InsertPlace { index: 0 },
            ReplaceStep::ClearSearchIndex,
            ReplaceStep::DropCurrent(Table::WaterPoints),
            ReplaceStep::Activate(Table::WaterPoints),
            ReplaceStep::IndexCoordinates(Table::WaterPoints),
            ReplaceStep::DropCurrent(Table::Places),
            ReplaceStep::Activate(Table::Places),
            ReplaceStep::IndexCoordinates(Table::Places),
            ReplaceStep::FillSearchIndex,
        ]
    );
}

#[test]
fn water_points_alone_are_swapped() {
    assert_eq!(
        plan_water_points(1),
        vec![
            ReplaceStep::DropLeftover(Table::WaterPoints),
            ReplaceStep::CreateNext(Table::WaterPoints),
            ReplaceStep::UpsertPoint { index: 0 },
            ReplaceStep::DropCurrent(Table::WaterPoints),
            ReplaceStep::Activate(Table::WaterPoints),
            ReplaceStep::IndexCoordinates(Table::WaterPoints),
        ]
    );
    assert_eq!(plan_water_points(0).len(), 5);
}

#[test]
fn progress_is_reported_every_five_seconds() {
    let mut log = ProgressLog::new(1_000);
    assert!(!log.due(1_000 + 4_999_999_999));
    assert!(log.due(1_000 + 5_000_000_000));
    assert!(!log.due(1_000 + 9_999_999_999));
    assert!(log.due(1_000 + 10_000_000_000));
    assert!(!log.due(0));
}

#[test]
fn imports_record_how_they_end() {
    let mut performed = vec![ImportStep::first()];
    let end = loop {
        match performed.last().unwrap().next(true) {
            ImportNext::Perform(step) => performed.push(step),
            end => break end,
        }
    };
    assert_eq!(end, ImportNext::Succeeded);
    assert_eq!(
        performed,
        vec![
            ImportStep::RecordStart,
            ImportStep::Obtain,
            ImportStep::Parse,
            ImportStep::Replace,
            ImportStep::ClearCache,
            ImportStep::RecordSuccess,
        ]
    );
    assert_eq!(ImportStep::RecordStart.next(false), ImportNext::Failed);
    for step in [
        ImportStep::Obtain,
        ImportStep::Parse,
        ImportStep::Replace,
        ImportStep::ClearCache,
    ] {
        assert_eq!(step.next(false), ImportNext::Perform(ImportStep::RecordFailure));
    }
    assert_eq!(ImportStep::RecordSuccess.next(false), ImportNext::Failed);
    assert_eq!(ImportStep::RecordFailure.next(true), ImportNext::Failed);
    assert_eq!(ImportStep::RecordFailure.next(false), ImportNext::Failed);
}

/// Carries out the steps on tables of identifiers, as a database with primary keys does.
fn replace(points: &[i64], places: &[i64]) -> Option<(Vec<i64>, Vec<i64>, Vec<i64>)> {
    let mut used = [Some(vec![1, 2, 3]), Some(vec![4])];
    let mut next: [Option<Vec<i64>>; 2] = [Some(vec![9]), None];
    let mut search = vec![4];
    let at = |table: Table| match table {
        Table::WaterPoints => 0,
        Table::Places => 1,
    };
    for step in plan_dataset(points.len(), places.len()) {
        match step {
            ReplaceStep::DropLeftover(t) => next[at(t)] = None,
            ReplaceStep::CreateNext(t) if next[at(t)].is_none() => next[at(t)] = Some(vec![]),
            ReplaceStep::CreateNext(_) => return None,
            ReplaceStep::InsertPoint { index } => {
                let rows = next[0].as_mut()?;
                if rows.contains(&points[index]) {
                    return None;
                }
                rows.push(points[index]);
            }
            ReplaceStep::InsertPlace { index } => {
                let rows = next[1].as_mut()?;
                if rows.contains(&places[index]) {
                    return None;
                }
                rows.push(places[index]);
            }
            ReplaceStep::UpsertPoint { .. } => return None,
            ReplaceStep::ClearSearchIndex => search.clear(),
            ReplaceStep::DropCurrent(t) => used[at(t)].take().map(|_| ())?,
            ReplaceStep::Activate(t) => used[at(t)] = Some(next[at(t)].take()?),
            ReplaceStep::IndexCoordinates(t) => used[at(t)].as_ref().map(|_| ())?,
            ReplaceStep::FillSearchIndex => search.extend(used[1].as_ref()?),
        }
    }
    let [points, places] = used;
    Some((points?, places?, search))
}

#[test]
fn repeated_objects_stop_the_replacement() {
    assert_eq!(
        replace(&[7, 5], &[6, 8]),
        Some((vec![7, 5], vec![6, 8], vec![6, 8]))
    );
    assert_eq!(replace(&[], &[]), Some((vec![], vec![], vec![])));
    assert_eq!(replace(&[7, 5, 7], &[6]), None);
    assert_eq!(replace(&[7], &[6, 6]), None);
}
