//! When map data is imported, and from where.

use vstd::prelude::*;

use crate::store::OsmImportStatus;
use crate::time::{elapsed_nanos, Timestamp};

verus! {

/// How often it is checked whether an import is due, in seconds.
pub const IMPORT_POLL_SECONDS: u64 = 3_600;

/// How often progress is reported, in seconds.
pub const PROGRESS_LOG_SECONDS: u64 = 5;

/// The name of the local copy of the map extract.
pub const PBF_FILE_NAME: &'static str = "europe-latest.osm.pbf";

/// The name under which the map extract is written while it is downloaded.
pub const PBF_TEMPORARY_NAME: &'static str = "europe-latest.osm.pbf.tmp";

/// The version of the data set that this program makes.
pub const DATASET_VERSION: i64 = 3;

/// What is known of the local copy of the map extract.
#[derive(Clone, Copy, Debug, PartialEq, Eq, Structural)]
pub enum LocalPbfState {
    Absent,
    Fresh,
    Stale,
}

/// What is to be done about the map data when the program starts.
#[derive(Clone, Copy, Debug, PartialEq, Eq, Structural)]
pub enum StartupAction {
    /// Import before serving requests.
    BlockingImport,
    /// Serve requests and import meanwhile.
    BackgroundRefresh { force_download: bool },
    /// Serve requests.
    Ready,
}

/// What is to be done when the program starts.
pub open spec fn action_at_startup(
    pbf_state: LocalPbfState,
    database_is_usable: bool,
    force_download: bool,
    import_on_startup: bool,
    latest_import_is_stale: bool,
    dataset_is_current: bool,
) -> StartupAction {
    let stale = pbf_state == LocalPbfState::Stale;
    if pbf_state == LocalPbfState::Absent || !database_is_usable {
        StartupAction::BlockingImport
    } else if force_download {
        StartupAction::BackgroundRefresh { force_download: true }
    } else if !dataset_is_current || import_on_startup && (stale || latest_import_is_stale) {
        StartupAction::BackgroundRefresh { force_download: stale }
    } else {
        StartupAction::Ready
    }
}

/// What is to be done when the program starts.
pub fn startup_action(
    pbf_state: LocalPbfState,
    database_is_usable: bool,
    force_download: bool,
    import_on_startup: bool,
    latest_import_is_stale: bool,
    dataset_is_current: bool,
) -> (action: StartupAction)
    ensures
        action == action_at_startup(
            pbf_state,
            database_is_usable,
            force_download,
            import_on_startup,
            latest_import_is_stale,
            dataset_is_current,
        ),
{
    if pbf_state == LocalPbfState::Absent || !database_is_usable {
        StartupAction::BlockingImport
    } else if force_download {
        StartupAction::BackgroundRefresh { force_download: true }
    } else if !dataset_is_current || (import_on_startup && (pbf_state == LocalPbfState::Stale
        || latest_import_is_stale)) {
        StartupAction::BackgroundRefresh { force_download: pbf_state == LocalPbfState::Stale }
    } else {
        StartupAction::Ready
    }
}

/// Requests are served without an import only where both the local extract and a
/// usable database are there, whatever the settings are.
pub proof fn serving_needs_local_data(
    pbf_state: LocalPbfState,
    database_is_usable: bool,
    force_download: bool,
    import_on_startup: bool,
    latest_import_is_stale: bool,
    dataset_is_current: bool,
)
    ensures
        (action_at_startup(
            pbf_state,
            database_is_usable,
            force_download,
            import_on_startup,
            latest_import_is_stale,
            dataset_is_current,
        ) == StartupAction::BlockingImport) == (pbf_state == LocalPbfState::Absent
            || !database_is_usable),
{
}

/// Without the refresh at startup, usable data of the current version is left alone
/// unless a download is asked for.
pub proof fn refresh_at_startup_is_optional(
    pbf_state: LocalPbfState,
    latest_import_is_stale: bool,
)
    requires
        pbf_state != LocalPbfState::Absent,
    ensures
        action_at_startup(pbf_state, true, false, false, latest_import_is_stale, true)
            == StartupAction::Ready,
{
}

/// A fresh local extract is never downloaded again unless a download is asked for.
pub proof fn fresh_extracts_are_reused(
    import_on_startup: bool,
    latest_import_is_stale: bool,
    dataset_is_current: bool,
)
    ensures
        action_at_startup(
            LocalPbfState::Fresh,
            true,
            false,
            import_on_startup,
            latest_import_is_stale,
            dataset_is_current,
        ) != (StartupAction::BackgroundRefresh { force_download: true }),
{
}

/// Whether an import made the data set that this program makes.
pub open spec fn current_dataset(latest: Option<&OsmImportStatus>) -> bool {
    latest matches Some(import) && import.dataset_version == DATASET_VERSION
}

/// Whether an import made the data set that this program makes.
pub fn successful_import_has_current_dataset(latest: Option<&OsmImportStatus>) -> (b: bool)
    ensures
        b == current_dataset(latest),
{
    match latest {
        Some(import) => import.dataset_version == DATASET_VERSION,
        None => false,
    }
}

/// Whether the last import lies `interval_seconds` or more back, or never ended.
pub open spec fn stale_import(
    latest: Option<&OsmImportStatus>,
    now: Timestamp,
    interval_seconds: i64,
) -> bool {
    match latest {
        Some(import) => match import.finished_at {
            Some(finished_at) => now.nanos_since(finished_at) >= interval_seconds * 1_000_000_000,
            None => true,
        },
        None => true,
    }
}

/// Whether the last import lies `interval_seconds` or more back, or never ended.
pub fn successful_import_is_stale(
    latest: Option<&OsmImportStatus>,
    now: Timestamp,
    interval_seconds: i64,
) -> (b: bool)
    requires
        now.representable(),
        latest matches Some(import) ==> import.valid(),
    ensures
        b == stale_import(latest, now, interval_seconds),
{
    let finished_at = match latest {
        Some(import) => import.finished_at,
        None => None,
    };
    match finished_at {
        Some(time) => match elapsed_nanos(now, time) {
            Some(elapsed) => elapsed >= interval_seconds as i128 * 1_000_000_000,
            None => true,
        },
        None => true,
    }
}

/// What there is at the path of the local extract.
#[derive(Clone, Copy, Debug, PartialEq, Eq, Structural)]
pub enum LocalFile {
    Missing,
    NotRegular,
    Regular { modified: Timestamp },
}

/// What stands in the way of an import.
#[derive(Clone, Copy, Debug, PartialEq, Eq, Structural)]
pub enum ImportError {
    /// The path of the local extract does not lead to a regular file.
    NotRegularFile,
}

/// What a local file means for the import.
pub open spec fn local_state(file: LocalFile, now: Timestamp, interval_seconds: i64) -> Result<
    LocalPbfState,
    ImportError,
> {
    match file {
        LocalFile::Missing => Ok(LocalPbfState::Absent),
        LocalFile::NotRegular => Err(ImportError::NotRegularFile),
        LocalFile::Regular { modified } => if now.nanos_since(modified) <= interval_seconds
            * 1_000_000_000 {
            Ok(LocalPbfState::Fresh)
        } else {
            Ok(LocalPbfState::Stale)
        },
    }
}

/// What a local file means for the import: it is fresh up to `interval_seconds`
/// after it was last changed.
pub fn local_pbf_state(file: LocalFile, now: Timestamp, interval_seconds: i64) -> (state: Result<
    LocalPbfState,
    ImportError,
>)
    requires
        now.representable(),
        file matches LocalFile::Regular { modified } ==> modified.representable(),
    ensures
        state == local_state(file, now, interval_seconds),
{
    match file {
        LocalFile::Missing => Ok(LocalPbfState::Absent),
        LocalFile::NotRegular => Err(ImportError::NotRegularFile),
        LocalFile::Regular { modified } => match elapsed_nanos(now, modified) {
            Some(age) => if age <= interval_seconds as i128 * 1_000_000_000 {
                Ok(LocalPbfState::Fresh)
            } else {
                Ok(LocalPbfState::Stale)
            },
            None => Ok(LocalPbfState::Stale),
        },
    }
}

/// What is known of the data when the program starts.
#[derive(Clone, Copy, Debug)]
pub struct InitialData<'a> {
    pub pbf_state: LocalPbfState,
    pub has_water_points: bool,
    pub has_places: bool,
    pub latest_import: Option<&'a OsmImportStatus>,
}

impl<'a> InitialData<'a> {
    /// Whether requests can be answered from the database.
    pub open spec fn usable(self) -> bool {
        self.has_water_points && self.has_places && self.latest_import is Some
    }

    /// What is to be done about the data.
    pub open spec fn action(
        self,
        force_download: bool,
        import_on_startup: bool,
        now: Timestamp,
        interval_seconds: i64,
    ) -> StartupAction {
        action_at_startup(
            self.pbf_state,
            self.usable(),
            force_download,
            import_on_startup,
            stale_import(self.latest_import, now, interval_seconds),
            current_dataset(self.latest_import),
        )
    }

    /// What is to be done about the data.
    pub fn prepare(
        &self,
        force_download: bool,
        import_on_startup: bool,
        now: Timestamp,
        interval_seconds: i64,
    ) -> (action: StartupAction)
        requires
            now.representable(),
            self.latest_import matches Some(import) ==> import.valid(),
        ensures
            action == self.action(force_download, import_on_startup, now, interval_seconds),
    {
        let usable = self.has_water_points && self.has_places && self.latest_import.is_some();
        startup_action(
            self.pbf_state,
            usable,
            force_download,
            import_on_startup,
            successful_import_is_stale(self.latest_import, now, interval_seconds),
            successful_import_has_current_dataset(self.latest_import),
        )
    }
}

/// The refresh that is left for later by an action: nothing, or one that may have to
/// download.
pub fn refresh_on_start(action: StartupAction) -> (refresh: Option<bool>)
    ensures
        refresh == match action {
            StartupAction::BackgroundRefresh { force_download } => Some(force_download),
            _ => None,
        },
{
    match action {
        StartupAction::BackgroundRefresh { force_download } => Some(force_download),
        StartupAction::BlockingImport => None,
        StartupAction::Ready => None,
    }
}

/// Whether an import is due.
pub open spec fn due(
    pbf_state: LocalPbfState,
    latest: Option<&OsmImportStatus>,
    now: Timestamp,
    interval_seconds: i64,
) -> bool {
    ||| pbf_state != LocalPbfState::Fresh
    ||| latest is None
    ||| !current_dataset(latest)
    ||| stale_import(latest, now, interval_seconds)
}

/// Whether an import is due: the local extract is not fresh, or the last import is
/// missing, of another version or stale.
pub fn import_due(
    pbf_state: LocalPbfState,
    latest: Option<&OsmImportStatus>,
    now: Timestamp,
    interval_seconds: i64,
) -> (b: bool)
    requires
        now.representable(),
        latest matches Some(import) ==> import.valid(),
    ensures
        b == due(pbf_state, latest, now, interval_seconds),
{
    if pbf_state != LocalPbfState::Fresh {
        return true;
    }
    match latest {
        None => true,
        Some(_) => !successful_import_has_current_dataset(latest) || successful_import_is_stale(
            latest,
            now,
            interval_seconds,
        ),
    }
}

/// Whether an import reads the local extract instead of downloading one. The state
/// of the local extract is known unless a download is asked for.
pub fn uses_local_pbf(force_download: bool, pbf_state: Option<LocalPbfState>) -> (b: bool)
    ensures
        b == (!force_download && pbf_state == Some(LocalPbfState::Fresh)),
{
    match pbf_state {
        Some(state) => !force_download && state == LocalPbfState::Fresh,
        None => false,
    }
}

/// The refreshes that are still to be done.
#[derive(Clone, Copy, Debug, PartialEq, Eq, Structural)]
pub struct ImportSchedule {
    /// A refresh that is owed, and whether it has to download.
    pub refresh_pending: Option<bool>,
}

impl ImportSchedule {
    /// Starts with the refresh that is left from the start of the program.
    pub fn new(refresh_on_start: Option<bool>) -> (schedule: Self)
        ensures
            schedule.refresh_pending == refresh_on_start,
    {
        ImportSchedule { refresh_pending: refresh_on_start }
    }

    /// Whether it has to be found out if an import is due.
    pub fn asks_whether_due(&self) -> (b: bool)
        ensures
            b == (self.refresh_pending is None),
    {
        self.refresh_pending.is_none()
    }

    /// The import to run now, and whether it has to download.
    pub open spec fn next(self, import_is_due: Option<bool>) -> Option<bool> {
        match self.refresh_pending {
            Some(force_download) => Some(force_download),
            None => if import_is_due == Some(true) {
                Some(false)
            } else {
                None
            },
        }
    }

    /// The import to run now, and whether it has to download: the refresh that is
    /// owed, or else an import that is due. Nothing runs where it could not be found
    /// out whether an import is due.
    pub fn next_import(&self, import_is_due: Option<bool>) -> (import: Option<bool>)
        ensures
            import == self.next(import_is_due),
    {
        match self.refresh_pending {
            Some(force_download) => Some(force_download),
            None => match import_is_due {
                Some(is_due) => if is_due {
                    Some(false)
                } else {
                    None
                },
                None => None,
            },
        }
    }

    /// What is owed after an import.
    pub open spec fn after(self, succeeded: bool) -> ImportSchedule {
        if succeeded {
            ImportSchedule { refresh_pending: None }
        } else {
            self
        }
    }

    /// Takes note of how an import ended: after a success nothing is owed, after a
    /// failure the same as before.
    pub fn import_ended(&mut self, succeeded: bool)
        ensures
            *final(self) == old(self).after(succeeded),
    {
        if succeeded {
            self.refresh_pending = None;
        }
    }
}

/// What is owed after some imports, none of which succeeded.
pub open spec fn after_failures(schedule: ImportSchedule, failures: nat) -> ImportSchedule
    decreases failures,
{
    if failures == 0 {
        schedule
    } else {
        after_failures(schedule, (failures - 1) as nat).after(false)
    }
}

/// A refresh that fails is tried again, with the same download, at every occasion
/// until it succeeds; afterwards imports run only when they are due.
pub proof fn failed_refreshes_are_retried(
    schedule: ImportSchedule,
    failures: nat,
    import_is_due: Option<bool>,
)
    ensures
        schedule.refresh_pending is Some ==> after_failures(schedule, failures).next(import_is_due)
            == schedule.refresh_pending,
        schedule.after(true).next(import_is_due) == if import_is_due == Some(true) {
            Some(false)
        } else {
            None
        },
    decreases failures,
{
    if failures > 0 {
        failed_refreshes_are_retried(schedule, (failures - 1) as nat, import_is_due);
    }
}

/// When progress was last reported, in nanoseconds on a steady clock.
#[derive(Clone, Copy, Debug, PartialEq, Eq, Structural)]
pub struct ProgressLog {
    pub last_report: u128,
}

impl ProgressLog {
    /// Begins to count at `now`.
    pub fn new(now: u128) -> (log: Self)
        ensures
            log.last_report == now,
    {
        ProgressLog { last_report: now }
    }

    /// Whether progress is to be reported: every five seconds. A report starts the
    /// count again.
    pub fn due(&mut self, now: u128) -> (due: bool)
        ensures
            due == (now - old(self).last_report >= PROGRESS_LOG_SECONDS * 1_000_000_000),
            due == (now - old(self).last_report >= 5_000_000_000),
            final(self).last_report == if due {
                now
            } else {
                old(self).last_report
            },
    {
        if now >= self.last_report && now - self.last_report >= 5_000_000_000 {
            self.last_report = now;
            true
        } else {
            false
        }
    }
}

/// With local data, requests are served at once exactly where no download is asked for,
/// the data set is current, and either no refresh is wished at startup or both the
/// extract and the last import are recent; otherwise the data are refreshed meanwhile,
/// with a download exactly where one is asked for or the extract is stale.
pub proof fn local_data_are_refreshed_where_needed(
    pbf_state: LocalPbfState,
    force_download: bool,
    import_on_startup: bool,
    latest_import_is_stale: bool,
    dataset_is_current: bool,
)
    requires
        pbf_state == LocalPbfState::Fresh || pbf_state == LocalPbfState::Stale,
    ensures
        ({
            let action = action_at_startup(
                pbf_state,
                true,
                force_download,
                import_on_startup,
                latest_import_is_stale,
                dataset_is_current,
            );
            &&& action == StartupAction::Ready <==> !force_download && dataset_is_current && (
            !import_on_startup || (pbf_state == LocalPbfState::Fresh && !latest_import_is_stale))
            &&& action matches StartupAction::BackgroundRefresh { force_download: download }
                ==> download == (force_download || pbf_state == LocalPbfState::Stale)
            &&& action is Ready || action is BackgroundRefresh
        }),
{
}

/// The data can be used where water points and places are there and an import has
/// succeeded, and they are current where that import made version 3.
pub proof fn usable_data_are_complete(data: InitialData)
    ensures
        data.usable() <==> data.has_water_points && data.has_places && data.latest_import is Some,
        current_dataset(data.latest_import) <==> data.latest_import is Some
            && data.latest_import->0.dataset_version == 3,
{
}

/// Outside of leap seconds the last import is stale from the moment on at which it lies
/// the interval back, and one that is missing or never ended is stale at any time.
pub proof fn imports_become_stale_with_the_interval(
    import: &OsmImportStatus,
    now: Timestamp,
    interval_seconds: i64,
)
    requires
        now.nanos < 1_000_000_000,
        import.finished_at matches Some(finished) ==> finished.nanos < 1_000_000_000,
    ensures
        import.finished_at matches Some(finished) ==> (stale_import(
            Some(import),
            now,
            interval_seconds,
        ) <==> {
            ||| now.seconds - finished.seconds > interval_seconds
            ||| now.seconds - finished.seconds == interval_seconds && now.nanos >= finished.nanos
        }),
        import.finished_at is None ==> stale_import(Some(import), now, interval_seconds),
        stale_import(None, now, interval_seconds),
{
}

/// Outside of leap seconds an extract is fresh up to the moment at which it lies the
/// interval back, and stale from then on.
pub proof fn extracts_stay_fresh_for_the_interval(
    modified: Timestamp,
    now: Timestamp,
    interval_seconds: i64,
)
    requires
        now.nanos < 1_000_000_000,
        modified.nanos < 1_000_000_000,
    ensures
        ({
            let state = local_state(LocalFile::Regular { modified }, now, interval_seconds);
            &&& state == Ok::<LocalPbfState, ImportError>(LocalPbfState::Fresh) <==> {
                ||| now.seconds - modified.seconds < interval_seconds
                ||| now.seconds - modified.seconds == interval_seconds && now.nanos
                    <= modified.nanos
            }
            &&& state == Ok::<LocalPbfState, ImportError>(LocalPbfState::Fresh) || state == Ok::<
                LocalPbfState,
                ImportError,
            >(LocalPbfState::Stale)
        }),
        local_state(LocalFile::Missing, now, interval_seconds) == Ok::<LocalPbfState, ImportError>(
            LocalPbfState::Absent,
        ),
        local_state(LocalFile::NotRegular, now, interval_seconds) is Err,
{
}

/// No import is due exactly where the extract is fresh and the last import made the
/// current data set and is not stale.
pub proof fn imports_are_due_unless_all_is_recent(
    pbf_state: LocalPbfState,
    latest: Option<&OsmImportStatus>,
    now: Timestamp,
    interval_seconds: i64,
)
    ensures
        !due(pbf_state, latest, now, interval_seconds) <==> {
            &&& pbf_state == LocalPbfState::Fresh
            &&& latest is Some && latest->0.dataset_version == 3
            &&& !stale_import(latest, now, interval_seconds)
        },
{
}

/// An import that is due but not owed does not have to download; nothing runs where
/// nothing is owed and none is known to be due.
pub proof fn owed_refreshes_come_first(schedule: ImportSchedule, import_is_due: Option<bool>)
    ensures
        schedule.refresh_pending matches Some(force_download) ==> schedule.next(import_is_due)
            == Some(force_download),
        schedule.refresh_pending is None ==> {
            &&& schedule.next(Some(true)) == Some(false)
            &&& schedule.next(Some(false)) is None
            &&& schedule.next(None) is None
        },
        schedule.after(true).refresh_pending is None,
        schedule.after(false).refresh_pending == schedule.refresh_pending,
{
}

/// What is done at startup follows from the data: without the extract, the water points,
/// the places or an import that succeeded the import comes first; with all of them a
/// download that is asked for is made, data of another version than 3 are refreshed, and
/// any others only where that is wished and something is stale.
pub proof fn startup_follows_from_the_data(
    data: InitialData,
    force_download: bool,
    import_on_startup: bool,
    now: Timestamp,
    interval_seconds: i64,
)
    ensures
        ({
            let action = data.action(force_download, import_on_startup, now, interval_seconds);
            let complete = data.pbf_state != LocalPbfState::Absent && data.has_water_points
                && data.has_places && data.latest_import is Some;
            let stale = data.pbf_state == LocalPbfState::Stale;
            &&& action == StartupAction::BlockingImport <==> !complete
            &&& complete && force_download ==> action == (StartupAction::BackgroundRefresh {
                force_download: true,
            })
            &&& complete && !force_download && data.latest_import->0.dataset_version != 3
                ==> action == (StartupAction::BackgroundRefresh { force_download: stale })
            &&& complete && !force_download && data.latest_import->0.dataset_version == 3
                ==> action == if import_on_startup && (stale || stale_import(
                data.latest_import,
                now,
                interval_seconds,
            )) {
                StartupAction::BackgroundRefresh { force_download: stale }
            } else {
                StartupAction::Ready
            }
        }),
{
}

} // verus!
