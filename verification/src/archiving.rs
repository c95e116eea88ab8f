//! How a submission gets into the archive.
//!
//! It is compressed first, so that one over the quota is refused before anything is
//! deleted. Then room is made, a free name is taken, and the file is written. The
//! work on the files is the caller's; the library says what is to be done next.

use vstd::prelude::*;

use crate::archive_name::{
    all_taken, answers, archive_filename, archive_name, candidate, candidates_are_no_temporaries,
    candidates_differ, first_free, temporary_name, temporary_of, unique_name,
};
use crate::atomic_file::{a_written_file_is_complete, writes, WriteNext, WriteStep};
use crate::gpx_archive::{
    doomed, gunzipped, gzipped, has_room, nothing_is_evicted_where_there_is_room, prunes,
    pruning_respects_fates, remaining_size, storable, ArchiveEntry, ArchiveError, EntryFate,
    GpxArchive,
};
use crate::text::{has_prefix, has_suffix};
use crate::time::Timestamp;

verus! {

/// How far the archiving of a submission has come.
#[derive(Debug)]
pub enum ArchiveProgress {
    /// The submission has come.
    Submitted { bytes: Vec<u8> },
    /// It is compressed, and the archived files are listed.
    Listed { contents: Vec<u8>, entries: Vec<ArchiveEntry>, now: Timestamp },
    /// The files that had to go are removed.
    Pruned { contents: Vec<u8> },
}

/// What is to be done next for a submission.
#[derive(Debug)]
pub enum ArchiveAction {
    /// List the archived files.
    List { contents: Vec<u8> },
    /// Remove the files at these positions of the list, one by one.
    Prune { contents: Vec<u8>, remove: Vec<usize> },
    /// Write the file under the temporary name and give it its own.
    Write { contents: Vec<u8>, temporary: String, name: String },
    /// Give up.
    Refuse(ArchiveError),
}

/// Whether `action` is to be done next.
pub open spec fn leads_to<T>(
    archive: GpxArchive,
    progress: ArchiveProgress,
    base: Seq<char>,
    taken: T,
    action: ArchiveAction,
) -> bool where T: Fn(&str) -> bool {
    match progress {
        ArchiveProgress::Submitted { bytes } => match storable(gzipped(bytes@), archive.max_bytes) {
            Ok(compressed) => {
                &&& action matches ArchiveAction::List { contents } && contents@ == compressed
                &&& gunzipped(compressed) == Some(bytes@)
            },
            Err(error) => action == ArchiveAction::Refuse(error),
        },
        ArchiveProgress::Listed { contents, entries, now } => if contents@.len()
            <= archive.max_bytes {
            &&& action matches ArchiveAction::Prune { contents: kept, remove } && kept@
                == contents@ && makes_room(archive, entries@, now, contents@.len() as u64, remove@)
        } else {
            action == ArchiveAction::Refuse(ArchiveError::NoRoom)
        },
        ArchiveProgress::Pruned { contents } => match action {
            ArchiveAction::Write { contents: kept, temporary, name } => {
                &&& kept@ == contents@
                &&& first_free(taken, base, name@)
                &&& temporary@ == temporary_of(name@)
            },
            ArchiveAction::Refuse(error) => error == ArchiveError::NoName && all_taken(
                taken,
                base,
                0x1_0000_0000,
            ),
            _ => false,
        },
    }
}

/// Whether `remove` are the files that go so that `incoming` more bytes have room.
pub open spec fn makes_room(
    archive: GpxArchive,
    entries: Seq<ArchiveEntry>,
    now: Timestamp,
    incoming: u64,
    remove: Seq<usize>,
) -> bool {
    exists|order: Seq<usize>| #[trigger]
        prunes(
            entries,
            now,
            archive.retention_nanos,
            archive.max_bytes,
            incoming,
            order,
            remove,
            true,
        )
}

impl GpxArchive {
    /// What is to be done next for a submission under an identifier and a file name.
    ///
    /// `taken` tells whether a file of a name exists.
    pub fn next_action<T>(
        &self,
        progress: ArchiveProgress,
        submission_id: &str,
        original_filename: &str,
        taken: &T,
    ) -> (action: ArchiveAction) where T: Fn(&str) -> bool
        requires
            forall|s: &str| call_requires(*taken, (s,)),
        ensures
            leads_to(
                *self,
                progress,
                archive_name(submission_id@, original_filename@),
                *taken,
                action,
            ),
    {
        match progress {
            ArchiveProgress::Submitted { bytes } => match self.compress(bytes.as_slice()) {
                Ok(contents) => ArchiveAction::List { contents },
                Err(error) => ArchiveAction::Refuse(error),
            },
            ArchiveProgress::Listed { contents, entries, now } => {
                let plan = self.plan(&entries, now, contents.len() as u64);
                match plan.outcome() {
                    Ok(()) => {
                        assert(makes_room(
                            *self,
                            entries@,
                            now,
                            contents@.len() as u64,
                            plan.remove@,
                        ));
                        ArchiveAction::Prune { contents, remove: plan.remove }
                    },
                    Err(error) => ArchiveAction::Refuse(error),
                }
            },
            ArchiveProgress::Pruned { contents } => {
                let base = archive_filename(submission_id, original_filename);
                match unique_name(base.as_str(), taken) {
                    Some(name) => {
                        let temporary = temporary_name(name.as_str());
                        ArchiveAction::Write { contents, temporary, name }
                    },
                    None => ArchiveAction::Refuse(ArchiveError::NoName),
                }
            },
        }
    }
}

/// Whether an archiving that has come to `after` did `action` before.
pub open spec fn continues(action: ArchiveAction, after: ArchiveProgress) -> bool {
    match (action, after) {
        (ArchiveAction::List { contents }, ArchiveProgress::Listed { contents: kept, .. }) => kept
            == contents,
        (ArchiveAction::Prune { contents, .. }, ArchiveProgress::Pruned { contents: kept }) => kept
            == contents,
        _ => false,
    }
}

/// Whether an archiving may go through `progress`, doing `actions[i]` at
/// `progress[i]`.
pub open spec fn runs<T>(
    archive: GpxArchive,
    base: Seq<char>,
    taken: T,
    progress: Seq<ArchiveProgress>,
    actions: Seq<ArchiveAction>,
) -> bool where T: Fn(&str) -> bool {
    &&& progress.len() == actions.len()
    &&& progress.len() > 0 && progress[0] is Submitted
    &&& forall|i: int|
        0 <= i < progress.len() ==> leads_to(
            archive,
            #[trigger] progress[i],
            base,
            taken,
            actions[i],
        )
    &&& forall|i: int|
        0 <= i < progress.len() - 1 ==> continues(#[trigger] actions[i], progress[i + 1])
}

/// A submission over the quota is refused with its size, and nothing is deleted for
/// it.
pub proof fn over_quota_evicts_nothing<T>(
    archive: GpxArchive,
    base: Seq<char>,
    taken: T,
    progress: Seq<ArchiveProgress>,
    actions: Seq<ArchiveAction>,
    bytes: Vec<u8>,
) where T: Fn(&str) -> bool
    requires
        runs(archive, base, taken, progress, actions),
        progress[0] == (ArchiveProgress::Submitted { bytes }),
        gzipped(bytes@) matches Some(c) && c.len() > archive.max_bytes,
    ensures
        actions.len() == 1,
        actions[0] == ArchiveAction::Refuse(
            ArchiveError::ExceedsQuota {
                compressed_bytes: gzipped(bytes@)->0.len() as u64,
                max_bytes: archive.max_bytes,
            },
        ),
        forall|i: int| 0 <= i < actions.len() ==> !(#[trigger] actions[i] is Prune),
{
    assert(leads_to(archive, progress[0], base, taken, actions[0]));
    if actions.len() > 1 {
        assert(continues(actions[0], progress[1]));
    }
}

/// What is written is the compressed submission, which is within the quota and
/// restores to the submitted bytes; room was made for it before.
pub proof fn what_is_written_is_the_submission<T>(
    archive: GpxArchive,
    base: Seq<char>,
    taken: T,
    progress: Seq<ArchiveProgress>,
    actions: Seq<ArchiveAction>,
    bytes: Vec<u8>,
    i: int,
) where T: Fn(&str) -> bool
    requires
        runs(archive, base, taken, progress, actions),
        progress[0] == (ArchiveProgress::Submitted { bytes }),
        0 <= i < actions.len(),
        actions[i] is Write,
    ensures
        i == 2,
        actions[1] is Prune,
        actions[i]->Write_contents@.len() <= archive.max_bytes,
        gunzipped(actions[i]->Write_contents@) == Some(bytes@),
{
    assert(leads_to(archive, progress[0], base, taken, actions[0]));
    assert(leads_to(archive, progress[i], base, taken, actions[i]));
    if i > 0 {
        assert(continues(actions[0], progress[1]));
        assert(leads_to(archive, progress[1], base, taken, actions[1]));
    }
    if i > 1 {
        assert(continues(actions[1], progress[2]));
        assert(leads_to(archive, progress[2], base, taken, actions[2]));
    }
    if i > 2 {
        assert(continues(actions[2], progress[3]));
    }
}

/// Whether `taken` tells which of the names are there.
pub open spec fn tells<T>(taken: T, names: Set<Seq<char>>) -> bool where T: Fn(&str) -> bool {
    forall|s: &str, answer: bool| #[trigger]
        call_ensures(taken, (s,), answer) ==> answer == names.contains(s@)
}

/// The first names that are tried for an archive.
spec fn candidates(base: Seq<char>, n: nat) -> Set<Seq<char>>
    decreases n,
{
    if n == 0 {
        Set::empty()
    } else {
        candidates(base, (n - 1) as nat).insert(candidate(base, (n - 1) as nat))
    }
}

proof fn lemma_candidates(base: Seq<char>, n: nat)
    ensures
        candidates(base, n).finite(),
        candidates(base, n).len() == n,
        forall|name: Seq<char>| #[trigger]
            candidates(base, n).contains(name) ==> exists|i: nat|
                i < n && name == #[trigger] candidate(base, i),
    decreases n,
{
    if n > 0 {
        let m = (n - 1) as nat;
        lemma_candidates(base, m);
        if candidates(base, m).contains(candidate(base, m)) {
            let i = choose|i: nat| i < m && candidate(base, m) == #[trigger] candidate(base, i);
            candidates_differ(base, i, m);
        }
        assert forall|name: Seq<char>| #[trigger] candidates(base, n).contains(name) implies exists|
            i: nat,
        | i < n && name == #[trigger] candidate(base, i) by {
            if name == candidate(base, m) {
                assert(name == candidate(base, m));
            } else {
                assert(candidates(base, m).contains(name));
                let i = choose|i: nat| i < m && name == #[trigger] candidate(base, i);
                assert(name == candidate(base, i));
            }
        }
    }
}

/// A submission that is within the quota when it is compressed is never refused, as
/// long as there are fewer files than names to try.
pub proof fn submissions_within_the_quota_are_not_refused<T>(
    archive: GpxArchive,
    base: Seq<char>,
    taken: T,
    names: Set<Seq<char>>,
    progress: Seq<ArchiveProgress>,
    actions: Seq<ArchiveAction>,
    bytes: Vec<u8>,
    i: int,
) where T: Fn(&str) -> bool
    requires
        runs(archive, base, taken, progress, actions),
        progress[0] == (ArchiveProgress::Submitted { bytes }),
        gzipped(bytes@) matches Some(c) && c.len() <= archive.max_bytes,
        tells(taken, names),
        names.finite() && names.len() < 0x1_0000_0000,
        0 <= i < actions.len(),
    ensures
        !(actions[i] is Refuse),
        i == 0 ==> actions[i] is List,
        i == 1 ==> actions[i] is Prune,
        i == 2 ==> actions[i] is Write,
        i <= 2,
{
    assert(leads_to(archive, progress[0], base, taken, actions[0]));
    if i > 0 {
        assert(continues(actions[0], progress[1]));
        assert(leads_to(archive, progress[1], base, taken, actions[1]));
    }
    if i > 1 {
        assert(continues(actions[1], progress[2]));
        assert(leads_to(archive, progress[2], base, taken, actions[2]));
        if all_taken(taken, base, 0x1_0000_0000) {
            lemma_candidates(base, 0x1_0000_0000);
            let tried = candidates(base, 0x1_0000_0000);
            assert forall|name: Seq<char>| tried.contains(name) implies names.contains(name) by {
                let k = choose|k: nat|
                    k < 0x1_0000_0000 && name == #[trigger] candidate(base, k);
                assert(answers(taken, candidate(base, k), true));
            }
            vstd::set_lib::lemma_len_subset(tried, names);
        }
    }
    if i > 2 {
        assert(continues(actions[2], progress[3]));
    }
}

/// Whether a name is that of a temporary file.
pub open spec fn temporary_like(name: Seq<char>) -> bool {
    has_prefix(name, "."@) && has_suffix(name, ".tmp"@)
}

/// Whether only temporary files are gone.
pub open spec fn loses_only_temporaries(
    before: Map<Seq<char>, Seq<u8>>,
    after: Map<Seq<char>, Seq<u8>>,
) -> bool {
    &&& after.submap_of(before)
    &&& forall|name: Seq<char>|
        before.dom().contains(name) && !(#[trigger] after.dom().contains(name)) ==> temporary_like(
            name,
        )
}

/// The files without those at some positions of a list.
pub open spec fn without_listed(
    files: Map<Seq<char>, Seq<u8>>,
    entries: Seq<ArchiveEntry>,
    remove: Seq<usize>,
) -> Map<Seq<char>, Seq<u8>> {
    files.remove_keys(
        Set::new(
            |name: Seq<char>|
                exists|k: int|
                    0 <= k < remove.len() && entries[#[trigger] remove[k] as int].name@ == name,
        ),
    )
}

/// Where no archived file is past its retention and all of them and the incoming one
/// are within the quota, the pruning takes away temporary files only.
pub proof fn pruning_with_room_loses_only_temporaries(
    archive: GpxArchive,
    entries: Seq<ArchiveEntry>,
    now: Timestamp,
    incoming: u64,
    remove: Seq<usize>,
    files: Map<Seq<char>, Seq<u8>>,
)
    requires
        entries.len() <= usize::MAX,
        makes_room(archive, entries, now, incoming, remove),
        forall|k: int|
            0 <= k < entries.len() ==> (#[trigger] entries[k]).fate(now, archive.retention_nanos)
                != EntryFate::Expired,
        has_room(
            remaining_size(
                entries,
                now,
                archive.retention_nanos,
                doomed(entries, now, archive.retention_nanos),
                entries.len() as int,
            ),
            incoming,
            archive.max_bytes,
        ),
    ensures
        loses_only_temporaries(files, without_listed(files, entries, remove)),
{
    let order = choose|order: Seq<usize>| #[trigger]
        prunes(
            entries,
            now,
            archive.retention_nanos,
            archive.max_bytes,
            incoming,
            order,
            remove,
            true,
        );
    nothing_is_evicted_where_there_is_room(
        entries,
        now,
        archive.retention_nanos,
        archive.max_bytes,
        incoming,
        order,
        remove,
        true,
    );
    pruning_respects_fates(
        entries,
        now,
        archive.retention_nanos,
        archive.max_bytes,
        incoming,
        order,
        remove,
        true,
    );
    let after = without_listed(files, entries, remove);
    assert forall|name: Seq<char>|
        files.dom().contains(name) && !(#[trigger] after.dom().contains(
            name,
        )) implies temporary_like(name) by {
        let k = choose|k: int|
            0 <= k < remove.len() && entries[#[trigger] remove[k] as int].name@ == name;
        assert(remove[k] < entries.len());
        assert(entries[remove[k] as int].fate(now, archive.retention_nanos)
            == EntryFate::StaleTemporary);
    }
}

/// Whether the archiving of a submission may turn the files `before` into the files
/// `after`: temporary files go, the first free name is taken, and the file is
/// written under it.
pub open spec fn archived<T>(
    taken: T,
    before: Map<Seq<char>, Seq<u8>>,
    after: Map<Seq<char>, Seq<u8>>,
    base: Seq<char>,
    name: Seq<char>,
    contents: Seq<u8>,
) -> bool where T: Fn(&str) -> bool {
    exists|files: Seq<Map<Seq<char>, Seq<u8>>>, steps: Seq<WriteStep>|
        {
            &&& #[trigger] writes(
                files,
                steps,
                WriteNext::Done,
                temporary_of(name),
                name,
                contents,
            )
            &&& loses_only_temporaries(before, files[0])
            &&& tells(taken, files[0].dom())
            &&& first_free(taken, base, name)
            &&& files.last() == after
        }
}

proof fn lemma_archived<T>(
    taken: T,
    before: Map<Seq<char>, Seq<u8>>,
    after: Map<Seq<char>, Seq<u8>>,
    id: Seq<char>,
    filename: Seq<char>,
    name: Seq<char>,
    contents: Seq<u8>,
) where T: Fn(&str) -> bool
    requires
        archived(taken, before, after, archive_name(id, filename), name, contents),
    ensures
        !temporary_like(name),
        temporary_like(temporary_of(name)),
        !before.dom().contains(name),
        after.dom().contains(name) && after[name] == contents,
        !after.dom().contains(temporary_of(name)),
        forall|other: Seq<char>|
            other != name && #[trigger] after.dom().contains(other) ==> before.dom().contains(other)
                && after[other] == before[other],
        forall|other: Seq<char>|
            before.dom().contains(other) && !temporary_like(other) ==> #[trigger] after.dom().contains(
                other,
            ),
{
    let base = archive_name(id, filename);
    let (files, steps) = choose|files: Seq<Map<Seq<char>, Seq<u8>>>, steps: Seq<WriteStep>|
        {
            &&& #[trigger] writes(
                files,
                steps,
                WriteNext::Done,
                temporary_of(name),
                name,
                contents,
            )
            &&& loses_only_temporaries(before, files[0])
            &&& tells(taken, files[0].dom())
            &&& first_free(taken, base, name)
            &&& files.last() == after
        };
    let attempt = choose|attempt: nat|
        {
            &&& name == #[trigger] candidate(base, attempt)
            &&& answers(taken, candidate(base, attempt), false)
            &&& all_taken(taken, base, attempt)
        };
    candidates_are_no_temporaries(id, filename, attempt);
    a_written_file_is_complete(files, steps, temporary_of(name), name, contents);
    let s = choose|s: &str| s@ == name && #[trigger] call_ensures(taken, (s,), false);
    assert(!files[0].dom().contains(s@));
    let pruned = files[0];
    assert(!before.dom().contains(name)) by {
        if before.dom().contains(name) {
            assert(!pruned.dom().contains(name));
        }
    }
    assert forall|other: Seq<char>|
        other != name && #[trigger] after.dom().contains(other) implies before.dom().contains(other)
        && after[other] == before[other] by {
        assert(pruned.dom().contains(other));
    }
    assert forall|other: Seq<char>|
        before.dom().contains(other) && !temporary_like(
            other,
        ) implies #[trigger] after.dom().contains(other) by {
        assert(pruned.dom().contains(other));
    }
}

/// The states of a directory in which submissions are archived one after the other
/// under one name, with `names[i]` and `contents[i]` for the one between the states
/// `i` and `i + 1`.
pub open spec fn archived_in_turn<T>(
    taken: Seq<T>,
    files: Seq<Map<Seq<char>, Seq<u8>>>,
    base: Seq<char>,
    names: Seq<Seq<char>>,
    contents: Seq<Seq<u8>>,
) -> bool where T: Fn(&str) -> bool {
    &&& files.len() == names.len() + 1
    &&& contents.len() == names.len()
    &&& taken.len() == names.len()
    &&& forall|i: int|
        0 <= i < names.len() ==> archived(
            taken[i],
            files[i],
            files[i + 1],
            base,
            #[trigger] names[i],
            contents[i],
        )
}

/// Submissions that are archived one after the other under one name, with room for
/// all of them, all remain: each has a name of its own and holds what was stored
/// for it, no temporary file of theirs is left, and nothing else is added or
/// changed. In a directory that was empty there are then exactly as many files as
/// submissions.
pub proof fn submissions_under_one_name_all_remain<T>(
    taken: Seq<T>,
    files: Seq<Map<Seq<char>, Seq<u8>>>,
    id: Seq<char>,
    filename: Seq<char>,
    names: Seq<Seq<char>>,
    contents: Seq<Seq<u8>>,
) where T: Fn(&str) -> bool
    requires
        archived_in_turn(taken, files, archive_name(id, filename), names, contents),
    ensures
        forall|i: int, j: int| 0 <= i < j < names.len() ==> names[i] != names[j],
        forall|i: int|
            0 <= i < names.len() ==> {
                &&& files.last().dom().contains(#[trigger] names[i])
                &&& files.last()[names[i]] == contents[i]
                &&& !files.last().dom().contains(temporary_of(names[i]))
                &&& !files[0].dom().contains(names[i])
            },
        forall|other: Seq<char>|
            !names.contains(other) && #[trigger] files.last().dom().contains(other)
                ==> files[0].dom().contains(other) && files.last()[other] == files[0][other],
        forall|other: Seq<char>|
            files[0].dom().contains(other) && !temporary_like(other)
                ==> #[trigger] files.last().dom().contains(other) && files.last()[other]
                == files[0][other],
        files[0].dom() == Set::<Seq<char>>::empty() ==> {
            &&& files.last().dom() == names.to_set()
            &&& files.last().dom().finite()
            &&& files.last().dom().len() == names.len()
        },
    decreases names.len(),
{
    let base = archive_name(id, filename);
    if names.len() == 0 && files[0].dom() == Set::<Seq<char>>::empty() {
        assert(names.to_set() =~= Set::empty());
    }
    if names.len() > 0 {
        let n = names.len() - 1;
        let fewer = names.drop_last();
        assert(archived_in_turn(
            taken.drop_last(),
            files.drop_last(),
            base,
            fewer,
            contents.drop_last(),
        )) by {
            assert forall|i: int| 0 <= i < fewer.len() implies archived(
                taken.drop_last()[i],
                files.drop_last()[i],
                files.drop_last()[i + 1],
                base,
                #[trigger] fewer[i],
                contents.drop_last()[i],
            ) by {
                assert(fewer[i] == names[i]);
            }
        }
        submissions_under_one_name_all_remain(
            taken.drop_last(),
            files.drop_last(),
            id,
            filename,
            fewer,
            contents.drop_last(),
        );
        let before = files[n];
        let after = files[n + 1];
        assert(files.drop_last().last() == before);
        assert(files.drop_last()[0] == files[0]);
        lemma_archived(taken[n], before, after, id, filename, names[n], contents[n]);
        assert forall|i: int| 0 <= i < fewer.len() implies {
            &&& after.dom().contains(#[trigger] names[i])
            &&& after[names[i]] == contents[i]
            &&& !after.dom().contains(temporary_of(names[i]))
            &&& names[i] != names[n]
        } by {
            assert(fewer[i] == names[i]);
            assert(before.dom().contains(names[i]));
            assert(archived(taken[i], files[i], files[i + 1], base, names[i], contents[i]));
            lemma_archived(
                taken[i],
                files[i],
                files[i + 1],
                id,
                filename,
                names[i],
                contents[i],
            );
            assert(after.dom().contains(names[i]));
        }
        assert forall|other: Seq<char>|
            files[0].dom().contains(other) && !temporary_like(
                other,
            ) implies #[trigger] after.dom().contains(other) && after[other] == files[0][other] by {
            assert(before.dom().contains(other));
            assert(after.dom().contains(other));
        }
        assert forall|other: Seq<char>|
            !names.contains(other) && #[trigger] after.dom().contains(
                other,
            ) implies files[0].dom().contains(other) && after[other] == files[0][other] by {
            assert(names[n] != other) by {
                assert(names.contains(names[n]));
            }
            assert(!fewer.contains(other)) by {
                if fewer.contains(other) {
                    let k = choose|k: int| 0 <= k < fewer.len() && fewer[k] == other;
                    assert(names[k] == other);
                }
            }
            assert(before.dom().contains(other));
        }
        assert(!files[0].dom().contains(names[n])) by {
            if files[0].dom().contains(names[n]) {
                assert(before.dom().contains(names[n]));
            }
        }
        assert(files.last() == after);
        assert forall|i: int, j: int| 0 <= i < j < names.len() implies names[i] != names[j] by {
            assert(fewer[i] == names[i]);
            if j < n {
                assert(fewer[j] == names[j]);
            }
        }
        assert forall|i: int| 0 <= i < names.len() implies {
            &&& after.dom().contains(#[trigger] names[i])
            &&& after[names[i]] == contents[i]
            &&& !after.dom().contains(temporary_of(names[i]))
            &&& !files[0].dom().contains(names[i])
        } by {
            if i < n {
                assert(fewer[i] == names[i]);
            }
        }
        if files[0].dom() == Set::<Seq<char>>::empty() {
            assert forall|name: Seq<char>| names.to_set().contains(
                name,
            ) implies after.dom().contains(name) by {
                let k = choose|k: int| 0 <= k < names.len() && names[k] == name;
                assert(after.dom().contains(names[k]));
            }
            assert(after.dom() =~= names.to_set());
            assert(names.no_duplicates());
            names.unique_seq_to_set();
        }
    }
}

/// Every action carries on what came before it: the compressed submission is listed,
/// kept through the pruning and written, under a free name and first under that name
/// with a dot before and `.tmp` behind it.
pub proof fn actions_carry_the_contents<T>(
    archive: GpxArchive,
    progress: ArchiveProgress,
    base: Seq<char>,
    taken: T,
    action: ArchiveAction,
) where T: Fn(&str) -> bool
    requires
        leads_to(archive, progress, base, taken, action),
    ensures
        progress matches ArchiveProgress::Submitted { bytes } ==> {
            &&& action is List <==> (gzipped(bytes@) matches Some(c) && c.len()
                <= archive.max_bytes)
            &&& action matches ArchiveAction::List { contents } ==> gzipped(bytes@) == Some(
                contents@,
            ) && gunzipped(contents@) == Some(bytes@)
            &&& action is List || action is Refuse
        },
        progress matches ArchiveProgress::Listed { contents, entries, now } ==> {
            &&& action is Prune <==> contents@.len() <= archive.max_bytes
            &&& action matches ArchiveAction::Prune { contents: kept, remove } ==> kept@
                == contents@ && exists|order: Seq<usize>| #[trigger]
                prunes(
                    entries@,
                    now,
                    archive.retention_nanos,
                    archive.max_bytes,
                    contents@.len() as u64,
                    order,
                    remove@,
                    true,
                )
            &&& action is Prune || action == ArchiveAction::Refuse(ArchiveError::NoRoom)
        },
        progress matches ArchiveProgress::Pruned { contents } ==> {
            &&& action matches ArchiveAction::Write { contents: kept, temporary, name } ==> {
                &&& kept@ == contents@
                &&& temporary@ == "."@ + name@ + ".tmp"@
                &&& exists|s: &str| s@ == name@ && #[trigger] call_ensures(taken, (s,), false)
            }
            &&& action is Write || action == ArchiveAction::Refuse(ArchiveError::NoName)
        },
{
    match (progress, action) {
        (
            ArchiveProgress::Pruned { contents },
            ArchiveAction::Write { contents: kept, temporary, name },
        ) => {
            let attempt = choose|attempt: nat|
                {
                    &&& name@ == #[trigger] candidate(base, attempt)
                    &&& answers(taken, candidate(base, attempt), false)
                    &&& all_taken(taken, base, attempt)
                };
            assert(answers(taken, name@, false));
        },
        _ => {},
    }
}

} // verus!
