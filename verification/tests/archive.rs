use std::io::Read;

use aquatrace::archive_name::{
    archive_filename, candidate_name, identify, submission_id, temporary_name, unique_name,
};
use aquatrace::archiving::{ArchiveAction, ArchiveProgress};
use aquatrace::atomic_file::{first_step, next_step, WriteNext, WriteStep};
use aquatrace::filename::safe_filename;
use aquatrace::gpx_archive::{
    accept_compressed, entry_fate, prune_plan, restore, ArchiveCategory, ArchiveEntry,
    ArchiveError, EntryFate, GpxArchive,
};
use aquatrace::time::Timestamp;

fn at(seconds: i64, nanos: u32) -> Timestamp {
    Timestamp { seconds, nanos }
}

fn entry(name: &str, size: u64, modified: i64) -> ArchiveEntry {
    ArchiveEntry {
        name: name.to_owned(),
        is_file: true,
        size,
        modified: Some(at(modified, 0)),
    }
}

const MINUTE: u128 = 60_000_000_000;

#[test]
fn sanitizes_untrusted_filenames() {
    assert_eq!(safe_filename("../../My ride (final).gpx"), "My_ride__final_.gpx");
    assert_eq!(safe_filename(".."), "route.gpx");
    assert_eq!(safe_filename("RIDE.GPX"), "RIDE.gpx");
}

#[test]
fn odd_file_names_become_plain_ones() {
    assert_eq!(safe_filename(""), "route.gpx");
    assert_eq!(safe_filename("."), "route.gpx");
    assert_eq!(safe_filename("/"), "route.gpx");
    assert_eq!(safe_filename("a/.."), "route.gpx");
    assert_eq!(safe_filename("a/b/."), "b.gpx");
    assert_eq!(safe_filename("a/b//"), "b.gpx");
    assert_eq!(safe_filename("./x"), "x.gpx");
    assert_eq!(safe_filename(".gpx"), "route.gpx");
    assert_eq!(safe_filename("...gpx"), "route.gpx");
    assert_eq!(safe_filename("....gpx"), "....gpx");
    assert_eq!(safe_filename("été.gpx"), "_t_.gpx");
    assert_eq!(safe_filename("a\\b"), "a_b.gpx");
    assert_eq!(safe_filename("trip.gpx.gpx"), "trip.gpx.gpx");
}

#[test]
fn the_last_part_of_a_path_is_that_of_the_standard_library() {
    for path in ["a/b", "a/b/", "a/./b/.", "..", "../x", "x/..", "/", "", ".", "./.", "a//b", "/a"] {
        let expected = std::path::Path::new(path).file_name().and_then(|n| n.to_str());
        let name = safe_filename(path);
        match expected {
            Some(part) => assert_eq!(name, format!("{part}.gpx"), "{path}"),
            None => assert_eq!(name, "route.gpx", "{path}"),
        }
    }
}

#[test]
fn long_file_names_are_cut() {
    let long = "x".repeat(200);
    let name = safe_filename(&format!("{long}.gpx"));
    assert_eq!(name, format!("{}.gpx", "x".repeat(92)));
    assert_eq!(safe_filename(&name), name);
}

#[test]
fn a_safe_name_is_its_own_safe_name() {
    for name in ["../../My ride (final).gpx", "..", "RIDE.GPX", "a.b-c_d", "x.gpx.GPX"] {
        let safe = safe_filename(name);
        assert_eq!(safe_filename(&safe), safe);
    }
}

#[test]
fn archived_bytes_decompress_to_the_submission() {
    let archive = GpxArchive::new("log".to_owned(), MINUTE, 1024);
    let contents = b"<gpx>route</gpx>";
    let compressed = archive.compress(contents).unwrap();
    assert_ne!(compressed, contents);
    let mut decoded = Vec::new();
    flate2::read::GzDecoder::new(&compressed[..]).read_to_end(&mut decoded).unwrap();
    assert_eq!(decoded, contents);
    assert_eq!(restore(&compressed).unwrap(), contents);
    assert_eq!(restore(b"not compressed"), None);
    assert_eq!(archive.compress(contents).unwrap(), compressed);
    assert_eq!(archive.compress(b"").unwrap()[..2], [0x1f, 0x8b]);
}

#[test]
fn a_submission_larger_than_the_quota_is_not_archived() {
    let archive = GpxArchive::new("log".to_owned(), MINUTE, 10);
    match archive.compress(b"some bytes") {
        Err(ArchiveError::ExceedsQuota { compressed_bytes, max_bytes }) => {
            assert!(compressed_bytes > 10);
            assert_eq!(max_bytes, 10);
        }
        other => panic!("{other:?}"),
    }
    assert_eq!(accept_compressed(None, 10).unwrap_err(), ArchiveError::Compression);
    assert_eq!(
        accept_compressed(Some(vec![1, 2, 3]), 2).unwrap_err(),
        ArchiveError::ExceedsQuota { compressed_bytes: 3, max_bytes: 2 }
    );
    assert_eq!(accept_compressed(Some(vec![1, 2]), 2).unwrap(), vec![1, 2]);
}

#[test]
fn entries_have_their_fates() {
    let now = at(1_000, 0);
    assert_eq!(entry_fate(&entry("a.gpx.gz", 1, 990), now, MINUTE), EntryFate::Stored);
    assert_eq!(entry_fate(&entry("a.gpx.gz", 1, 940), now, MINUTE), EntryFate::Stored);
    assert_eq!(entry_fate(&entry("a.gpx.gz", 1, 939), now, MINUTE), EntryFate::Expired);
    assert_eq!(entry_fate(&entry("a.gpx.gz", 1, 2_000), now, 0), EntryFate::Stored);
    assert_eq!(entry_fate(&entry(".a.tmp", 1, 999), now, MINUTE), EntryFate::StaleTemporary);
    assert_eq!(entry_fate(&entry("notes.txt", 1, 0), now, MINUTE), EntryFate::Ignored);
    assert_eq!(entry_fate(&entry("a.tmp", 1, 0), now, MINUTE), EntryFate::Ignored);
    let directory = ArchiveEntry { is_file: false, ..entry("d.gpx.gz", 1, 0) };
    assert_eq!(entry_fate(&directory, now, MINUTE), EntryFate::Ignored);
    let unknown = ArchiveEntry { modified: None, ..entry("u.gpx.gz", 1, 0) };
    assert_eq!(entry_fate(&unknown, now, MINUTE), EntryFate::Expired);
    assert_eq!(entry_fate(&unknown, at(30, 0), MINUTE), EntryFate::Stored);
}

#[test]
fn expired_files_go_and_strange_files_stay() {
    let entries = vec![
        entry("new.gpx.gz", 10, 95),
        entry("old.gpx.gz", 10, 1),
        entry(".left.tmp", 10, 99),
        entry("readme", 10, 1),
    ];
    let archive = GpxArchive::new("log".to_owned(), MINUTE, 1024);
    let plan = archive.plan(&entries, at(100, 0), 0);
    assert_eq!(plan.remove, vec![1, 2]);
    assert!(plan.fits);
    assert_eq!(plan.outcome(), Ok(()));
}

#[test]
fn the_oldest_files_go_until_there_is_room() {
    let entries = vec![
        entry("c.gpx.gz", 30, 93),
        entry("a.gpx.gz", 20, 91),
        entry("b.gpx.gz", 25, 92),
        entry("d.gpx.gz", 10, 94),
    ];
    let plan = prune_plan(&entries, at(100, 0), MINUTE, 60, 15);
    assert_eq!(plan.remove, vec![1, 2]);
    assert!(plan.fits);
    let plan = prune_plan(&entries, at(100, 0), MINUTE, 85, 0);
    assert!(plan.remove.is_empty());
    let plan = prune_plan(&entries, at(100, 0), MINUTE, 84, 0);
    assert_eq!(plan.remove, vec![1]);
}

#[test]
fn files_of_the_same_age_go_in_the_order_in_which_they_are_listed() {
    let entries = vec![entry("x.gpx.gz", 5, 90), entry("y.gpx.gz", 5, 90), entry("z.gpx.gz", 5, 90)];
    let plan = prune_plan(&entries, at(100, 0), MINUTE, 5, 0);
    assert_eq!(plan.remove, vec![0, 1]);
}

#[test]
fn a_file_larger_than_the_quota_gets_no_room() {
    let entries = vec![entry("a.gpx.gz", 5, 90)];
    let archive = GpxArchive::new("log".to_owned(), MINUTE, 10);
    let plan = archive.plan(&entries, at(100, 0), 11);
    assert_eq!(plan.remove, vec![0]);
    assert!(!plan.fits);
    assert_eq!(plan.outcome(), Err(ArchiveError::NoRoom));
    assert!(archive.plan(&entries, at(100, 0), 10).fits);
}

#[test]
fn sizes_may_add_up_beyond_64_bits() {
    let entries = vec![entry("a.gpx.gz", u64::MAX, 90), entry("b.gpx.gz", u64::MAX, 91)];
    let plan = prune_plan(&entries, at(100, 0), MINUTE, 10, 1);
    assert_eq!(plan.remove, vec![0, 1]);
    assert!(plan.fits);
    let plan = prune_plan(&entries, at(100, 0), MINUTE, u64::MAX, 1);
    assert!(plan.remove.is_empty());
    assert!(plan.fits);
}

#[test]
fn categories_have_directories() {
    assert_eq!(ArchiveCategory::Valid.as_str(), "valid");
    assert_eq!(ArchiveCategory::Error.as_str(), "error");
}

#[test]
fn submissions_are_identified() {
    let id = submission_id(at(1_700_000_000, 123_456_789), 7, "0123456789abcdef").unwrap();
    assert_eq!(id, "20231114T221320.123456Z-000007-0123456789ab");
    let short = submission_id(at(0, 0), 1_234_567, "abc").unwrap();
    assert_eq!(short, "19700101T000000.000000Z-1234567-abc");
    assert!(submission_id(at(i64::MAX, 0), 0, "abc").is_none());
    assert_eq!(identify("t".to_owned(), 0, "ééééééz"), "t-000000-éééééé");
    assert_ne!(identify("t".to_owned(), 1, "h"), identify("t".to_owned(), 2, "h"));
}

#[test]
fn archives_are_named_after_their_submission() {
    let name = archive_filename("id", "../My ride.GPX");
    assert_eq!(name, "id-My_ride.gpx.gz");
    assert_eq!(temporary_name(&name), ".id-My_ride.gpx.gz.tmp");
    let now = at(0, 0);
    assert_eq!(entry_fate(&entry(&name, 1, 0), now, 0), EntryFate::Stored);
    assert_eq!(entry_fate(&entry(&temporary_name(&name), 1, 0), now, 0), EntryFate::StaleTemporary);
}

#[test]
fn taken_names_are_numbered() {
    assert_eq!(candidate_name("a.gpx.gz", 0), "a.gpx.gz");
    assert_eq!(candidate_name("a.gpx.gz", 12), "a.12.gpx.gz");
    assert_eq!(candidate_name("a", 3), "a.3");
    let taken = ["a.gpx.gz", "a.1.gpx.gz", "a.3.gpx.gz"];
    let found = unique_name("a.gpx.gz", &|name: &str| taken.contains(&name));
    assert_eq!(found.as_deref(), Some("a.2.gpx.gz"));
    let free = unique_name("b.gpx.gz", &|name: &str| taken.contains(&name));
    assert_eq!(free.as_deref(), Some("b.gpx.gz"));
}

#[test]
fn files_are_written_step_by_step() {
    let mut performed = vec![first_step()];
    while let WriteNext::Perform(step) = next_step(*performed.last().unwrap(), true) {
        performed.push(step);
    }
    assert_eq!(
        performed,
        vec![WriteStep::Create, WriteStep::Write, WriteStep::Sync, WriteStep::Rename]
    );
    assert_eq!(next_step(WriteStep::Rename, true), WriteNext::Done);
    for step in performed {
        assert_eq!(next_step(step, false), WriteNext::CleanUp);
    }
}

/// Archives a submission among files that are kept in memory.
fn archive_into(
    archive: &GpxArchive,
    files: &mut Vec<(String, Vec<u8>)>,
    bytes: &[u8],
) -> Result<String, ArchiveError> {
    let mut progress = ArchiveProgress::Submitted { bytes: bytes.to_vec() };
    loop {
        let action = {
            let taken = |name: &str| files.iter().any(|f| f.0 == name);
            archive.next_action(progress, "submission", "ride.gpx", &taken)
        };
        progress = match action {
            ArchiveAction::List { contents } => ArchiveProgress::Listed {
                contents,
                entries: files.iter().map(|f| entry(&f.0, f.1.len() as u64, 90)).collect(),
                now: at(100, 0),
            },
            ArchiveAction::Prune { contents, remove } => {
                let mut kept = Vec::new();
                for (i, file) in files.drain(..).enumerate() {
                    if !remove.contains(&i) {
                        kept.push(file);
                    }
                }
                *files = kept;
                ArchiveProgress::Pruned { contents }
            }
            ArchiveAction::Write { contents, temporary, name } => {
                assert_eq!(temporary, format!(".{name}.tmp"));
                files.push((name.clone(), contents));
                return Ok(name);
            }
            ArchiveAction::Refuse(error) => return Err(error),
        };
    }
}

#[test]
fn submissions_under_one_name_all_remain() {
    let archive = GpxArchive::new("log".to_owned(), MINUTE, 1 << 20);
    let mut files = vec![
        ("other.gpx.gz".to_owned(), vec![1, 2, 3]),
        (".submission-ride.gpx.gz.tmp".to_owned(), vec![4]),
    ];
    let submissions: Vec<Vec<u8>> = (0..8).map(|i| format!("<gpx>{i}</gpx>").into_bytes()).collect();
    let mut names = Vec::new();
    for bytes in &submissions {
        names.push(archive_into(&archive, &mut files, bytes).unwrap());
    }
    assert_eq!(names[0], "submission-ride.gpx.gz");
    assert_eq!(names[1], "submission-ride.1.gpx.gz");
    assert_eq!(files.len(), submissions.len() + 1);
    assert!(files.iter().any(|f| f.0 == "other.gpx.gz" && f.1 == [1, 2, 3]));
    for (name, bytes) in names.iter().zip(&submissions) {
        assert_eq!(names.iter().filter(|n| *n == name).count(), 1);
        let stored = &files.iter().find(|f| &f.0 == name).unwrap().1;
        assert_eq!(restore(stored).as_ref(), Some(bytes));
    }
}

#[test]
fn a_submission_over_the_quota_evicts_nothing() {
    let archive = GpxArchive::new("log".to_owned(), 0, 30);
    let before = vec![("old.gpx.gz".to_owned(), vec![0; 25]), (".left.tmp".to_owned(), vec![])];
    let mut files = before.clone();
    let noise: Vec<u8> = (0..200u32).map(|i| (i * i * 31 % 251) as u8).collect();
    match archive_into(&archive, &mut files, &noise) {
        Err(ArchiveError::ExceedsQuota { compressed_bytes, max_bytes }) => {
            assert!(compressed_bytes > 30);
            assert_eq!(max_bytes, 30);
        }
        other => panic!("{other:?}"),
    }
    assert_eq!(files, before);
    let name = archive_into(&archive, &mut files, b"").unwrap();
    assert_eq!(files.len(), 1);
    assert_eq!(files[0].0, name);
}

#[test]
fn archiving_without_room_is_refused() {
    let archive = GpxArchive::new("log".to_owned(), MINUTE, 2);
    let listed = ArchiveProgress::Listed { contents: vec![1, 2, 3], entries: vec![], now: at(1, 0) };
    match archive.next_action(listed, "s", "r.gpx", &|_: &str| false) {
        ArchiveAction::Refuse(error) => assert_eq!(error, ArchiveError::NoRoom),
        other => panic!("{other:?}"),
    }
}
