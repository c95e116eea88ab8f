//! The archive of submitted GPX files.
//!
//! Every submission is kept, compressed, among the valid or among the rejected
//! ones. Files that are too old go first, then the oldest ones until the quota
//! leaves room for the next file.

use vstd::prelude::*;

use crate::order::{stable_order, stable_ordering, stands_before, SortKey};
use crate::text::{ends_with, has_prefix, has_suffix, starts_with};
use crate::time::Timestamp;

verus! {

/// Where a submission is archived.
#[derive(Clone, Copy, Debug, PartialEq, Eq, Structural)]
pub enum ArchiveCategory {
    Valid,
    Error,
}

impl ArchiveCategory {
    /// The directory of the category.
    pub open spec fn directory(self) -> Seq<char> {
        match self {
            ArchiveCategory::Valid => "valid"@,
            ArchiveCategory::Error => "error"@,
        }
    }

    /// The directory of the category.
    pub fn as_str(self) -> (s: &'static str)
        ensures
            s@ == self.directory(),
    {
        match self {
            ArchiveCategory::Valid => "valid",
            ArchiveCategory::Error => "error",
        }
    }
}

/// A file that was archived.
#[derive(Debug)]
pub struct ArchiveRecord {
    pub path: String,
    pub compressed_bytes: u64,
}

/// The place and the limits of an archive.
#[derive(Clone, Debug)]
pub struct GpxArchive {
    pub root: String,
    pub retention_nanos: u128,
    pub max_bytes: u64,
}

/// Why a submission is not archived.
#[derive(Clone, Copy, Debug, PartialEq, Eq, Structural)]
pub enum ArchiveError {
    /// The file could not be compressed.
    Compression,
    /// The compressed file alone is larger than the quota.
    ExceedsQuota { compressed_bytes: u64, max_bytes: u64 },
    /// The quota leaves no room for the file.
    NoRoom,
    /// Every name for the file is taken.
    NoName,
}

/// What `flate2::write::GzEncoder` at the default level makes of some bytes.
pub uninterp spec fn gzipped(bytes: Seq<u8>) -> Option<Seq<u8>>;

/// What `flate2::read::GzDecoder` reads to the end of some bytes.
pub uninterp spec fn gunzipped(bytes: Seq<u8>) -> Option<Seq<u8>>;

/// Compresses with `flate2::write::GzEncoder` into memory.
///
/// The result is a function of the bytes alone: the header holds no time and no
/// system. What comes out is decompressed by `flate2::read::GzDecoder` to the same
/// bytes. That compression never fails is left unsaid.
#[verifier::external_body]
fn gzip(bytes: &[u8]) -> (compressed: Option<Vec<u8>>)
    ensures
        match compressed {
            Some(c) => gzipped(bytes@) == Some(c@) && gunzipped(c@) == Some(bytes@),
            None => gzipped(bytes@) is None,
        },
{
    let mut encoder = flate2::write::GzEncoder::new(Vec::new(), flate2::Compression::default());
    std::io::Write::write_all(&mut encoder, bytes).ok()?;
    encoder.finish().ok()
}

/// Decompresses with `flate2::read::GzDecoder`, to the end.
///
/// The result is a function of the bytes alone. Which bytes it is, other than what
/// `gzip` says of its own, is left unsaid.
#[verifier::external_body]
fn gunzip(bytes: &[u8]) -> (contents: Option<Vec<u8>>)
    ensures
        match contents {
            Some(c) => gunzipped(bytes@) == Some(c@),
            None => gunzipped(bytes@) is None,
        },
{
    let mut contents: Vec<u8> = Vec::new();
    let mut decoder = flate2::read::GzDecoder::new(bytes);
    std::io::Read::read_to_end(&mut decoder, &mut contents).ok()?;
    Some(contents)
}

/// The submission that a stored file holds; nothing where it is damaged.
pub fn restore(stored: &[u8]) -> (bytes: Option<Vec<u8>>)
    ensures
        match bytes {
            Some(b) => gunzipped(stored@) == Some(b@),
            None => gunzipped(stored@) is None,
        },
{
    gunzip(stored)
}

/// What is stored for compressed bytes under a quota.
pub open spec fn storable(compressed: Option<Seq<u8>>, max_bytes: u64) -> Result<
    Seq<u8>,
    ArchiveError,
> {
    match compressed {
        None => Err(ArchiveError::Compression),
        Some(c) => if c.len() > max_bytes {
            Err(ArchiveError::ExceedsQuota { compressed_bytes: c.len() as u64, max_bytes })
        } else {
            Ok(c)
        },
    }
}

/// Accepts the outcome of a compression that fits the quota.
pub fn accept_compressed(compressed: Option<Vec<u8>>, max_bytes: u64) -> (stored: Result<
    Vec<u8>,
    ArchiveError,
>)
    ensures
        match stored {
            Ok(c) => compressed == Some(c) && c@.len() <= max_bytes,
            Err(error) => match compressed {
                None => error == ArchiveError::Compression,
                Some(c) => {
                    &&& c@.len() > max_bytes
                    &&& error == ArchiveError::ExceedsQuota {
                        compressed_bytes: c@.len() as u64,
                        max_bytes,
                    }
                },
            },
        },
{
    match compressed {
        None => Err(ArchiveError::Compression),
        Some(c) => {
            let compressed_bytes = c.len() as u64;
            if compressed_bytes > max_bytes {
                Err(ArchiveError::ExceedsQuota { compressed_bytes, max_bytes })
            } else {
                Ok(c)
            }
        },
    }
}

/// Whether the total of stored and incoming bytes, counted up to the largest
/// 64-bit number, is within the quota.
pub open spec fn has_room(stored: int, incoming: u64, max_bytes: u64) -> bool {
    let total = stored + incoming;
    (if total <= u64::MAX {
        total
    } else {
        u64::MAX as int
    }) <= max_bytes
}

/// An entry of an archive directory.
#[derive(Debug)]
pub struct ArchiveEntry {
    pub name: String,
    pub is_file: bool,
    pub size: u64,
    /// When the file was last changed, in seconds and nanoseconds since 1970.
    pub modified: Option<Timestamp>,
}

/// What becomes of an entry for its own sake.
#[derive(Clone, Copy, Debug, PartialEq, Eq, Structural)]
pub enum EntryFate {
    /// No business of the archive.
    Ignored,
    /// What an interrupted write left behind.
    StaleTemporary,
    /// An archived file past its retention.
    Expired,
    /// An archived file that counts against the quota.
    Stored,
}

/// Nanoseconds since the beginning of 1970.
pub open spec fn unix_nanos(time: Timestamp) -> int {
    time.seconds * 1_000_000_000 + time.nanos
}

fn nanos_since_epoch(time: Timestamp) -> (nanos: i128)
    ensures
        nanos == unix_nanos(time),
{
    time.seconds as i128 * 1_000_000_000 + time.nanos as i128
}

impl ArchiveEntry {
    /// When the file was last changed; the beginning of 1970 where that is unknown.
    pub open spec fn changed(self) -> int {
        match self.modified {
            Some(time) => unix_nanos(time),
            None => 0,
        }
    }

    /// Whether the entry is a temporary file of the archive.
    pub open spec fn is_temporary(self) -> bool {
        has_prefix(self.name@, "."@) && has_suffix(self.name@, ".tmp"@)
    }

    /// Whether the entry is an archived file.
    pub open spec fn is_archive(self) -> bool {
        has_suffix(self.name@, ".gpx.gz"@)
    }

    /// What becomes of the entry for its own sake.
    pub open spec fn fate(self, now: Timestamp, retention_nanos: u128) -> EntryFate {
        if !self.is_file {
            EntryFate::Ignored
        } else if self.is_temporary() {
            EntryFate::StaleTemporary
        } else if !self.is_archive() {
            EntryFate::Ignored
        } else if unix_nanos(now) - self.changed() > retention_nanos {
            EntryFate::Expired
        } else {
            EntryFate::Stored
        }
    }
}

fn changed_at(entry: &ArchiveEntry) -> (nanos: i128)
    ensures
        nanos == entry.changed(),
        -0x1_0000_0000_0000_0000_0000_0000 < nanos < 0x1_0000_0000_0000_0000_0000_0000,
{
    match entry.modified {
        Some(time) => nanos_since_epoch(time),
        None => 0,
    }
}

/// What becomes of an entry for its own sake.
pub fn entry_fate(entry: &ArchiveEntry, now: Timestamp, retention_nanos: u128) -> (fate: EntryFate)
    ensures
        fate == entry.fate(now, retention_nanos),
{
    if !entry.is_file {
        return EntryFate::Ignored;
    }
    let name = entry.name.as_str();
    if starts_with(name, ".") && ends_with(name, ".tmp") {
        return EntryFate::StaleTemporary;
    }
    if !ends_with(name, ".gpx.gz") {
        return EntryFate::Ignored;
    }
    let current = nanos_since_epoch(now);
    let changed = changed_at(entry);
    if current > changed && (current - changed) as u128 > retention_nanos {
        EntryFate::Expired
    } else {
        EntryFate::Stored
    }
}

/// What is to be deleted to make room.
#[derive(Debug)]
pub struct PrunePlan {
    /// The positions of the entries to delete, in the order of deletion.
    pub remove: Vec<usize>,
    /// Whether there is room afterwards.
    pub fits: bool,
}

/// The positions of the entries with one of two fates, in order.
pub open spec fn with_fate(
    entries: Seq<ArchiveEntry>,
    now: Timestamp,
    retention_nanos: u128,
    one: EntryFate,
    other: EntryFate,
) -> Seq<usize>
    decreases entries.len(),
{
    if entries.len() == 0 {
        Seq::empty()
    } else {
        let rest = with_fate(entries.drop_last(), now, retention_nanos, one, other);
        let fate = entries.last().fate(now, retention_nanos);
        if fate == one || fate == other {
            rest.push((entries.len() - 1) as usize)
        } else {
            rest
        }
    }
}

/// The entries that go for their own sake.
pub open spec fn doomed(
    entries: Seq<ArchiveEntry>,
    now: Timestamp,
    retention_nanos: u128,
) -> Seq<usize> {
    with_fate(entries, now, retention_nanos, EntryFate::StaleTemporary, EntryFate::Expired)
}

/// The entries that count against the quota.
pub open spec fn stored(
    entries: Seq<ArchiveEntry>,
    now: Timestamp,
    retention_nanos: u128,
) -> Seq<usize> {
    with_fate(entries, now, retention_nanos, EntryFate::Stored, EntryFate::Stored)
}

/// The keys by which stored entries are ordered: the older, the earlier.
pub open spec fn age_keys(entries: Seq<ArchiveEntry>, positions: Seq<usize>) -> Seq<SortKey> {
    Seq::new(
        positions.len(),
        |k: int| SortKey { major: entries[positions[k] as int].changed() as i128, minor: 0 },
    )
}

/// The positions `positions[order[0]]`, `positions[order[1]]` and so on.
pub open spec fn arranged(positions: Seq<usize>, order: Seq<usize>) -> Seq<usize> {
    Seq::new(order.len(), |k: int| positions[order[k] as int])
}

/// The bytes in the entries at some positions.
pub open spec fn total_size(entries: Seq<ArchiveEntry>, positions: Seq<usize>) -> int
    decreases positions.len(),
{
    if positions.len() == 0 {
        0
    } else {
        entries[positions[0] as int].size + total_size(entries, positions.drop_first())
    }
}

/// How many entries go, from the front of the queue, until there is room.
pub open spec fn evictions(
    entries: Seq<ArchiveEntry>,
    queue: Seq<usize>,
    incoming: u64,
    max_bytes: u64,
) -> nat
    decreases queue.len(),
{
    if queue.len() == 0 || has_room(total_size(entries, queue), incoming, max_bytes) {
        0
    } else {
        1 + evictions(entries, queue.drop_first(), incoming, max_bytes)
    }
}

/// Whether `plan` deletes what goes for its own sake and then as many of the
/// stored files, the oldest first, as it takes to make room.
pub open spec fn prunes(
    entries: Seq<ArchiveEntry>,
    now: Timestamp,
    retention_nanos: u128,
    max_bytes: u64,
    incoming: u64,
    order: Seq<usize>,
    remove: Seq<usize>,
    fits: bool,
) -> bool {
    let kept = stored(entries, now, retention_nanos);
    let queue = arranged(kept, order);
    let gone = evictions(entries, queue, incoming, max_bytes) as int;
    &&& stable_ordering(age_keys(entries, kept), order)
    &&& remove == doomed(entries, now, retention_nanos) + queue.take(gone)
    &&& fits == has_room(total_size(entries, queue.skip(gone)), incoming, max_bytes)
}

proof fn lemma_with_fate(
    entries: Seq<ArchiveEntry>,
    now: Timestamp,
    retention_nanos: u128,
    one: EntryFate,
    other: EntryFate,
)
    requires
        entries.len() <= usize::MAX,
    ensures
        ({
            let positions = with_fate(entries, now, retention_nanos, one, other);
            &&& forall|k: int|
                0 <= k < positions.len() ==> {
                    &&& (#[trigger] positions[k]) < entries.len()
                    &&& {
                        let fate = entries[positions[k] as int].fate(now, retention_nanos);
                        fate == one || fate == other
                    }
                }
            &&& forall|j: int, k: int| 0 <= j < k < positions.len() ==> positions[j] < positions[k]
            &&& forall|p: usize|
                p < entries.len() && ({
                    let fate = entries[p as int].fate(now, retention_nanos);
                    fate == one || fate == other
                }) ==> #[trigger] positions.contains(p)
        }),
    decreases entries.len(),
{
    if entries.len() > 0 {
        let shorter = entries.drop_last();
        let rest = with_fate(shorter, now, retention_nanos, one, other);
        let positions = with_fate(entries, now, retention_nanos, one, other);
        let last = (entries.len() - 1) as usize;
        lemma_with_fate(shorter, now, retention_nanos, one, other);
        assert forall|k: int| 0 <= k < positions.len() implies {
            &&& (#[trigger] positions[k]) < entries.len()
            &&& {
                let fate = entries[positions[k] as int].fate(now, retention_nanos);
                fate == one || fate == other
            }
        } by {
            if k < rest.len() {
                assert(rest[k] < shorter.len());
                assert(shorter[rest[k] as int] == entries[rest[k] as int]);
            }
        }
        assert forall|p: usize|
            p < entries.len() && ({
                let fate = entries[p as int].fate(now, retention_nanos);
                fate == one || fate == other
            }) implies #[trigger] positions.contains(p) by {
            if p < last {
                assert(shorter[p as int] == entries[p as int]);
                assert(rest.contains(p));
                let k = choose|k: int| 0 <= k < rest.len() && rest[k] == p;
                assert(positions[k] == p);
            } else {
                assert(positions[positions.len() - 1] == p);
            }
        }
    }
}

proof fn lemma_total_size_bound(entries: Seq<ArchiveEntry>, positions: Seq<usize>)
    ensures
        0 <= total_size(entries, positions) <= positions.len() * u64::MAX,
    decreases positions.len(),
{
    if positions.len() > 0 {
        lemma_total_size_bound(entries, positions.drop_first());
        assert(positions.len() * u64::MAX == (positions.len() - 1) * u64::MAX + u64::MAX)
            by (nonlinear_arith);
    }
}

proof fn lemma_total_size_push(entries: Seq<ArchiveEntry>, positions: Seq<usize>, p: usize)
    ensures
        total_size(entries, positions.push(p)) == total_size(entries, positions)
            + entries[p as int].size,
    decreases positions.len(),
{
    if positions.len() == 0 {
        assert(positions.push(p).drop_first() =~= positions);
    } else {
        assert(positions.push(p).drop_first() =~= positions.drop_first().push(p));
        lemma_total_size_push(entries, positions.drop_first(), p);
    }
}

fn room_for(stored: u128, incoming: u64, max_bytes: u64) -> (b: bool)
    ensures
        b == has_room(stored as int, incoming, max_bytes),
{
    let largest: u128 = u64::MAX as u128;
    if stored > largest - incoming as u128 {
        max_bytes == u64::MAX
    } else {
        stored + incoming as u128 <= max_bytes as u128
    }
}

/// Decides what to delete so that `incoming` more bytes have room.
///
/// Left-over temporary files and files past their retention go in any case;
/// after them the oldest files go, one by one, until there is room.
pub fn prune_plan(
    entries: &Vec<ArchiveEntry>,
    now: Timestamp,
    retention_nanos: u128,
    max_bytes: u64,
    incoming: u64,
) -> (plan: PrunePlan)
    ensures
        exists|order: Seq<usize>| #[trigger]
            prunes(
                entries@,
                now,
                retention_nanos,
                max_bytes,
                incoming,
                order,
                plan.remove@,
                plan.fits,
            ),
{
    let mut remove: Vec<usize> = Vec::new();
    let mut kept: Vec<usize> = Vec::new();
    let mut keys: Vec<SortKey> = Vec::new();
    let mut i: usize = 0;
    while i < entries.len()
        invariant
            i <= entries@.len(),
            remove@ == doomed(entries@.take(i as int), now, retention_nanos),
            kept@ == stored(entries@.take(i as int), now, retention_nanos),
            keys@.len() == kept@.len(),
            forall|k: int| 0 <= k < kept@.len() ==> (#[trigger] kept@[k]) < i,
            forall|k: int|
                0 <= k < kept@.len() ==> #[trigger] keys@[k] == (SortKey {
                    major: entries@[kept@[k] as int].changed() as i128,
                    minor: 0,
                }),
        decreases entries@.len() - i,
    {
        let entry = &entries[i];
        assert(entries@.take(i + 1).drop_last() =~= entries@.take(i as int));
        assert(entries@.take(i + 1).last() == entries@[i as int]);
        match entry_fate(entry, now, retention_nanos) {
            EntryFate::Ignored => {},
            EntryFate::StaleTemporary => {
                remove.push(i);
            },
            EntryFate::Expired => {
                remove.push(i);
            },
            EntryFate::Stored => {
                kept.push(i);
                keys.push(SortKey { major: changed_at(entry), minor: 0 });
            },
        }
        i = i + 1;
    }
    assert(entries@.take(entries@.len() as int) =~= entries@);
    assert(keys@ =~= age_keys(entries@, kept@));
    let order = stable_order(&keys);
    let ghost queue = arranged(kept@, order@);
    let ghost gone = evictions(entries@, queue, incoming, max_bytes);
    let ghost doomed_first = remove@;
    let mut total: u128 = 0;
    let mut j: usize = 0;
    while j < order.len()
        invariant
            j <= order@.len() == kept@.len(),
            queue == arranged(kept@, order@),
            forall|k: int| 0 <= k < kept@.len() ==> (#[trigger] kept@[k]) < entries@.len(),
            forall|k: int| 0 <= k < order@.len() ==> 0 <= #[trigger] order@[k] < kept@.len(),
            total == total_size(entries@, queue.take(j as int)),
            total <= j * u64::MAX,
        decreases order@.len() - j,
    {
        let position = kept[order[j]];
        proof {
            assert(queue.take(j + 1) =~= queue.take(j as int).push(position));
            lemma_total_size_push(entries@, queue.take(j as int), position);
            assert((j + 1) * u64::MAX == j * u64::MAX + u64::MAX) by (nonlinear_arith);
            assert((j + 1) * u64::MAX <= u128::MAX) by (nonlinear_arith)
                requires
                    j + 1 <= u64::MAX,
            ;
        }
        total = total + entries[position].size as u128;
        j = j + 1;
    }
    assert(queue.take(queue.len() as int) =~= queue);
    let mut k: usize = 0;
    assert(queue.skip(0) =~= queue);
    assert(remove@ =~= doomed_first + queue.take(0));
    while k < order.len() && !room_for(total, incoming, max_bytes)
        invariant
            k <= order@.len() == kept@.len(),
            queue == arranged(kept@, order@),
            forall|n: int| 0 <= n < kept@.len() ==> (#[trigger] kept@[n]) < entries@.len(),
            forall|n: int| 0 <= n < order@.len() ==> 0 <= #[trigger] order@[n] < kept@.len(),
            remove@ == doomed_first + queue.take(k as int),
            total == total_size(entries@, queue.skip(k as int)),
            gone == k + evictions(entries@, queue.skip(k as int), incoming, max_bytes),
        decreases order@.len() - k,
    {
        let position = kept[order[k]];
        proof {
            let ghost rest = queue.skip(k as int);
            assert(rest[0] == position);
            assert(rest.drop_first() =~= queue.skip(k + 1));
            lemma_total_size_bound(entries@, queue.skip(k + 1));
        }
        remove.push(position);
        total = total - entries[position].size as u128;
        assert(remove@ =~= doomed_first + queue.take(k + 1));
        k = k + 1;
    }
    let fits = room_for(total, incoming, max_bytes);
    assert(gone == k);
    let plan = PrunePlan { remove, fits };
    assert(prunes(
        entries@,
        now,
        retention_nanos,
        max_bytes,
        incoming,
        order@,
        plan.remove@,
        plan.fits,
    ));
    plan
}

impl GpxArchive {
    /// An archive below `root` that keeps files for `retention_nanos` and holds at
    /// most `max_bytes`.
    pub fn new(root: String, retention_nanos: u128, max_bytes: u64) -> (archive: Self)
        ensures
            archive.root == root,
            archive.retention_nanos == retention_nanos,
            archive.max_bytes == max_bytes,
    {
        GpxArchive { root, retention_nanos, max_bytes }
    }

    /// Compresses a submission for storage.
    ///
    /// What is stored decompresses to the submitted bytes and fits the quota.
    pub fn compress(&self, bytes: &[u8]) -> (stored: Result<Vec<u8>, ArchiveError>)
        ensures
            match stored {
                Ok(c) => {
                    &&& storable(gzipped(bytes@), self.max_bytes) == Ok::<Seq<u8>, ArchiveError>(c@)
                    &&& c@.len() <= self.max_bytes
                    &&& gunzipped(c@) == Some(bytes@)
                },
                Err(error) => storable(gzipped(bytes@), self.max_bytes) == Err::<
                    Seq<u8>,
                    ArchiveError,
                >(error),
            },
    {
        accept_compressed(gzip(bytes), self.max_bytes)
    }

    /// Decides what to delete so that `incoming` more bytes have room.
    ///
    /// A file that is not larger than the quota always gets room.
    pub fn plan(&self, entries: &Vec<ArchiveEntry>, now: Timestamp, incoming: u64) -> (plan:
        PrunePlan)
        ensures
            exists|order: Seq<usize>| #[trigger]
                prunes(
                    entries@,
                    now,
                    self.retention_nanos,
                    self.max_bytes,
                    incoming,
                    order,
                    plan.remove@,
                    plan.fits,
                ),
            plan.fits == (incoming <= self.max_bytes),
    {
        let plan = prune_plan(entries, now, self.retention_nanos, self.max_bytes, incoming);
        let count = entries.len();
        proof {
            assert(entries@.len() == count);
            let order = choose|order: Seq<usize>| #[trigger]
                prunes(
                    entries@,
                    now,
                    self.retention_nanos,
                    self.max_bytes,
                    incoming,
                    order,
                    plan.remove@,
                    plan.fits,
                );
            pruning_makes_room(
                entries@,
                now,
                self.retention_nanos,
                self.max_bytes,
                incoming,
                order,
                plan.remove@,
                plan.fits,
            );
        }
        plan
    }
}

impl PrunePlan {
    /// Whether the file can be stored once the plan is carried out.
    pub fn outcome(&self) -> (outcome: Result<(), ArchiveError>)
        ensures
            outcome == if self.fits {
                Ok::<(), ArchiveError>(())
            } else {
                Err(ArchiveError::NoRoom)
            },
    {
        if self.fits {
            Ok(())
        } else {
            Err(ArchiveError::NoRoom)
        }
    }
}

/// The bytes in the stored files among the first `n` entries, without the removed ones.
pub open spec fn remaining_size(
    entries: Seq<ArchiveEntry>,
    now: Timestamp,
    retention_nanos: u128,
    removed: Seq<usize>,
    n: int,
) -> int
    decreases n,
{
    if n <= 0 {
        0
    } else {
        remaining_size(entries, now, retention_nanos, removed, n - 1) + if entries[n - 1].fate(
            now,
            retention_nanos,
        ) == EntryFate::Stored && !removed.contains((n - 1) as usize) {
            entries[n - 1].size as int
        } else {
            0
        }
    }
}

proof fn lemma_evictions(
    entries: Seq<ArchiveEntry>,
    queue: Seq<usize>,
    incoming: u64,
    max_bytes: u64,
)
    ensures
        ({
            let gone = evictions(entries, queue, incoming, max_bytes) as int;
            &&& gone <= queue.len()
            &&& gone == queue.len() || has_room(
                total_size(entries, queue.skip(gone)),
                incoming,
                max_bytes,
            )
            &&& gone > 0 ==> !has_room(
                total_size(entries, queue.skip(gone - 1)),
                incoming,
                max_bytes,
            )
        }),
    decreases queue.len(),
{
    let gone = evictions(entries, queue, incoming, max_bytes) as int;
    if gone == 0 {
        assert(queue.skip(0) =~= queue);
    } else {
        let rest = queue.drop_first();
        lemma_evictions(entries, rest, incoming, max_bytes);
        assert(rest.skip(gone - 1) =~= queue.skip(gone));
        if gone > 1 {
            assert(rest.skip(gone - 2) =~= queue.skip(gone - 1));
        } else {
            assert(queue.skip(0) =~= queue);
        }
    }
}

/// What is known of the queue in which stored files wait for deletion.
proof fn lemma_queue(
    entries: Seq<ArchiveEntry>,
    now: Timestamp,
    retention_nanos: u128,
    order: Seq<usize>,
)
    requires
        entries.len() <= usize::MAX,
        stable_ordering(age_keys(entries, stored(entries, now, retention_nanos)), order),
    ensures
        ({
            let queue = arranged(stored(entries, now, retention_nanos), order);
            &&& forall|k: int|
                0 <= k < queue.len() ==> {
                    &&& (#[trigger] queue[k]) < entries.len()
                    &&& entries[queue[k] as int].fate(now, retention_nanos) == EntryFate::Stored
                }
            &&& forall|j: int, k: int| 0 <= j < k < queue.len() ==> queue[j] != queue[k]
            &&& forall|j: int, k: int|
                0 <= j < k < queue.len() ==> entries[#[trigger] queue[j] as int].changed()
                    <= entries[#[trigger] queue[k] as int].changed()
            &&& forall|p: usize|
                p < entries.len() && entries[p as int].fate(now, retention_nanos)
                    == EntryFate::Stored ==> #[trigger] queue.contains(p)
        }),
{
    let kept = stored(entries, now, retention_nanos);
    let keys = age_keys(entries, kept);
    let queue = arranged(kept, order);
    lemma_with_fate(entries, now, retention_nanos, EntryFate::Stored, EntryFate::Stored);
    assert forall|j: int, k: int| 0 <= j < k < queue.len() implies queue[j] != queue[k] by {
        assert(stands_before(keys, order[j] as int, order[k] as int));
        if order[j] < order[k] {
            assert(kept[order[j] as int] < kept[order[k] as int]);
        } else {
            assert(kept[order[k] as int] < kept[order[j] as int]);
        }
    }
    assert forall|j: int, k: int| 0 <= j < k < queue.len() implies entries[#[trigger] queue[
    j] as int].changed() <= entries[#[trigger] queue[k] as int].changed() by {
        assert(stands_before(keys, order[j] as int, order[k] as int));
    }
    assert forall|p: usize|
        p < entries.len() && entries[p as int].fate(now, retention_nanos)
            == EntryFate::Stored implies #[trigger] queue.contains(p) by {
        assert(kept.contains(p));
        let m = choose|m: int| 0 <= m < kept.len() && kept[m] == p;
        lemma_with_fate_len(entries, now, retention_nanos, EntryFate::Stored, EntryFate::Stored);
        assert(order.contains(m as usize));
        let k = choose|k: int| 0 <= k < order.len() && order[k] == m as usize;
        assert(queue[k] == p);
    }
}

proof fn lemma_with_fate_len(
    entries: Seq<ArchiveEntry>,
    now: Timestamp,
    retention_nanos: u128,
    one: EntryFate,
    other: EntryFate,
)
    ensures
        with_fate(entries, now, retention_nanos, one, other).len() <= entries.len(),
    decreases entries.len(),
{
    if entries.len() > 0 {
        lemma_with_fate_len(entries.drop_last(), now, retention_nanos, one, other);
    }
}

proof fn lemma_all_removed(
    entries: Seq<ArchiveEntry>,
    now: Timestamp,
    retention_nanos: u128,
    removed: Seq<usize>,
    n: int,
)
    requires
        n <= entries.len() <= usize::MAX,
        forall|p: usize|
            p < entries.len() && entries[p as int].fate(now, retention_nanos) == EntryFate::Stored
                ==> #[trigger] removed.contains(p),
    ensures
        remaining_size(entries, now, retention_nanos, removed, n) == 0,
    decreases n,
{
    if n > 0 {
        lemma_all_removed(entries, now, retention_nanos, removed, n - 1);
    }
}

proof fn lemma_one_removed(
    entries: Seq<ArchiveEntry>,
    now: Timestamp,
    retention_nanos: u128,
    removed: Seq<usize>,
    p: usize,
    n: int,
)
    requires
        n <= entries.len() <= usize::MAX,
        p < entries.len(),
        entries[p as int].fate(now, retention_nanos) == EntryFate::Stored,
        !removed.contains(p),
    ensures
        remaining_size(entries, now, retention_nanos, removed, n) == remaining_size(
            entries,
            now,
            retention_nanos,
            removed.push(p),
            n,
        ) + if p < n {
            entries[p as int].size as int
        } else {
            0
        },
    decreases n,
{
    if n > 0 {
        lemma_one_removed(entries, now, retention_nanos, removed, p, n - 1);
        let q = (n - 1) as usize;
        let more = removed.push(p);
        if removed.contains(q) {
            let k = choose|k: int| 0 <= k < removed.len() && removed[k] == q;
            assert(more[k] == q);
        }
        if more.contains(q) && q != p {
            let k = choose|k: int| 0 <= k < more.len() && more[k] == q;
            assert(removed[k] == q);
        }
        if q == p {
            assert(more[removed.len() as int] == p);
        }
    }
}

proof fn lemma_remaining(
    entries: Seq<ArchiveEntry>,
    now: Timestamp,
    retention_nanos: u128,
    order: Seq<usize>,
    k: int,
)
    requires
        entries.len() <= usize::MAX,
        stable_ordering(age_keys(entries, stored(entries, now, retention_nanos)), order),
        0 <= k <= order.len(),
    ensures
        ({
            let queue = arranged(stored(entries, now, retention_nanos), order);
            remaining_size(
                entries,
                now,
                retention_nanos,
                doomed(entries, now, retention_nanos) + queue.take(k),
                entries.len() as int,
            ) == total_size(entries, queue.skip(k))
        }),
    decreases order.len() - k,
{
    let queue = arranged(stored(entries, now, retention_nanos), order);
    let first = doomed(entries, now, retention_nanos);
    let removed = first + queue.take(k);
    lemma_queue(entries, now, retention_nanos, order);
    lemma_with_fate(
        entries,
        now,
        retention_nanos,
        EntryFate::StaleTemporary,
        EntryFate::Expired,
    );
    if k == order.len() {
        assert(queue.take(k) =~= queue);
        assert forall|p: usize|
            p < entries.len() && entries[p as int].fate(now, retention_nanos)
                == EntryFate::Stored implies #[trigger] removed.contains(p) by {
            assert(queue.contains(p));
            let m = choose|m: int| 0 <= m < queue.len() && queue[m] == p;
            assert(removed[first.len() + m] == p);
        }
        lemma_all_removed(entries, now, retention_nanos, removed, entries.len() as int);
    } else {
        let p = queue[k];
        lemma_remaining(entries, now, retention_nanos, order, k + 1);
        assert(removed.push(p) =~= first + queue.take(k + 1));
        if removed.contains(p) {
            let m = choose|m: int| 0 <= m < removed.len() && removed[m] == p;
            if m < first.len() {
                assert(first[m] == p);
            } else {
                assert(queue[m - first.len()] == p);
            }
        }
        lemma_one_removed(entries, now, retention_nanos, removed, p, entries.len() as int);
        assert(queue.skip(k)[0] == p);
        assert(queue.skip(k).drop_first() =~= queue.skip(k + 1));
    }
}

/// After a pruning that leaves room, the remaining files and the incoming one
/// stay within the quota; and a file that is not larger than the quota always
/// gets room.
pub proof fn pruning_makes_room(
    entries: Seq<ArchiveEntry>,
    now: Timestamp,
    retention_nanos: u128,
    max_bytes: u64,
    incoming: u64,
    order: Seq<usize>,
    remove: Seq<usize>,
    fits: bool,
)
    requires
        entries.len() <= usize::MAX,
        prunes(entries, now, retention_nanos, max_bytes, incoming, order, remove, fits),
    ensures
        fits == (incoming <= max_bytes),
        fits && max_bytes < u64::MAX ==> remaining_size(
            entries,
            now,
            retention_nanos,
            remove,
            entries.len() as int,
        ) + incoming <= max_bytes,
{
    let queue = arranged(stored(entries, now, retention_nanos), order);
    let gone = evictions(entries, queue, incoming, max_bytes) as int;
    lemma_evictions(entries, queue, incoming, max_bytes);
    lemma_total_size_bound(entries, queue.skip(gone));
    lemma_remaining(entries, now, retention_nanos, order, gone);
}

/// Where all stored files and the incoming one are within the quota, none of them
/// goes: only left-over temporary files and files past their retention do.
pub proof fn nothing_is_evicted_where_there_is_room(
    entries: Seq<ArchiveEntry>,
    now: Timestamp,
    retention_nanos: u128,
    max_bytes: u64,
    incoming: u64,
    order: Seq<usize>,
    remove: Seq<usize>,
    fits: bool,
)
    requires
        entries.len() <= usize::MAX,
        prunes(entries, now, retention_nanos, max_bytes, incoming, order, remove, fits),
        has_room(
            remaining_size(
                entries,
                now,
                retention_nanos,
                doomed(entries, now, retention_nanos),
                entries.len() as int,
            ),
            incoming,
            max_bytes,
        ),
    ensures
        remove == doomed(entries, now, retention_nanos),
        forall|k: int|
            0 <= k < remove.len() ==> {
                let fate = entries[#[trigger] remove[k] as int].fate(now, retention_nanos);
                fate == EntryFate::StaleTemporary || fate == EntryFate::Expired
            },
{
    let queue = arranged(stored(entries, now, retention_nanos), order);
    let first = doomed(entries, now, retention_nanos);
    lemma_remaining(entries, now, retention_nanos, order, 0);
    assert(queue.skip(0) =~= queue);
    assert(first + queue.take(0) =~= first);
    lemma_with_fate(
        entries,
        now,
        retention_nanos,
        EntryFate::StaleTemporary,
        EntryFate::Expired,
    );
}

/// No stored file goes that need not: before the last one was deleted, there was
/// no room yet.
pub proof fn pruning_deletes_no_more_than_needed(
    entries: Seq<ArchiveEntry>,
    now: Timestamp,
    retention_nanos: u128,
    max_bytes: u64,
    incoming: u64,
    order: Seq<usize>,
    remove: Seq<usize>,
    fits: bool,
)
    requires
        entries.len() <= usize::MAX,
        prunes(entries, now, retention_nanos, max_bytes, incoming, order, remove, fits),
        remove.len() > 0,
        entries[remove.last() as int].fate(now, retention_nanos) == EntryFate::Stored,
    ensures
        !has_room(
            remaining_size(
                entries,
                now,
                retention_nanos,
                remove.drop_last(),
                entries.len() as int,
            ),
            incoming,
            max_bytes,
        ),
{
    let queue = arranged(stored(entries, now, retention_nanos), order);
    let first = doomed(entries, now, retention_nanos);
    let gone = evictions(entries, queue, incoming, max_bytes) as int;
    lemma_evictions(entries, queue, incoming, max_bytes);
    lemma_with_fate(
        entries,
        now,
        retention_nanos,
        EntryFate::StaleTemporary,
        EntryFate::Expired,
    );
    if gone == 0 {
        assert(remove =~= first);
        assert(first[first.len() - 1] == remove.last());
    }
    assert(remove.drop_last() =~= first + queue.take(gone - 1));
    lemma_remaining(entries, now, retention_nanos, order, gone - 1);
}

/// Of two stored files the newer one never goes while the older one stays.
pub proof fn oldest_files_go_first(
    entries: Seq<ArchiveEntry>,
    now: Timestamp,
    retention_nanos: u128,
    max_bytes: u64,
    incoming: u64,
    order: Seq<usize>,
    remove: Seq<usize>,
    fits: bool,
    gone: usize,
    kept: usize,
)
    requires
        entries.len() <= usize::MAX,
        prunes(entries, now, retention_nanos, max_bytes, incoming, order, remove, fits),
        gone < entries.len() && kept < entries.len(),
        entries[gone as int].fate(now, retention_nanos) == EntryFate::Stored,
        entries[kept as int].fate(now, retention_nanos) == EntryFate::Stored,
        remove.contains(gone),
        !remove.contains(kept),
    ensures
        entries[gone as int].changed() <= entries[kept as int].changed(),
{
    let queue = arranged(stored(entries, now, retention_nanos), order);
    let first = doomed(entries, now, retention_nanos);
    let count = evictions(entries, queue, incoming, max_bytes) as int;
    lemma_evictions(entries, queue, incoming, max_bytes);
    lemma_queue(entries, now, retention_nanos, order);
    lemma_with_fate(
        entries,
        now,
        retention_nanos,
        EntryFate::StaleTemporary,
        EntryFate::Expired,
    );
    let g = choose|g: int| 0 <= g < remove.len() && remove[g] == gone;
    if g < first.len() {
        assert(first[g] == gone);
    }
    assert(queue[g - first.len()] == gone);
    assert(queue.contains(kept));
    let k = choose|k: int| 0 <= k < queue.len() && queue[k] == kept;
    if k < count {
        assert(remove[first.len() + k] == kept);
    }
}

/// Left-over temporary files and files past their retention always go, what the
/// archive does not know always stays, and nothing is deleted twice.
pub proof fn pruning_respects_fates(
    entries: Seq<ArchiveEntry>,
    now: Timestamp,
    retention_nanos: u128,
    max_bytes: u64,
    incoming: u64,
    order: Seq<usize>,
    remove: Seq<usize>,
    fits: bool,
)
    requires
        entries.len() <= usize::MAX,
        prunes(entries, now, retention_nanos, max_bytes, incoming, order, remove, fits),
    ensures
        forall|p: usize|
            p < entries.len() ==> match entries[p as int].fate(now, retention_nanos) {
                EntryFate::Ignored => !#[trigger] remove.contains(p),
                EntryFate::StaleTemporary => remove.contains(p),
                EntryFate::Expired => remove.contains(p),
                EntryFate::Stored => true,
            },
        forall|k: int| 0 <= k < remove.len() ==> #[trigger] remove[k] < entries.len(),
        forall|j: int, k: int| 0 <= j < k < remove.len() ==> remove[j] != remove[k],
{
    let queue = arranged(stored(entries, now, retention_nanos), order);
    let first = doomed(entries, now, retention_nanos);
    let count = evictions(entries, queue, incoming, max_bytes) as int;
    lemma_evictions(entries, queue, incoming, max_bytes);
    lemma_queue(entries, now, retention_nanos, order);
    lemma_with_fate(
        entries,
        now,
        retention_nanos,
        EntryFate::StaleTemporary,
        EntryFate::Expired,
    );
    assert forall|k: int| 0 <= k < remove.len() implies #[trigger] remove[k] < entries.len() && (
    if k < first.len() {
        remove[k] == first[k]
    } else {
        remove[k] == queue[k - first.len()]
    }) by {
        if k < first.len() {
            assert(remove[k] == first[k]);
        } else {
            assert(remove[k] == queue[k - first.len()]);
        }
    }
    assert forall|p: usize| p < entries.len() implies match entries[p as int].fate(
        now,
        retention_nanos,
    ) {
        EntryFate::Ignored => !#[trigger] remove.contains(p),
        EntryFate::StaleTemporary => remove.contains(p),
        EntryFate::Expired => remove.contains(p),
        EntryFate::Stored => true,
    } by {
        let fate = entries[p as int].fate(now, retention_nanos);
        if fate == EntryFate::StaleTemporary || fate == EntryFate::Expired {
            assert(first.contains(p));
            let k = choose|k: int| 0 <= k < first.len() && first[k] == p;
            assert(remove[k] == p);
        }
        if fate == EntryFate::Ignored && remove.contains(p) {
            let k = choose|k: int| 0 <= k < remove.len() && remove[k] == p;
            assert(remove[k] < entries.len());
        }
    }
    assert forall|j: int, k: int| 0 <= j < k < remove.len() implies remove[j] != remove[k] by {
        assert(remove[j] < entries.len());
        assert(remove[k] < entries.len());
        if k < first.len() {
            assert(first[j] < first[k]);
        } else if j >= first.len() {
            assert(queue[j - first.len()] != queue[k - first.len()]);
        }
    }
}

/// Only files are the archive's business: temporary files begin with a dot and end in
/// `.tmp`, archived ones end in `.gpx.gz`. An archived file has expired once it was
/// changed longer ago than it is kept, and one of unknown age was changed in 1970.
pub proof fn fates_follow_from_name_and_age(
    entry: ArchiveEntry,
    now: Timestamp,
    retention_nanos: u128,
)
    ensures
        ({
            let temporary = has_prefix(entry.name@, "."@) && has_suffix(entry.name@, ".tmp"@);
            let archived = has_suffix(entry.name@, ".gpx.gz"@);
            let changed: int = match entry.modified {
                Some(time) => time.seconds * 1_000_000_000 + time.nanos,
                None => 0,
            };
            let age = now.seconds * 1_000_000_000 + now.nanos - changed;
            let fate = entry.fate(now, retention_nanos);
            &&& fate == EntryFate::StaleTemporary <==> entry.is_file && temporary
            &&& fate == EntryFate::Expired <==> entry.is_file && !temporary && archived && age
                > retention_nanos
            &&& fate == EntryFate::Stored <==> entry.is_file && !temporary && archived && age
                <= retention_nanos
            &&& fate == EntryFate::Ignored <==> !entry.is_file || !temporary && !archived
            &&& entry.changed() == changed
        }),
{
}

/// There is room exactly where what is stored and what comes are together no more than
/// the quota; where they are more than a 64-bit number holds, there is room only without
/// a quota below the largest one.
pub proof fn room_is_what_the_quota_leaves(stored: int, incoming: u64, max_bytes: u64)
    requires
        stored >= 0,
    ensures
        max_bytes < u64::MAX ==> (has_room(stored, incoming, max_bytes) <==> stored + incoming
            <= max_bytes),
        max_bytes == u64::MAX ==> has_room(stored, incoming, max_bytes),
{
}

/// A compressed submission is stored exactly where it is no larger than the quota, and
/// the refusal of a larger one says how large it is.
pub proof fn the_quota_bounds_a_submission(compressed: Seq<u8>, max_bytes: u64)
    requires
        compressed.len() <= u64::MAX,
    ensures
        compressed.len() <= max_bytes ==> storable(Some(compressed), max_bytes) == Ok::<
            Seq<u8>,
            ArchiveError,
        >(compressed),
        compressed.len() > max_bytes ==> (storable(
            Some(compressed),
            max_bytes,
        ) matches Err(ArchiveError::ExceedsQuota { compressed_bytes, max_bytes: quota })
            && compressed_bytes == compressed.len() && quota == max_bytes),
        storable(None, max_bytes) == Err::<Seq<u8>, ArchiveError>(ArchiveError::Compression),
        ArchiveCategory::Valid.directory() == "valid"@,
        ArchiveCategory::Error.directory() == "error"@,
{
}

/// Of two files that go, one for its own sake goes before one that goes for the quota,
/// and of two that go for the quota the older one goes first.
pub proof fn files_go_by_fate_and_age(
    entries: Seq<ArchiveEntry>,
    now: Timestamp,
    retention_nanos: u128,
    max_bytes: u64,
    incoming: u64,
    order: Seq<usize>,
    remove: Seq<usize>,
    fits: bool,
    j: int,
    k: int,
)
    requires
        entries.len() <= usize::MAX,
        prunes(entries, now, retention_nanos, max_bytes, incoming, order, remove, fits),
        0 <= j < k < remove.len(),
    ensures
        entries[remove[j] as int].fate(now, retention_nanos) == EntryFate::Stored ==> {
            &&& entries[remove[k] as int].fate(now, retention_nanos) == EntryFate::Stored
            &&& entries[remove[j] as int].changed() <= entries[remove[k] as int].changed()
        },
{
    let queue = arranged(stored(entries, now, retention_nanos), order);
    let first = doomed(entries, now, retention_nanos);
    lemma_evictions(entries, queue, incoming, max_bytes);
    lemma_queue(entries, now, retention_nanos, order);
    lemma_with_fate(
        entries,
        now,
        retention_nanos,
        EntryFate::StaleTemporary,
        EntryFate::Expired,
    );
    if j < first.len() {
        assert(remove[j] == first[j]);
    } else {
        assert(remove[j] == queue[j - first.len()]);
        assert(remove[k] == queue[k - first.len()]);
    }
}

} // verus!
