//! The names of archived files.

use vstd::prelude::*;

use vstd::utf8::{decode_utf8, encode_utf8, is_char_boundary};

use crate::filename::{safe_filename, safe_name, safe_names_are_safe};
use crate::gpx_archive::ArchiveEntry;
use crate::text::{chars_of, decimal, decimal_is_injective, digits_value, ends_with, has_prefix, has_suffix, lemma_decimal_digits, push_decimal, push_padded, text_of, zero_padded};
use crate::time::{compact_text, to_compact_text, Timestamp};

verus! {

/// How many bytes of the hash stand in a submission's identifier.
pub const HASH_PREFIX_BYTES: usize = 12;

/// How many bytes of a hash are used.
pub open spec fn short_hash_len(hash: Seq<char>) -> int {
    if encode_utf8(hash).len() < HASH_PREFIX_BYTES {
        encode_utf8(hash).len() as int
    } else {
        HASH_PREFIX_BYTES as int
    }
}

/// The first bytes of a hash.
pub open spec fn short_hash(hash: Seq<char>) -> Seq<char> {
    decode_utf8(encode_utf8(hash).subrange(0, short_hash_len(hash)))
}

/// The identifier of the submission with a number and a hash at a time.
pub open spec fn submission_name(time: Seq<char>, counter: u64, hash: Seq<char>) -> Seq<char> {
    time + "-"@ + zero_padded(decimal(counter as nat), 6) + "-"@ + short_hash(hash)
}

/// The identifier of a submission: when it came, its number in this process and
/// the beginning of its hash; nothing where the calendar does not reach to the
/// time.
///
/// The hash must not have a character across its twelfth byte.
pub fn submission_id(now: Timestamp, counter: u64, gpx_hash: &str) -> (id: Option<String>)
    requires
        is_char_boundary(encode_utf8(gpx_hash@), short_hash_len(gpx_hash@)),
    ensures
        match id {
            Some(s) => now.representable() && s@ == submission_name(
                compact_text(now.seconds, now.nanos),
                counter,
                gpx_hash@,
            ),
            None => !now.representable(),
        },
{
    match to_compact_text(now) {
        None => None,
        Some(time) => Some(identify(time, counter, gpx_hash)),
    }
}

/// The identifier of a submission, given its time as text.
pub fn identify(time: String, counter: u64, gpx_hash: &str) -> (id: String)
    requires
        is_char_boundary(encode_utf8(gpx_hash@), short_hash_len(gpx_hash@)),
    ensures
        id@ == submission_name(time@, counter, gpx_hash@),
{
    let length: usize = gpx_hash.as_bytes().len();
    let end: usize = if length < HASH_PREFIX_BYTES {
        length
    } else {
        HASH_PREFIX_BYTES
    };
    let prefix = gpx_hash.split_at(end).0;
    proof {
        vstd::utf8::encode_utf8_decode_utf8(prefix@);
    }
    let mut id = time;
    id.append("-");
    push_padded(&mut id, counter, 6);
    id.append("-");
    id.append(prefix);
    id
}

proof fn lemma_leading_zeros(zeros: nat, s: Seq<char>)
    ensures
        digits_value(Seq::new(zeros, |i: int| '0') + s) == digits_value(s),
    decreases s.len(), zeros,
{
    let padding = Seq::new(zeros, |i: int| '0');
    if s.len() > 0 {
        assert((padding + s).drop_last() =~= padding + s.drop_last());
        lemma_leading_zeros(zeros, s.drop_last());
    } else if zeros > 0 {
        let fewer = Seq::new((zeros - 1) as nat, |i: int| '0');
        assert(padding + s =~= padding);
        assert(padding.drop_last() =~= fewer + s);
        lemma_leading_zeros((zeros - 1) as nat, s);
        assert(padding.last() == '0');
    } else {
        assert(padding + s =~= s);
    }
}

proof fn lemma_padding_keeps_value(n: nat, width: nat)
    ensures
        digits_value(zero_padded(decimal(n), width)) == n,
{
    lemma_decimal_digits(n);
    if decimal(n).len() < width {
        lemma_leading_zeros((width - decimal(n).len()) as nat, decimal(n));
    }
}

/// Submissions with different numbers have different identifiers, also when they
/// come at the same time with the same contents.
pub proof fn submission_names_differ(time: Seq<char>, m: u64, n: u64, hash: Seq<char>)
    requires
        m != n,
    ensures
        submission_name(time, m, hash) != submission_name(time, n, hash),
{
    let a = zero_padded(decimal(m as nat), 6);
    let b = zero_padded(decimal(n as nat), 6);
    let before = time + "-"@;
    let after = "-"@ + short_hash(hash);
    lemma_padding_keeps_value(m as nat, 6);
    lemma_padding_keeps_value(n as nat, 6);
    if submission_name(time, m, hash) == submission_name(time, n, hash) {
        assert(submission_name(time, m, hash) =~= before + a + after);
        assert(submission_name(time, n, hash) =~= before + b + after);
        lemma_middle_is_determined(before, a, b, after);
    }
}

proof fn lemma_middle_is_determined(
    before: Seq<char>,
    a: Seq<char>,
    b: Seq<char>,
    after: Seq<char>,
)
    requires
        before + a + after == before + b + after,
    ensures
        a == b,
{
    let x = before + a + after;
    let y = before + b + after;
    assert(x.len() == before.len() + a.len() + after.len());
    assert(y.len() == before.len() + b.len() + after.len());
    assert forall|i: int| 0 <= i < a.len() implies a[i] == b[i] by {
        assert(x[before.len() + i] == a[i]);
        assert(y[before.len() + i] == b[i]);
    }
    assert(a =~= b);
}

/// The name of the archive of a submission.
pub open spec fn archive_name(id: Seq<char>, filename: Seq<char>) -> Seq<char> {
    id + "-"@ + safe_name(filename) + ".gz"@
}

/// The name of the archive of a submission.
pub fn archive_filename(submission_id: &str, original_filename: &str) -> (name: String)
    ensures
        name@ == archive_name(submission_id@, original_filename@),
{
    let mut name = submission_id.to_owned();
    name.append("-");
    name.append(safe_filename(original_filename).as_str());
    name.append(".gz");
    name
}

/// The name under which an archive is written before it is complete.
pub open spec fn temporary_of(name: Seq<char>) -> Seq<char> {
    "."@ + name + ".tmp"@
}

/// The name under which an archive is written before it is complete.
pub fn temporary_name(name: &str) -> (temporary: String)
    ensures
        temporary@ == temporary_of(name@),
        temporary@ != name@,
{
    proof {
        reveal_strlit(".");
        assert("."@.len() == 1);
    }
    let mut temporary = ".".to_owned();
    temporary.append(name);
    temporary.append(".tmp");
    temporary
}

/// The `attempt`-th name to try for an archive: the name itself, then the name
/// with a number before its extension.
pub open spec fn candidate(name: Seq<char>, attempt: nat) -> Seq<char> {
    if attempt == 0 {
        name
    } else if has_suffix(name, ".gpx.gz"@) {
        name.take(name.len() - 7) + "."@ + decimal(attempt) + ".gpx.gz"@
    } else {
        name + "."@ + decimal(attempt)
    }
}

/// The `attempt`-th name to try for an archive.
pub fn candidate_name(name: &str, attempt: u32) -> (tried: String)
    ensures
        tried@ == candidate(name@, attempt as nat),
{
    if attempt == 0 {
        return name.to_owned();
    }
    if ends_with(name, ".gpx.gz") {
        proof {
            reveal_strlit(".gpx.gz");
            assert(".gpx.gz"@.len() == 7);
        }
        let chars = chars_of(name);
        let mut tried = text_of(&chars, 0, chars.len() - 7);
        assert(tried@ =~= name@.take(name@.len() - 7));
        tried.append(".");
        push_decimal(&mut tried, attempt as u64);
        tried.append(".gpx.gz");
        tried
    } else {
        let mut tried = name.to_owned();
        tried.append(".");
        push_decimal(&mut tried, attempt as u64);
        tried
    }
}

/// Whether `found` is the first candidate that is not taken.
pub open spec fn first_free<T>(taken: T, name: Seq<char>, found: Seq<char>) -> bool where
    T: Fn(&str) -> bool,
 {
    exists|attempt: nat|
        {
            &&& found == #[trigger] candidate(name, attempt)
            &&& answers(taken, candidate(name, attempt), false)
            &&& all_taken(taken, name, attempt)
        }
}

/// Whether asking for a name may give an answer.
pub open spec fn answers<T>(taken: T, name: Seq<char>, answer: bool) -> bool where
    T: Fn(&str) -> bool,
 {
    exists|s: &str| s@ == name && #[trigger] call_ensures(taken, (s,), answer)
}

/// Whether the first candidates were all taken.
pub open spec fn all_taken<T>(taken: T, name: Seq<char>, attempts: nat) -> bool where
    T: Fn(&str) -> bool,
 {
    forall|i: nat| i < attempts ==> answers(taken, #[trigger] candidate(name, i), true)
}

/// The first candidate name that is not taken; nothing where all are.
///
/// `taken` tells whether a file of a name exists.
pub fn unique_name<T>(name: &str, taken: &T) -> (found: Option<String>) where
    T: Fn(&str) -> bool,

    requires
        forall|s: &str| call_requires(*taken, (s,)),
    ensures
        match found {
            Some(s) => first_free(*taken, name@, s@),
            None => all_taken(*taken, name@, 0x1_0000_0000),
        },
{
    let mut attempt: u32 = 0;
    loop
        invariant
            forall|s: &str| call_requires(*taken, (s,)),
            all_taken(*taken, name@, attempt as nat),
        decreases u32::MAX - attempt,
    {
        let tried = candidate_name(name, attempt);
        let used = taken(tried.as_str());
        assert(answers(*taken, tried@, used));
        if !used {
            assert(first_free(*taken, name@, tried@));
            return Some(tried);
        }
        if attempt == u32::MAX {
            return None;
        }
        attempt = attempt + 1;
    }
}

/// All names that are tried for an archive are different.
pub proof fn candidates_differ(name: Seq<char>, m: nat, n: nat)
    requires
        m != n,
    ensures
        candidate(name, m) != candidate(name, n),
{
    reveal_strlit(".gpx.gz");
    reveal_strlit(".");
    assert(".gpx.gz"@.len() == 7);
    assert("."@.len() == 1);
    lemma_decimal_digits(m);
    lemma_decimal_digits(n);
    if candidate(name, m) == candidate(name, n) {
        if m > 0 && n > 0 {
            let (before, after) = if has_suffix(name, ".gpx.gz"@) {
                (name.take(name.len() - 7) + "."@, ".gpx.gz"@)
            } else {
                (name + "."@, Seq::empty())
            };
            assert(candidate(name, m) =~= before + decimal(m) + after);
            assert(candidate(name, n) =~= before + decimal(n) + after);
            lemma_middle_is_determined(before, decimal(m), decimal(n), after);
            decimal_is_injective(m, n);
        } else {
            assert(candidate(name, m).len() != candidate(name, n).len());
        }
    }
}

proof fn lemma_ends_with_its_end(before: Seq<char>, end: Seq<char>)
    ensures
        has_suffix(before + end, end),
{
    let whole = before + end;
    assert(whole.subrange(whole.len() - end.len(), whole.len() as int) =~= end);
}

proof fn lemma_archive_suffix(id: Seq<char>, filename: Seq<char>)
    ensures
        has_suffix(archive_name(id, filename), ".gpx.gz"@),
{
    reveal_strlit(".gpx.gz");
    reveal_strlit(".gpx");
    reveal_strlit(".gz");
    safe_names_are_safe(filename);
    let safe = safe_name(filename);
    let stem = safe.take(safe.len() - 4);
    assert(safe =~= stem + ".gpx"@) by {
        assert(safe.subrange(safe.len() - 4, safe.len() as int) == ".gpx"@);
        assert(safe =~= stem + safe.subrange(safe.len() - 4, safe.len() as int));
    }
    assert(".gpx"@ + ".gz"@ =~= ".gpx.gz"@);
    assert(archive_name(id, filename) =~= id + "-"@ + stem + ".gpx.gz"@);
    lemma_ends_with_its_end(id + "-"@ + stem, ".gpx.gz"@);
}

proof fn lemma_archives_are_no_temporaries(name: Seq<char>)
    requires
        has_suffix(name, ".gpx.gz"@),
    ensures
        !has_suffix(name, ".tmp"@),
{
    reveal_strlit(".gpx.gz");
    reveal_strlit(".tmp");
    assert(name.subrange(name.len() - 7, name.len() as int)[6] == 'z');
    if has_suffix(name, ".tmp"@) {
        assert(name.subrange(name.len() - 4, name.len() as int)[3] == 'p');
    }
}

/// Every name that is tried for a submission's archive ends like an archive and not
/// like a temporary file, and what is written before it is complete begins and ends
/// like a temporary file.
pub proof fn candidates_are_no_temporaries(id: Seq<char>, filename: Seq<char>, attempt: nat)
    ensures
        ({
            let name = candidate(archive_name(id, filename), attempt);
            &&& has_suffix(name, ".gpx.gz"@)
            &&& !has_suffix(name, ".tmp"@)
            &&& has_prefix(temporary_of(name), "."@)
            &&& has_suffix(temporary_of(name), ".tmp"@)
        }),
{
    let whole = archive_name(id, filename);
    let name = candidate(whole, attempt);
    lemma_archive_suffix(id, filename);
    if attempt > 0 {
        lemma_ends_with_its_end(
            whole.take(whole.len() - 7) + "."@ + decimal(attempt),
            ".gpx.gz"@,
        );
    }
    lemma_archives_are_no_temporaries(name);
    lemma_ends_with_its_end("."@ + name, ".tmp"@);
    assert(temporary_of(name).subrange(0, "."@.len() as int) =~= "."@);
}

/// Every name that is tried for a submission's archive is that of an archive and
/// not of a temporary file, and what is written before it is complete is taken for
/// a temporary file.
pub proof fn archive_names_are_recognised(
    id: Seq<char>,
    filename: Seq<char>,
    attempt: nat,
    archive: ArchiveEntry,
    temporary: ArchiveEntry,
)
    requires
        archive.name@ == candidate(archive_name(id, filename), attempt),
        temporary.name@ == temporary_of(archive.name@),
    ensures
        archive.is_archive() && !archive.is_temporary(),
        temporary.is_temporary(),
{
    candidates_are_no_temporaries(id, filename, attempt);
}

/// The identifier of a submission is its time, its number in at least six digits and the
/// first twelve characters of its hash, with hyphens between them.
pub proof fn submissions_are_named_by_time_number_and_hash(
    time: Seq<char>,
    counter: u64,
    hash: Seq<char>,
)
    requires
        vstd::utf8::is_ascii_chars(hash),
    ensures
        ({
            let name = submission_name(time, counter, hash);
            let number = zero_padded(decimal(counter as nat), 6);
            let count: int = if hash.len() < 12 {
                hash.len() as int
            } else {
                12
            };
            &&& name.len() == time.len() + 1 + number.len() + 1 + count
            &&& name.take(time.len() as int) == time
            &&& name[time.len() as int] == '-'
            &&& name.subrange(time.len() as int + 1, time.len() as int + 1 + number.len()) == number
            &&& name[time.len() as int + 1 + number.len()] == '-'
            &&& name.skip(name.len() - count) == hash.take(count)
            &&& number.len() >= 6
            &&& digits_value(number) == counter
        }),
{
    reveal_strlit("-");
    let name = submission_name(time, counter, hash);
    let number = zero_padded(decimal(counter as nat), 6);
    lemma_padding_keeps_value(counter as nat, 6);
    vstd::utf8::is_ascii_chars_encode_utf8(hash);
    let count: int = if hash.len() < 12 {
        hash.len() as int
    } else {
        12
    };
    assert(short_hash_len(hash) == count);
    let front = hash.take(count);
    assert(vstd::utf8::is_ascii_chars(front)) by {
        assert forall|i: int| 0 <= i < front.len() implies 0 <= #[trigger] front[i] <= 127 by {
            assert(front[i] == hash[i]);
        }
    }
    vstd::utf8::is_ascii_chars_encode_utf8(front);
    vstd::utf8::encode_utf8_decode_utf8(front);
    assert(encode_utf8(hash).subrange(0, count) =~= encode_utf8(front));
    assert(short_hash(hash) == front);
    assert(name.take(time.len() as int) =~= time);
    assert(name.subrange(time.len() as int + 1, time.len() as int + 1 + number.len()) =~= number);
    assert(name.skip(name.len() - count) =~= front);
}

/// An archive is named by its submission and its file, and before it is complete its name
/// has a dot before and `.tmp` behind it.
pub proof fn archives_are_named_by_submission_and_file(id: Seq<char>, filename: Seq<char>)
    ensures
        has_prefix(archive_name(id, filename), id),
        archive_name(id, filename)[id.len() as int] == '-',
        archive_name(id, filename).skip(id.len() as int + 1) == safe_name(filename) + ".gz"@,
        temporary_of(id)[0] == '.',
        temporary_of(id).skip(1) == id + ".tmp"@,
{
    reveal_strlit("-");
    reveal_strlit(".");
    let name = archive_name(id, filename);
    assert(name.subrange(0, id.len() as int) =~= id);
    assert(name.skip(id.len() as int + 1) =~= safe_name(filename) + ".gz"@);
    assert(temporary_of(id).skip(1) =~= id + ".tmp"@);
}

/// The first name tried for an archive is its own; each other one has the number of the
/// attempt before the extension.
pub proof fn candidates_are_numbered(stem: Seq<char>, attempt: nat)
    ensures
        candidate(stem + ".gpx.gz"@, 0) == stem + ".gpx.gz"@,
        attempt > 0 ==> candidate(stem + ".gpx.gz"@, attempt) == stem + "."@ + decimal(attempt)
            + ".gpx.gz"@,
        candidate(stem, 0) == stem,
        attempt > 0 && !has_suffix(stem, ".gpx.gz"@) ==> candidate(stem, attempt) == stem + "."@
            + decimal(attempt),
{
    reveal_strlit(".gpx.gz");
    lemma_ends_with_its_end(stem, ".gpx.gz"@);
    let name = stem + ".gpx.gz"@;
    assert(name.take(name.len() - 7) =~= stem);
}

/// The name that is found was not taken, and every name before it was.
pub proof fn the_first_free_name_is_found<T>(
    taken: T,
    name: Seq<char>,
    found: Seq<char>,
    i: nat,
) where T: Fn(&str) -> bool
    requires
        first_free(taken, name, found),
        forall|m: nat| m <= i ==> #[trigger] candidate(name, m) != found,
    ensures
        exists|s: &str| s@ == found && #[trigger] call_ensures(taken, (s,), false),
        exists|s: &str| s@ == candidate(name, i) && #[trigger] call_ensures(taken, (s,), true),
{
    let attempt = choose|attempt: nat|
        {
            &&& found == #[trigger] candidate(name, attempt)
            &&& answers(taken, candidate(name, attempt), false)
            &&& all_taken(taken, name, attempt)
        };
    assert(i < attempt);
    assert(answers(taken, candidate(name, i), true));
}

} // verus!
