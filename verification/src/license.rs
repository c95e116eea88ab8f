//! Empty `license` elements in GPX metadata.
//!
//! Some recorders write `<license></license>`, which the GPX reader rejects.

use vstd::prelude::*;
use vstd::slice::slice_subrange;

verus! {

/// The bytes of `<license`.
pub open spec fn opening_tag() -> Seq<u8> {
    seq![0x3c, 0x6c, 0x69, 0x63, 0x65, 0x6e, 0x73, 0x65]
}

/// The bytes of `</license>`.
pub open spec fn closing_tag() -> Seq<u8> {
    seq![0x3c, 0x2f, 0x6c, 0x69, 0x63, 0x65, 0x6e, 0x73, 0x65, 0x3e]
}

/// Whether `needle` stands in `bytes` at position `i`.
pub open spec fn occurs_at(bytes: Seq<u8>, needle: Seq<u8>, i: int) -> bool {
    0 <= i && i + needle.len() <= bytes.len() && bytes.subrange(i, i + needle.len()) == needle
}

/// The first position from `from` on at which `needle` stands.
pub open spec fn first_occurrence(bytes: Seq<u8>, needle: Seq<u8>, from: int) -> Option<int>
    decreases bytes.len() + 1 - from,
{
    if from + needle.len() > bytes.len() {
        None
    } else if occurs_at(bytes, needle, from) {
        Some(from)
    } else {
        first_occurrence(bytes, needle, from + 1)
    }
}

/// ASCII white space: tab, line feed, form feed, carriage return, space.
pub open spec fn blank(byte: u8) -> bool {
    byte == 0x20 || byte == 0x09 || byte == 0x0a || byte == 0x0c || byte == 0x0d
}

/// Whether all bytes are white space.
pub open spec fn all_blank(bytes: Seq<u8>) -> bool {
    forall|i: int| 0 <= i < bytes.len() ==> blank(#[trigger] bytes[i])
}

/// The last byte that is not white space.
pub open spec fn last_visible(bytes: Seq<u8>) -> Option<u8>
    decreases bytes.len(),
{
    if bytes.len() == 0 {
        None
    } else if blank(bytes.last()) {
        last_visible(bytes.drop_last())
    } else {
        Some(bytes.last())
    }
}

/// What stands at an occurrence of `<license`.
pub enum LicenseTag {
    /// The name goes on, as in `<licensee>`.
    OtherName,
    /// No `>` follows in the rest of the document.
    Unterminated,
    /// An element with content; its opening tag ends before the position.
    Filled(int),
    /// An element without content, which ends before the position.
    Empty(int),
}

/// Reads the tag that begins with the `<license` at `start`.
pub open spec fn tag_at(bytes: Seq<u8>, start: int) -> LicenseTag {
    let after = start + opening_tag().len();
    if after >= bytes.len() || !(bytes[after] == 0x3e || bytes[after] == 0x2f || blank(
        bytes[after],
    )) {
        LicenseTag::OtherName
    } else {
        match first_occurrence(bytes, seq![0x3eu8], start) {
            None => LicenseTag::Unterminated,
            Some(tag_end) => if last_visible(bytes.subrange(start + 1, tag_end)) == Some(0x2fu8) {
                LicenseTag::Empty(tag_end + 1)
            } else {
                match first_occurrence(bytes, closing_tag(), tag_end + 1) {
                    Some(close) => if all_blank(bytes.subrange(tag_end + 1, close)) {
                        LicenseTag::Empty(close + closing_tag().len())
                    } else {
                        LicenseTag::Filled(tag_end + 1)
                    },
                    None => LicenseTag::Filled(tag_end + 1),
                }
            },
        }
    }
}

proof fn lemma_first_occurrence(bytes: Seq<u8>, needle: Seq<u8>, from: int)
    requires
        0 <= from,
    ensures
        match first_occurrence(bytes, needle, from) {
            Some(i) => from <= i && occurs_at(bytes, needle, i),
            None => true,
        },
    decreases bytes.len() + 1 - from,
{
    if from + needle.len() <= bytes.len() && !occurs_at(bytes, needle, from) {
        lemma_first_occurrence(bytes, needle, from + 1);
    }
}

/// The `>` of a tag stands behind the tag's name.
proof fn lemma_bracket_follows_name(bytes: Seq<u8>, start: int)
    requires
        occurs_at(bytes, opening_tag(), start),
    ensures
        match first_occurrence(bytes, seq![0x3eu8], start) {
            Some(tag_end) => start + 8 <= tag_end < bytes.len(),
            None => true,
        },
{
    lemma_first_occurrence(bytes, seq![0x3eu8], start);
    match first_occurrence(bytes, seq![0x3eu8], start) {
        Some(tag_end) => {
            assert(bytes.subrange(tag_end, tag_end + 1)[0] == 0x3e);
            if tag_end < start + 8 {
                assert(bytes.subrange(start, start + 8)[tag_end - start] == opening_tag()[tag_end
                    - start]);
            }
        },
        None => {},
    }
}

/// A tag ends behind its beginning and within the document.
proof fn lemma_tag_at(bytes: Seq<u8>, start: int)
    requires
        occurs_at(bytes, opening_tag(), start),
    ensures
        match tag_at(bytes, start) {
            LicenseTag::OtherName => start + 8 <= bytes.len(),
            LicenseTag::Unterminated => true,
            LicenseTag::Filled(next) => start + 8 < next <= bytes.len(),
            LicenseTag::Empty(next) => start + 8 < next <= bytes.len(),
        },
{
    lemma_bracket_follows_name(bytes, start);
    match first_occurrence(bytes, seq![0x3eu8], start) {
        Some(tag_end) => lemma_first_occurrence(bytes, closing_tag(), tag_end + 1),
        None => {},
    }
}

/// The document from `at` on, without its empty `license` elements.
pub open spec fn without_empty_licenses(bytes: Seq<u8>, at: int) -> Seq<u8>
    decreases bytes.len() - at,
    when 0 <= at <= bytes.len()
    via without_empty_licenses_shrinks
{
    match first_occurrence(bytes, opening_tag(), at) {
        None => bytes.skip(at),
        Some(start) => match tag_at(bytes, start) {
            LicenseTag::OtherName => bytes.subrange(at, start + 8) + without_empty_licenses(
                bytes,
                start + 8,
            ),
            LicenseTag::Unterminated => bytes.skip(at),
            LicenseTag::Filled(next) => bytes.subrange(at, next) + without_empty_licenses(
                bytes,
                next,
            ),
            LicenseTag::Empty(next) => bytes.subrange(at, start) + without_empty_licenses(
                bytes,
                next,
            ),
        },
    }
}

#[via_fn]
proof fn without_empty_licenses_shrinks(bytes: Seq<u8>, at: int) {
    lemma_first_occurrence(bytes, opening_tag(), at);
    match first_occurrence(bytes, opening_tag(), at) {
        Some(start) => lemma_tag_at(bytes, start),
        None => {},
    }
}

/// Whether an empty `license` element stands in the document from `at` on.
pub open spec fn has_empty_license(bytes: Seq<u8>, at: int) -> bool
    decreases bytes.len() - at,
    when 0 <= at <= bytes.len()
    via has_empty_license_shrinks
{
    match first_occurrence(bytes, opening_tag(), at) {
        None => false,
        Some(start) => match tag_at(bytes, start) {
            LicenseTag::OtherName => has_empty_license(bytes, start + 8),
            LicenseTag::Unterminated => false,
            LicenseTag::Filled(next) => has_empty_license(bytes, next),
            LicenseTag::Empty(next) => true,
        },
    }
}

#[via_fn]
proof fn has_empty_license_shrinks(bytes: Seq<u8>, at: int) {
    lemma_first_occurrence(bytes, opening_tag(), at);
    match first_occurrence(bytes, opening_tag(), at) {
        Some(start) => lemma_tag_at(bytes, start),
        None => {},
    }
}

fn is_blank(byte: u8) -> (b: bool)
    ensures
        b == blank(byte),
{
    byte == 0x20 || byte == 0x09 || byte == 0x0a || byte == 0x0c || byte == 0x0d
}

/// Whether `needle` stands at position `i`.
fn stands_at(bytes: &[u8], needle: &[u8], i: usize) -> (b: bool)
    requires
        i + needle@.len() <= bytes@.len(),
    ensures
        b == occurs_at(bytes@, needle@, i as int),
{
    let total: usize = bytes.len();
    let mut k: usize = 0;
    while k < needle.len()
        invariant
            k <= needle@.len(),
            i + needle@.len() <= bytes@.len() == total,
            forall|j: int| 0 <= j < k ==> bytes@[i + j] == needle@[j],
        decreases needle@.len() - k,
    {
        if bytes[i + k] != needle[k] {
            assert(bytes@.subrange(i as int, i + needle@.len())[k as int] != needle@[k as int]);
            return false;
        }
        k = k + 1;
    }
    assert(bytes@.subrange(i as int, i + needle@.len()) =~= needle@);
    true
}

/// The first position from `from` on at which `needle` stands.
fn find_from(bytes: &[u8], needle: &[u8], from: usize) -> (found: Option<usize>)
    requires
        from <= bytes@.len(),
        needle@.len() > 0,
    ensures
        match found {
            Some(i) => first_occurrence(bytes@, needle@, from as int) == Some(i as int) && from <= i
                && i + needle@.len() <= bytes@.len(),
            None => first_occurrence(bytes@, needle@, from as int) is None,
        },
{
    let mut i: usize = from;
    while needle.len() <= bytes.len() - i
        invariant
            from <= i <= bytes@.len(),
            needle@.len() > 0,
            first_occurrence(bytes@, needle@, from as int) == first_occurrence(
                bytes@,
                needle@,
                i as int,
            ),
        decreases bytes@.len() - i,
    {
        if stands_at(bytes, needle, i) {
            return Some(i);
        }
        i = i + 1;
    }
    None
}

/// The first position at which `needle` stands in `haystack`.
pub fn find_bytes(haystack: &[u8], needle: &[u8]) -> (found: Option<usize>)
    requires
        needle@.len() > 0,
    ensures
        match found {
            Some(i) => first_occurrence(haystack@, needle@, 0) == Some(i as int),
            None => first_occurrence(haystack@, needle@, 0) is None,
        },
{
    find_from(haystack, needle, 0)
}

fn ends_in_slash(bytes: &[u8], from: usize, to: usize) -> (b: bool)
    requires
        from <= to <= bytes@.len(),
    ensures
        b == (last_visible(bytes@.subrange(from as int, to as int)) == Some(0x2fu8)),
{
    let mut end: usize = to;
    while from < end
        invariant
            from <= end <= to <= bytes@.len(),
            last_visible(bytes@.subrange(from as int, to as int)) == last_visible(
                bytes@.subrange(from as int, end as int),
            ),
        decreases end - from,
    {
        if !is_blank(bytes[end - 1]) {
            return bytes[end - 1] == 0x2f;
        }
        assert(bytes@.subrange(from as int, end as int).drop_last() =~= bytes@.subrange(
            from as int,
            end - 1,
        ));
        end = end - 1;
    }
    false
}

fn range_is_blank(bytes: &[u8], from: usize, to: usize) -> (b: bool)
    requires
        from <= to <= bytes@.len(),
    ensures
        b == all_blank(bytes@.subrange(from as int, to as int)),
{
    let mut i: usize = from;
    while i < to
        invariant
            from <= i <= to <= bytes@.len(),
            forall|j: int| from <= j < i ==> blank(#[trigger] bytes@[j]),
        decreases to - i,
    {
        if !is_blank(bytes[i]) {
            assert(!blank(bytes@.subrange(from as int, to as int)[i - from]));
            return false;
        }
        i = i + 1;
    }
    true
}

/// The document without its empty `license` elements; nothing where it has none.
pub fn remove_empty_license_elements(bytes: &[u8]) -> (cleaned: Option<Vec<u8>>)
    ensures
        match cleaned {
            Some(output) => has_empty_license(bytes@, 0) && output@ == without_empty_licenses(
                bytes@,
                0,
            ),
            None => !has_empty_license(bytes@, 0),
        },
{
    let opening: [u8; 8] = [0x3c, 0x6c, 0x69, 0x63, 0x65, 0x6e, 0x73, 0x65];
    let closing: [u8; 10] = [0x3c, 0x2f, 0x6c, 0x69, 0x63, 0x65, 0x6e, 0x73, 0x65, 0x3e];
    let bracket: [u8; 1] = [0x3e];
    proof {
        assert(opening@ =~= opening_tag());
        assert(closing@ =~= closing_tag());
        assert(bracket@ =~= seq![0x3eu8]);
    }

    let mut output: Vec<u8> = Vec::new();
    let mut copy_from: usize = 0;
    let mut search_from: usize = 0;
    let mut changed: bool = false;
    let mut searching: bool = true;
    let total: usize = bytes.len();
    assert(bytes@.subrange(0, 0) =~= Seq::<u8>::empty());

    while searching
        invariant
            copy_from <= search_from <= bytes@.len() == total,
            opening@ == opening_tag(),
            closing@ == closing_tag(),
            bracket@ == seq![0x3eu8],
            searching ==> without_empty_licenses(bytes@, 0) == output@ + bytes@.subrange(
                copy_from as int,
                search_from as int,
            ) + without_empty_licenses(bytes@, search_from as int),
            !searching ==> without_empty_licenses(bytes@, 0) == output@ + bytes@.skip(
                copy_from as int,
            ),
            changed ==> has_empty_license(bytes@, 0),
            !changed && searching ==> has_empty_license(bytes@, 0) == has_empty_license(
                bytes@,
                search_from as int,
            ),
            !changed && !searching ==> !has_empty_license(bytes@, 0),
        decreases
            bytes@.len() - search_from + if searching {
                1int
            } else {
                0
            },
    {
        let ghost at = search_from as int;
        let ghost pending = bytes@.subrange(copy_from as int, at);
        match find_from(bytes, &opening, search_from) {
            None => {
                searching = false;
                assert(pending + bytes@.skip(at) =~= bytes@.skip(copy_from as int));
                assert(output@ + pending + bytes@.skip(at) =~= output@ + (pending + bytes@.skip(
                    at,
                )));
            },
            Some(start) => {
                proof {
                    lemma_first_occurrence(bytes@, opening_tag(), at);
                    lemma_tag_at(bytes@, start as int);
                    lemma_bracket_follows_name(bytes@, start as int);
                }
                let after: usize = start + 8;
                if after >= bytes.len() || !(bytes[after] == 0x3e || bytes[after] == 0x2f
                    || is_blank(bytes[after])) {
                    search_from = after;
                    assert(output@ + pending + (bytes@.subrange(at, start + 8)
                        + without_empty_licenses(bytes@, start + 8)) =~= output@ + bytes@.subrange(
                        copy_from as int,
                        start + 8,
                    ) + without_empty_licenses(bytes@, start + 8));
                } else {
                    match find_from(bytes, &bracket, start) {
                        None => {
                            searching = false;
                            assert(output@ + pending + bytes@.skip(at) =~= output@ + bytes@.skip(
                                copy_from as int,
                            ));
                        },
                        Some(tag_end) => {
                            let content: usize = tag_end + 1;
                            let remove_end: Option<usize> = if ends_in_slash(
                                bytes,
                                start + 1,
                                tag_end,
                            ) {
                                Some(content)
                            } else {
                                match find_from(bytes, &closing, content) {
                                    Some(close) => if range_is_blank(bytes, content, close) {
                                        Some(close + 10)
                                    } else {
                                        None
                                    },
                                    None => None,
                                }
                            };
                            match remove_end {
                                Some(next) => {
                                    output.extend_from_slice(
                                        slice_subrange(bytes, copy_from, start),
                                    );
                                    copy_from = next;
                                    search_from = next;
                                    changed = true;
                                    assert(bytes@.subrange(next as int, next as int) =~= Seq::<
                                        u8,
                                    >::empty());
                                },
                                None => {
                                    search_from = content;
                                },
                            }
                        },
                    }
                }
            },
        }
    }
    if !changed {
        return None;
    }
    output.extend_from_slice(slice_subrange(bytes, copy_from, bytes.len()));
    Some(output)
}

/// Only empty `license` elements are removed: without one the document stays as
/// it is, and with one it gets shorter.
pub proof fn only_empty_licenses_are_removed(bytes: Seq<u8>, at: int)
    requires
        0 <= at <= bytes.len(),
    ensures
        !has_empty_license(bytes, at) ==> without_empty_licenses(bytes, at) == bytes.skip(at),
        has_empty_license(bytes, at) ==> without_empty_licenses(bytes, at).len() < bytes.len() - at,
    decreases bytes.len() - at,
{
    lemma_first_occurrence(bytes, opening_tag(), at);
    match first_occurrence(bytes, opening_tag(), at) {
        None => {},
        Some(start) => {
            lemma_tag_at(bytes, start);
            match tag_at(bytes, start) {
                LicenseTag::OtherName => {
                    only_empty_licenses_are_removed(bytes, start + 8);
                    assert(bytes.subrange(at, start + 8) + bytes.skip(start + 8) =~= bytes.skip(
                        at,
                    ));
                },
                LicenseTag::Unterminated => {},
                LicenseTag::Filled(next) => {
                    only_empty_licenses_are_removed(bytes, next);
                    assert(bytes.subrange(at, next) + bytes.skip(next) =~= bytes.skip(at));
                },
                LicenseTag::Empty(next) => {
                    only_empty_licenses_are_removed(bytes, next);
                },
            }
        },
    }
}

/// A document in which `<license` does not occur has no empty `license` element.
pub proof fn no_tag_no_empty_license(bytes: Seq<u8>)
    requires
        first_occurrence(bytes, opening_tag(), 0) is None,
    ensures
        !has_empty_license(bytes, 0),
{
}

/// The first occurrence is one, none stands before it, and where there is none the bytes
/// stand nowhere.
pub proof fn first_occurrences_are_first(bytes: Seq<u8>, needle: Seq<u8>, from: int, i: int)
    requires
        0 <= from,
    ensures
        first_occurrence(bytes, needle, from) matches Some(found) ==> {
            &&& from <= found
            &&& found + needle.len() <= bytes.len()
            &&& forall|k: int| 0 <= k < needle.len() ==> bytes[found + k] == #[trigger] needle[k]
        },
        from <= i && i + needle.len() <= bytes.len() && (forall|k: int|
            0 <= k < needle.len() ==> bytes[i + k] == #[trigger] needle[k]) ==> {
            &&& first_occurrence(bytes, needle, from) matches Some(found)
            &&& found <= i
        },
    decreases bytes.len() + 1 - from,
{
    if from + needle.len() <= bytes.len() {
        if occurs_at(bytes, needle, from) {
            assert forall|k: int| 0 <= k < needle.len() implies bytes[from + k]
                == #[trigger] needle[k] by {
                assert(bytes.subrange(from, from + needle.len())[k] == needle[k]);
            }
        } else {
            first_occurrences_are_first(bytes, needle, from + 1, i);
            if i == from && (forall|k: int|
                0 <= k < needle.len() ==> bytes[i + k] == #[trigger] needle[k]) {
                assert(bytes.subrange(from, from + needle.len()) =~= needle);
            }
        }
    }
}

proof fn lemma_occurs_first(bytes: Seq<u8>, needle: Seq<u8>, from: int, i: int)
    requires
        0 <= from <= i,
        needle.len() > 0,
        occurs_at(bytes, needle, i),
        forall|j: int| from <= j < i ==> !(#[trigger] occurs_at(bytes, needle, j)),
    ensures
        first_occurrence(bytes, needle, from) == Some(i),
    decreases i - from,
{
    if from < i {
        assert(!occurs_at(bytes, needle, from));
        lemma_occurs_first(bytes, needle, from + 1, i);
    }
}

proof fn lemma_no_bracket_no_tag(bytes: Seq<u8>, needle: Seq<u8>, from: int, to: int)
    requires
        0 <= from,
        needle.len() > 0,
        forall|j: int| from <= j < to && 0 <= j < bytes.len() ==> #[trigger] bytes[j] != needle[0],
    ensures
        forall|j: int| from <= j < to ==> !(#[trigger] occurs_at(bytes, needle, j)),
{
    assert forall|j: int| from <= j < to implies !(#[trigger] occurs_at(bytes, needle, j)) by {
        if occurs_at(bytes, needle, j) {
            assert(bytes.subrange(j, j + needle.len())[0] == needle[0]);
        }
    }
}

proof fn lemma_shifted_occurrence(bytes: Seq<u8>, needle: Seq<u8>, at: int, from: int)
    requires
        0 <= at <= from,
        at <= bytes.len(),
    ensures
        first_occurrence(bytes.skip(at), needle, from - at) == match first_occurrence(
            bytes,
            needle,
            from,
        ) {
            Some(i) => Some(i - at),
            None => None::<int>,
        },
    decreases bytes.len() + 1 - from,
{
    let rest = bytes.skip(at);
    if from + needle.len() <= bytes.len() {
        assert(rest.subrange(from - at, from - at + needle.len()) =~= bytes.subrange(
            from,
            from + needle.len(),
        ));
        if !occurs_at(bytes, needle, from) {
            lemma_shifted_occurrence(bytes, needle, at, from + 1);
        }
    }
}

proof fn lemma_shifted_tag(bytes: Seq<u8>, at: int, start: int)
    requires
        0 <= at <= start,
        at <= bytes.len(),
        occurs_at(bytes, opening_tag(), start),
    ensures
        tag_at(bytes.skip(at), start - at) == match tag_at(bytes, start) {
            LicenseTag::OtherName => LicenseTag::OtherName,
            LicenseTag::Unterminated => LicenseTag::Unterminated,
            LicenseTag::Filled(next) => LicenseTag::Filled(next - at),
            LicenseTag::Empty(next) => LicenseTag::Empty(next - at),
        },
{
    let rest = bytes.skip(at);
    let bracket = seq![0x3eu8];
    lemma_shifted_occurrence(bytes, bracket, at, start);
    lemma_bracket_follows_name(bytes, start);
    match first_occurrence(bytes, bracket, start) {
        Some(tag_end) => {
            assert(rest.subrange(start - at + 1, tag_end - at) =~= bytes.subrange(
                start + 1,
                tag_end,
            ));
            lemma_shifted_occurrence(bytes, closing_tag(), at, tag_end + 1);
            lemma_first_occurrence(bytes, closing_tag(), tag_end + 1);
            match first_occurrence(bytes, closing_tag(), tag_end + 1) {
                Some(close) => {
                    assert(rest.subrange(tag_end - at + 1, close - at) =~= bytes.subrange(
                        tag_end + 1,
                        close,
                    ));
                },
                None => {},
            }
        },
        None => {},
    }
}

/// What becomes of a document from some place on does not depend on what stands before.
pub proof fn the_rest_is_cleaned_by_itself(bytes: Seq<u8>, from: int, at: int)
    requires
        0 <= at <= from <= bytes.len(),
    ensures
        without_empty_licenses(bytes, from) == without_empty_licenses(bytes.skip(at), from - at),
        has_empty_license(bytes, from) == has_empty_license(bytes.skip(at), from - at),
    decreases bytes.len() - from,
{
    let rest = bytes.skip(at);
    lemma_shifted_occurrence(bytes, opening_tag(), at, from);
    lemma_first_occurrence(bytes, opening_tag(), from);
    assert(rest.skip(from - at) =~= bytes.skip(from));
    match first_occurrence(bytes, opening_tag(), from) {
        None => {},
        Some(start) => {
            lemma_shifted_tag(bytes, at, start);
            lemma_tag_at(bytes, start);
            match tag_at(bytes, start) {
                LicenseTag::OtherName => {
                    the_rest_is_cleaned_by_itself(bytes, start + 8, at);
                    assert(rest.subrange(from - at, start - at + 8) =~= bytes.subrange(
                        from,
                        start + 8,
                    ));
                },
                LicenseTag::Unterminated => {},
                LicenseTag::Filled(next) => {
                    the_rest_is_cleaned_by_itself(bytes, next, at);
                    assert(rest.subrange(from - at, next - at) =~= bytes.subrange(from, next));
                },
                LicenseTag::Empty(next) => {
                    the_rest_is_cleaned_by_itself(bytes, next, at);
                    assert(rest.subrange(from - at, start - at) =~= bytes.subrange(from, start));
                },
            }
        },
    }
}

/// A byte at which no `<license` begins stays, and what stands behind it is cleaned by
/// itself.
pub proof fn bytes_outside_tags_stay(bytes: Seq<u8>)
    requires
        bytes.len() > 0,
        !occurs_at(bytes, seq![0x3cu8, 0x6c, 0x69, 0x63, 0x65, 0x6e, 0x73, 0x65], 0),
    ensures
        without_empty_licenses(bytes, 0) == seq![bytes[0]] + without_empty_licenses(
            bytes.drop_first(),
            0,
        ),
        has_empty_license(bytes, 0) == has_empty_license(bytes.drop_first(), 0),
{
    assert(seq![0x3cu8, 0x6c, 0x69, 0x63, 0x65, 0x6e, 0x73, 0x65] =~= opening_tag());
    lemma_skipped_occurrence(bytes, opening_tag(), 0, 1);
    lemma_skipped_text(bytes, 1);
    assert(bytes.subrange(0, 1) =~= seq![bytes[0]]);
    assert(bytes.skip(1) =~= bytes.drop_first());
    the_rest_is_cleaned_by_itself(bytes, 1, 1);
}

proof fn lemma_skipped_text(whole: Seq<u8>, n: int)
    requires
        0 <= n <= whole.len(),
        first_occurrence(whole, opening_tag(), 0) == first_occurrence(whole, opening_tag(), n),
    ensures
        without_empty_licenses(whole, 0) == whole.subrange(0, n) + without_empty_licenses(whole, n),
        has_empty_license(whole, 0) == has_empty_license(whole, n),
{
    let before = whole.subrange(0, n);
    lemma_first_occurrence(whole, opening_tag(), n);
    match first_occurrence(whole, opening_tag(), n) {
        None => {
            assert(whole.skip(0) =~= before + whole.skip(n));
        },
        Some(start) => {
            lemma_tag_at(whole, start);
            match tag_at(whole, start) {
                LicenseTag::OtherName => {
                    let rest = without_empty_licenses(whole, start + 8);
                    assert(whole.subrange(0, start + 8) + rest =~= before + (whole.subrange(
                        n,
                        start + 8,
                    ) + rest));
                },
                LicenseTag::Unterminated => {
                    assert(whole.skip(0) =~= before + whole.skip(n));
                },
                LicenseTag::Filled(next) => {
                    let rest = without_empty_licenses(whole, next);
                    assert(whole.subrange(0, next) + rest =~= before + (whole.subrange(n, next)
                        + rest));
                },
                LicenseTag::Empty(next) => {
                    let rest = without_empty_licenses(whole, next);
                    assert(whole.subrange(0, start) + rest =~= before + (whole.subrange(n, start)
                        + rest));
                },
            }
        },
    }
}

proof fn lemma_skipped_occurrence(bytes: Seq<u8>, needle: Seq<u8>, from: int, to: int)
    requires
        0 <= from <= to,
        to <= bytes.len(),
        needle.len() > 0,
        forall|j: int| from <= j < to ==> !(#[trigger] occurs_at(bytes, needle, j)),
    ensures
        first_occurrence(bytes, needle, from) == first_occurrence(bytes, needle, to),
    decreases to - from,
{
    if from < to {
        assert(!occurs_at(bytes, needle, from));
        if from + needle.len() <= bytes.len() {
            lemma_skipped_occurrence(bytes, needle, from + 1, to);
        }
    }
}

/// Whether some bytes are spaces, tabs and ends of lines.
pub open spec fn blanks_alone(bytes: Seq<u8>) -> bool {
    forall|i: int|
        0 <= i < bytes.len() ==> {
            ||| #[trigger] bytes[i] == 0x20
            ||| bytes[i] == 0x09
            ||| bytes[i] == 0x0a
            ||| bytes[i] == 0x0c
            ||| bytes[i] == 0x0d
        }
}

/// A tag whose name goes on, or that never ends, is none of a `license` element and stays.
pub proof fn other_tags_stay(rest: Seq<u8>)
    ensures
        ({
            let open = seq![0x3cu8, 0x6c, 0x69, 0x63, 0x65, 0x6e, 0x73, 0x65];
            &&& rest.len() == 0 || (rest[0] != 0x3e && rest[0] != 0x2f && !blanks_alone(
                rest.take(1),
            )) ==> {
                &&& without_empty_licenses(open + rest, 0) == open + without_empty_licenses(rest, 0)
                &&& has_empty_license(open + rest, 0) == has_empty_license(rest, 0)
            }
            &&& rest.len() > 0 && (rest[0] == 0x2f || blanks_alone(rest.take(1))) && (forall|i: int|
                0 <= i < rest.len() ==> #[trigger] rest[i] != 0x3e) ==> !has_empty_license(
                open + rest,
                0,
            )
        }),
{
    let open = opening_tag();
    assert(seq![0x3cu8, 0x6c, 0x69, 0x63, 0x65, 0x6e, 0x73, 0x65] =~= open);
    let bytes = open + rest;
    assert(bytes.subrange(0, 8) =~= open);
    lemma_occurs_first(bytes, open, 0, 0);
    if rest.len() > 0 {
        assert(bytes[8] == rest[0]);
        assert(rest.take(1)[0] == rest[0]);
        assert(blank(rest[0]) ==> blanks_alone(rest.take(1)));
    }
    if rest.len() == 0 || (rest[0] != 0x3e && rest[0] != 0x2f && !blanks_alone(rest.take(1))) {
        assert(tag_at(bytes, 0) is OtherName);
        assert(bytes.subrange(0, 8) =~= open);
        assert(bytes.skip(8) =~= rest);
        the_rest_is_cleaned_by_itself(bytes, 8, 8);
    } else if forall|i: int| 0 <= i < rest.len() ==> #[trigger] rest[i] != 0x3e {
        let bracket = seq![0x3eu8];
        let n = bytes.len() as int;
        assert forall|j: int| 0 <= j < n implies #[trigger] bytes[j] != 0x3e by {
            if j < 8 {
                assert(bytes[j] == open[j]);
            } else {
                assert(bytes[j] == rest[j - 8]);
            }
        }
        lemma_no_bracket_no_tag(bytes, bracket, 0, n);
        lemma_skipped_occurrence(bytes, bracket, 0, n);
        assert(first_occurrence(bytes, bracket, n) is None);
        assert(tag_at(bytes, 0) is Unterminated);
    }
}

proof fn lemma_last_visible(head: Seq<u8>, blanks: Seq<u8>)
    requires
        blanks_alone(blanks),
    ensures
        last_visible(head + blanks) == last_visible(head),
    decreases blanks.len(),
{
    if blanks.len() == 0 {
        assert(head + blanks =~= head);
    } else {
        let fewer = blanks.drop_last();
        assert((head + blanks).drop_last() =~= head + fewer);
        assert((head + blanks).last() == blanks[blanks.len() - 1]);
        assert(blanks_alone(fewer)) by {
            assert(forall|i: int| 0 <= i < fewer.len() ==> #[trigger] fewer[i] == blanks[i]);
        }
        lemma_last_visible(head, fewer);
    }
}

/// Whether some bytes may stand in an opening tag behind its name: they hold no `>`, and
/// the name ends before them.
pub open spec fn follows_name(attributes: Seq<u8>) -> bool {
    &&& forall|i: int| 0 <= i < attributes.len() ==> #[trigger] attributes[i] != 0x3e
    &&& attributes.len() > 0 ==> attributes[0] == 0x2f || blanks_alone(attributes.take(1))
}

/// Where the tag of a `license` element ends.
proof fn lemma_element_head(attributes: Seq<u8>, rest: Seq<u8>)
    requires
        follows_name(attributes),
    ensures
        ({
            let bytes = opening_tag() + attributes + seq![0x3eu8] + rest;
            let tag_end = 8 + attributes.len() as int;
            &&& first_occurrence(bytes, opening_tag(), 0) == Some(0int)
            &&& first_occurrence(bytes, seq![0x3eu8], 0) == Some(tag_end)
            &&& bytes[8] == 0x3e || bytes[8] == 0x2f || blank(bytes[8])
            &&& bytes.subrange(1, tag_end) == opening_tag().drop_first() + attributes
            &&& bytes.subrange(0, tag_end + 1) == opening_tag() + attributes + seq![0x3eu8]
            &&& bytes.skip(tag_end + 1) == rest
        }),
{
    let bytes = opening_tag() + attributes + seq![0x3eu8] + rest;
    let tag_end = 8 + attributes.len() as int;
    assert(bytes.subrange(0, 8) =~= opening_tag());
    lemma_occurs_first(bytes, opening_tag(), 0, 0);
    assert(bytes.subrange(tag_end, tag_end + 1) =~= seq![0x3eu8]);
    assert forall|j: int| 0 <= j < tag_end implies #[trigger] bytes[j] != 0x3e by {
        if j < 8 {
            assert(bytes[j] == opening_tag()[j]);
        } else {
            assert(bytes[j] == attributes[j - 8]);
        }
    }
    lemma_no_bracket_no_tag(bytes, seq![0x3eu8], 0, tag_end);
    lemma_occurs_first(bytes, seq![0x3eu8], 0, tag_end);
    if attributes.len() > 0 {
        assert(bytes[8] == attributes[0]);
        assert(attributes.take(1)[0] == attributes[0]);
    }
    assert(bytes.subrange(1, tag_end) =~= opening_tag().drop_first() + attributes);
    assert(bytes.subrange(0, tag_end + 1) =~= opening_tag() + attributes + seq![0x3eu8]);
    assert(bytes.skip(tag_end + 1) =~= rest);
}

/// A `license` element that a slash closes is removed, whatever stands in its tag before
/// the slash; what stands behind it is cleaned likewise.
pub proof fn slashed_licenses_are_removed(attributes: Seq<u8>, blanks: Seq<u8>, after: Seq<u8>)
    requires
        follows_name(attributes),
        blanks_alone(blanks),
    ensures
        ({
            let open = seq![0x3cu8, 0x6c, 0x69, 0x63, 0x65, 0x6e, 0x73, 0x65];
            let slashed = open + (attributes + seq![0x2fu8] + blanks) + seq![0x3eu8] + after;
            &&& has_empty_license(slashed, 0)
            &&& without_empty_licenses(slashed, 0) == without_empty_licenses(after, 0)
        }),
{
    assert(seq![0x3cu8, 0x6c, 0x69, 0x63, 0x65, 0x6e, 0x73, 0x65] =~= opening_tag());
    let inner = attributes + seq![0x2fu8] + blanks;
    let slashed = opening_tag() + inner + seq![0x3eu8] + after;
    let tag_end = 8 + inner.len() as int;
    assert(follows_name(inner)) by {
        assert forall|i: int| 0 <= i < inner.len() implies #[trigger] inner[i] != 0x3e by {
            if i < attributes.len() {
                assert(inner[i] == attributes[i]);
            } else if i > attributes.len() {
                assert(inner[i] == blanks[i - attributes.len() - 1]);
            }
        }
        if attributes.len() > 0 {
            assert(inner[0] == attributes[0]);
            assert(inner.take(1) =~= attributes.take(1));
        }
    }
    lemma_element_head(inner, after);
    let name = opening_tag().drop_first();
    assert(name + inner =~= (name + attributes + seq![0x2fu8]) + blanks);
    lemma_last_visible(name + attributes + seq![0x2fu8], blanks);
    assert((name + attributes + seq![0x2fu8]).last() == 0x2f);
    assert(tag_at(slashed, 0) == LicenseTag::Empty(tag_end + 1));
    assert(slashed.subrange(0, 0) =~= Seq::empty());
    the_rest_is_cleaned_by_itself(slashed, tag_end + 1, tag_end + 1);
    assert(Seq::<u8>::empty() + without_empty_licenses(after, 0) =~= without_empty_licenses(
        after,
        0,
    ));
}

/// A `license` element with a tag that no slash closes is removed exactly where its closing
/// tag is the first thing but blanks that follows; what stands behind it is cleaned
/// likewise. Otherwise its tag stays, and what follows the tag is cleaned by itself.
pub proof fn only_blank_licenses_are_removed(
    attributes: Seq<u8>,
    tail: Seq<u8>,
    blanks: Seq<u8>,
    more: Seq<u8>,
)
    requires
        follows_name(attributes + tail),
        attributes.len() > 0 ==> attributes.last() != 0x2f && !blanks_alone(
            seq![attributes.last()],
        ),
        blanks_alone(tail),
        blanks_alone(blanks),
        more.len() > 0 ==> !blanks_alone(more.take(1)),
    ensures
        ({
            let open = seq![0x3cu8, 0x6c, 0x69, 0x63, 0x65, 0x6e, 0x73, 0x65];
            let close = seq![0x3cu8, 0x2f, 0x6c, 0x69, 0x63, 0x65, 0x6e, 0x73, 0x65, 0x3e];
            let tag = open + (attributes + tail) + seq![0x3eu8];
            let bytes = tag + (blanks + more);
            if occurs_at(more, close, 0) {
                &&& has_empty_license(bytes, 0)
                &&& without_empty_licenses(bytes, 0) == without_empty_licenses(more.skip(10), 0)
            } else {
                &&& has_empty_license(bytes, 0) == has_empty_license(blanks + more, 0)
                &&& without_empty_licenses(bytes, 0) == tag + without_empty_licenses(
                    blanks + more,
                    0,
                )
            }
        }),
{
    assert(seq![0x3cu8, 0x6c, 0x69, 0x63, 0x65, 0x6e, 0x73, 0x65] =~= opening_tag());
    assert(seq![0x3cu8, 0x2f, 0x6c, 0x69, 0x63, 0x65, 0x6e, 0x73, 0x65, 0x3e] =~= closing_tag());
    let inner = attributes + tail;
    let rest = blanks + more;
    let tag = opening_tag() + inner + seq![0x3eu8];
    let bytes = tag + rest;
    let next = 9 + inner.len() as int;
    let close = next + blanks.len();
    lemma_element_head(inner, rest);
    let name = opening_tag().drop_first();
    assert(name + inner =~= (name + attributes) + tail);
    lemma_last_visible(name + attributes, tail);
    if attributes.len() > 0 {
        assert((name + attributes).last() == attributes.last());
        assert(seq![attributes.last()][0] == attributes.last());
    } else {
        assert((name + attributes).last() == 0x65);
    }
    assert(last_visible(name + inner) == Some((name + attributes).last()));
    lemma_closing_tag(bytes, next, blanks, more);
    if occurs_at(more, closing_tag(), 0) {
        assert(bytes.subrange(next, close) =~= blanks);
        assert(tag_at(bytes, 0) == LicenseTag::Empty(close + 10));
        assert(bytes.subrange(0, 0) =~= Seq::empty());
        assert(bytes.skip(close + 10) =~= more.skip(10));
        the_rest_is_cleaned_by_itself(bytes, close + 10, close + 10);
        assert(Seq::<u8>::empty() + without_empty_licenses(more.skip(10), 0)
            =~= without_empty_licenses(more.skip(10), 0));
    } else {
        match first_occurrence(bytes, closing_tag(), next) {
            Some(found) => {
                let within = bytes.subrange(next, found);
                assert(within[close - next] == more[0]);
                assert(more.take(1)[0] == more[0]);
                assert(!blank(within[close - next]));
            },
            None => {},
        }
        assert(tag_at(bytes, 0) == LicenseTag::Filled(next));
        the_rest_is_cleaned_by_itself(bytes, next, next);
    }
}

proof fn lemma_closing_tag(bytes: Seq<u8>, next: int, blanks: Seq<u8>, more: Seq<u8>)
    requires
        0 <= next <= bytes.len(),
        bytes.skip(next) == blanks + more,
        blanks_alone(blanks),
    ensures
        ({
            let close = next + blanks.len();
            match first_occurrence(bytes, closing_tag(), next) {
                Some(found) => if occurs_at(more, closing_tag(), 0) {
                    found == close
                } else {
                    close < found < bytes.len()
                },
                None => !occurs_at(more, closing_tag(), 0),
            }
        }),
{
    let close = next + blanks.len();
    let rest = bytes.skip(next);
    assert(rest.len() == bytes.len() - next);
    assert(rest.len() == blanks.len() + more.len());
    assert forall|j: int| next <= j < close implies #[trigger] bytes[j] != 0x3c by {
        assert(bytes[j] == rest[j - next]);
        assert(rest[j - next] == blanks[j - next]);
    }
    lemma_no_bracket_no_tag(bytes, closing_tag(), next, close);
    lemma_skipped_occurrence(bytes, closing_tag(), next, close);
    lemma_first_occurrence(bytes, closing_tag(), close);
    assert forall|k: int| 0 <= k < more.len() implies bytes[close + k] == #[trigger] more[k] by {
        assert(rest[blanks.len() + k] == more[k]);
    }
    if more.len() >= 10 {
        assert(bytes.subrange(close, close + 10) =~= more.subrange(0, 10));
    }
}

} // verus!
