//! Names for archived submissions.

use vstd::prelude::*;

use crate::text::{chars_of, has_suffix, lower, lowered, text_of, ends_with};

verus! {

/// The number of characters that are kept of a name.
pub const MAX_STEM_CHARS: usize = 92;

/// Where the part behind the last slash begins.
pub open spec fn last_part_start(path: Seq<char>) -> int
    decreases path.len(),
{
    if path.len() == 0 || path.last() == '/' {
        path.len() as int
    } else {
        last_part_start(path.drop_last())
    }
}

/// The last part of a path that is neither empty nor a single dot; nothing where
/// there is none or where it leads to the parent directory.
pub open spec fn file_name(path: Seq<char>) -> Option<Seq<char>>
    decreases path.len(),
    via file_name_shrinks
{
    let start = last_part_start(path);
    let part = path.subrange(start, path.len() as int);
    if part.len() == 0 || part == seq!['.'] {
        if start == 0 {
            None
        } else {
            file_name(path.take(start - 1))
        }
    } else if part == seq!['.', '.'] {
        None
    } else {
        Some(part)
    }
}

#[via_fn]
proof fn file_name_shrinks(path: Seq<char>) {
    lemma_last_part(path);
}

proof fn lemma_last_part(path: Seq<char>)
    ensures
        0 <= last_part_start(path) <= path.len(),
    decreases path.len(),
{
    if path.len() > 0 && path.last() != '/' {
        lemma_last_part(path.drop_last());
    }
}

/// Whether a character may stand in the name of an archive.
pub open spec fn safe_char(c: char) -> bool {
    ('a' <= c <= 'z') || ('A' <= c <= 'Z') || ('0' <= c <= '9') || c == '.' || c == '-' || c == '_'
}

/// A character, or an underscore in its place.
pub open spec fn cleaned_char(c: char) -> char {
    if safe_char(c) {
        c
    } else {
        '_'
    }
}

/// A name without its `.gpx` extension, in whatever case.
pub open spec fn without_extension(name: Seq<char>) -> Seq<char> {
    if has_suffix(lowered(name), ".gpx"@) {
        name.take(name.len() - 4)
    } else {
        name
    }
}

/// The first characters of a name, cleaned.
pub open spec fn cleaned(stem: Seq<char>) -> Seq<char> {
    Seq::new(
        if stem.len() <= MAX_STEM_CHARS {
            stem.len()
        } else {
            MAX_STEM_CHARS as nat
        },
        |i: int| cleaned_char(stem[i]),
    )
}

/// The name under which a submitted file is kept.
pub open spec fn safe_name(filename: Seq<char>) -> Seq<char> {
    let base = match file_name(filename) {
        Some(name) => name,
        None => "route.gpx"@,
    };
    let stem = cleaned(without_extension(base));
    if stem.len() == 0 || stem == seq!['.'] || stem == seq!['.', '.'] {
        "route"@ + ".gpx"@
    } else {
        stem + ".gpx"@
    }
}

fn is_dots(chars: &Vec<char>, from: usize, to: usize, count: usize) -> (b: bool)
    requires
        from <= to <= chars@.len(),
        1 <= count <= 2,
    ensures
        count == 1 ==> b == (chars@.subrange(from as int, to as int) == seq!['.']),
        count == 2 ==> b == (chars@.subrange(from as int, to as int) == seq!['.', '.']),
{
    let ghost part = chars@.subrange(from as int, to as int);
    if to - from != count {
        assert(part.len() != count);
        return false;
    }
    assert(part[0] == chars@[from as int]);
    if chars[from] != '.' {
        return false;
    }
    if count == 2 {
        assert(part[1] == chars@[from + 1]);
        if chars[from + 1] != '.' {
            return false;
        }
        assert(part =~= seq!['.', '.']);
    } else {
        assert(part =~= seq!['.']);
    }
    true
}

/// The last part of a path that names a file.
fn base_name(path: &str) -> (name: Option<String>)
    ensures
        match name {
            Some(s) => file_name(path@) == Some(s@),
            None => file_name(path@) is None,
        },
{
    let chars = chars_of(path);
    let mut end: usize = chars.len();
    assert(chars@.take(end as int) =~= path@);
    loop
        invariant
            chars@ == path@,
            end <= chars@.len(),
            file_name(path@) == file_name(chars@.take(end as int)),
        decreases end,
    {
        let ghost seen = chars@.take(end as int);
        let mut start: usize = end;
        assert(chars@.take(start as int) =~= seen);
        while start > 0 && chars[start - 1] != '/'
            invariant
                start <= end <= chars@.len(),
                seen == chars@.take(end as int),
                last_part_start(seen) == last_part_start(chars@.take(start as int)),
            decreases start,
        {
            assert(chars@.take(start as int).drop_last() =~= chars@.take(start - 1));
            assert(chars@.take(start as int).last() == chars@[start - 1]);
            start = start - 1;
        }
        assert(start > 0 ==> chars@.take(start as int).last() == chars@[start - 1]);
        assert(last_part_start(seen) == start);
        let ghost part = seen.subrange(start as int, seen.len() as int);
        assert(part =~= chars@.subrange(start as int, end as int));
        if start == end || is_dots(&chars, start, end, 1) {
            if start == 0 {
                return None;
            }
            assert(seen.take(start - 1) =~= chars@.take(start - 1));
            end = start - 1;
        } else if is_dots(&chars, start, end, 2) {
            return None;
        } else {
            return Some(text_of(&chars, start, end));
        }
    }
}

fn clean_char(c: char) -> (d: char)
    ensures
        d == cleaned_char(c),
{
    if ('a' <= c && c <= 'z') || ('A' <= c && c <= 'Z') || ('0' <= c && c <= '9') || c == '.' || c
        == '-' || c == '_' {
        c
    } else {
        '_'
    }
}

/// A name for a submitted file that is safe to create.
///
/// Only the last part of the path counts. Its `.gpx` extension is normalised, at
/// most 92 characters of the rest are kept, and every character other than
/// letters, digits, dots, hyphens and underscores becomes an underscore.
pub fn safe_filename(filename: &str) -> (name: String)
    ensures
        name@ == safe_name(filename@),
{
    let base: String = match base_name(filename) {
        Some(name) => name,
        None => "route.gpx".to_owned(),
    };
    let chars = chars_of(base.as_str());
    let extended = ends_with(lower(base.as_str()).as_str(), ".gpx");
    proof {
        reveal_strlit(".gpx");
        assert(".gpx"@.len() == 4);
    }
    let length: usize = if extended {
        chars.len() - 4
    } else {
        chars.len()
    };
    let ghost stem = without_extension(base@);
    assert(stem =~= chars@.take(length as int));
    let kept: usize = if length <= MAX_STEM_CHARS {
        length
    } else {
        MAX_STEM_CHARS
    };
    let mut clean: Vec<char> = Vec::new();
    let mut i: usize = 0;
    while i < kept
        invariant
            i <= kept <= length <= chars@.len(),
            kept == cleaned(stem).len(),
            stem == chars@.take(length as int),
            clean@ == cleaned(stem).take(i as int),
        decreases kept - i,
    {
        clean.push(clean_char(chars[i]));
        assert(clean@ =~= cleaned(stem).take(i + 1));
        i = i + 1;
    }
    assert(clean@ =~= cleaned(stem));
    assert(clean@.subrange(0, clean@.len() as int) =~= clean@);
    let mut name: String = if clean.len() == 0 || is_dots(&clean, 0, clean.len(), 1) || is_dots(
        &clean,
        0,
        clean.len(),
        2,
    ) {
        "route".to_owned()
    } else {
        text_of(&clean, 0, clean.len())
    };
    name.append(".gpx");
    name
}

/// The name of an archive holds only letters, digits, dots, hyphens and
/// underscores, ends in `.gpx` behind at least one and at most 92 characters, and
/// is no step to another directory.
pub proof fn safe_names_are_safe(filename: Seq<char>)
    ensures
        forall|i: int|
            0 <= i < safe_name(filename).len() ==> safe_char(#[trigger] safe_name(filename)[i]),
        has_suffix(safe_name(filename), ".gpx"@),
        5 <= safe_name(filename).len() <= MAX_STEM_CHARS + 4,
        file_name(safe_name(filename)) == Some(safe_name(filename)),
{
    reveal_strlit(".gpx");
    reveal_strlit("route");
    assert(".gpx"@.len() == 4);
    assert("route"@.len() == 5);
    let name = safe_name(filename);
    assert(has_suffix(name, ".gpx"@)) by {
        assert(name.subrange(name.len() - 4, name.len() as int) =~= ".gpx"@);
    }
    lemma_plain_name(name);
}

proof fn lemma_no_slash(path: Seq<char>)
    requires
        forall|i: int| 0 <= i < path.len() ==> path[i] != '/',
    ensures
        last_part_start(path) == 0,
    decreases path.len(),
{
    if path.len() > 0 {
        assert(path.last() == path[path.len() - 1]);
        lemma_no_slash(path.drop_last());
    }
}

proof fn lemma_plain_name(name: Seq<char>)
    requires
        forall|i: int| 0 <= i < name.len() ==> name[i] != '/',
        name.len() > 2,
    ensures
        file_name(name) == Some(name),
{
    lemma_no_slash(name);
    assert(name.subrange(0, name.len() as int) =~= name);
    assert(seq!['.'].len() == 1);
    assert(seq!['.', '.'].len() == 2);
}

/// A safe name is its own safe name.
pub proof fn safe_names_are_stable(filename: Seq<char>)
    ensures
        safe_name(safe_name(filename)) == safe_name(filename),
{
    reveal_strlit(".gpx");
    reveal_strlit("route");
    assert(".gpx"@.len() == 4);
    assert("route"@.len() == 5);
    let name = safe_name(filename);
    safe_names_are_safe(filename);
    assert(lowered(name).subrange(name.len() - 4, name.len() as int) =~= ".gpx"@);
    let stem = name.take(name.len() - 4);
    assert(without_extension(name) == stem);
    assert(cleaned(stem) =~= stem);
    let base = match file_name(filename) {
        Some(n) => n,
        None => "route.gpx"@,
    };
    let first = cleaned(without_extension(base));
    assert(stem =~= first || stem =~= "route"@);
    assert("route"@ != seq!['.']);
    assert("route"@ != seq!['.', '.']);
    assert(name =~= stem + ".gpx"@);
}

proof fn lemma_last_part_of(directory: Seq<char>, part: Seq<char>)
    requires
        forall|i: int| 0 <= i < part.len() ==> part[i] != '/',
    ensures
        last_part_start(directory.push('/') + part) == directory.len() + 1,
    decreases part.len(),
{
    let path = directory.push('/') + part;
    if part.len() == 0 {
        assert(path.last() == '/');
    } else {
        assert(path.last() == part[part.len() - 1]);
        assert(path.drop_last() =~= directory.push('/') + part.drop_last());
        lemma_last_part_of(directory, part.drop_last());
    }
}

/// A file is named by what stands behind the last slash; slashes and single dots behind
/// it do not count, and a path that ends in two dots names no file.
pub proof fn the_last_part_names_the_file(directory: Seq<char>, name: Seq<char>)
    requires
        forall|i: int| 0 <= i < name.len() ==> name[i] != '/',
        name.len() > 0,
    ensures
        name != seq!['.'] && name != seq!['.', '.'] ==> {
            &&& file_name(name) == Some(name)
            &&& file_name(directory.push('/') + name) == Some(name)
        },
        file_name(directory.push('/')) == file_name(directory),
        file_name(directory.push('/') + seq!['.']) == file_name(directory),
        file_name(directory.push('/') + seq!['.', '.']) is None,
        file_name(Seq::empty()) is None,
        file_name(seq!['.']) is None,
        file_name(seq!['.', '.']) is None,
{
    lemma_last_part_of(directory, name);
    lemma_last_part_of(directory, Seq::empty());
    lemma_last_part_of(directory, seq!['.']);
    lemma_last_part_of(directory, seq!['.', '.']);
    lemma_no_slash(name);
    let n = directory.len() as int + 1;
    let whole = directory.push('/') + name;
    assert(whole.subrange(n, whole.len() as int) =~= name);
    assert(name.subrange(0, name.len() as int) =~= name);
    let slash = directory.push('/');
    assert(directory.push('/') + Seq::empty() =~= slash);
    assert(slash.subrange(n, n) =~= Seq::empty());
    assert(slash.take(n - 1) =~= directory);
    let dot = directory.push('/') + seq!['.'];
    assert(dot.subrange(n, dot.len() as int) =~= seq!['.']);
    assert(dot.take(n - 1) =~= directory);
    let dots = directory.push('/') + seq!['.', '.'];
    assert(dots.subrange(n, dots.len() as int) =~= seq!['.', '.']);
    assert(seq!['.', '.'].len() == 2 && seq!['.'].len() == 1);
    lemma_no_slash(seq!['.']);
    lemma_no_slash(seq!['.', '.']);
    assert(seq!['.'].subrange(0, 1) =~= seq!['.']);
    assert(seq!['.', '.'].subrange(0, 2) =~= seq!['.', '.']);
}

/// A safe name keeps the first 92 characters of the file's name before its extension,
/// each one that is a letter or digit of ASCII, a dot, a hyphen or an underscore as it is
/// and an underscore for any other, and ends in `.gpx`; it is `route.gpx` where nothing
/// but dots would be left.
pub proof fn safe_names_keep_the_stem(filename: Seq<char>, name: Seq<char>, stem: Seq<char>)
    requires
        file_name(filename) == Some(name),
        name == stem && !has_suffix(lowered(name), ".gpx"@) || (name.len() == stem.len() + 4
            && name.take(stem.len() as int) == stem && has_suffix(lowered(name), ".gpx"@)),
    ensures
        ({
            let count: int = if stem.len() <= 92 {
                stem.len() as int
            } else {
                92
            };
            let safe = safe_name(filename);
            if stem.len() == 0 || stem == seq!['.'] || stem == seq!['.', '.'] {
                safe == "route.gpx"@
            } else {
                &&& safe.len() == count + 4
                &&& safe.skip(count) == ".gpx"@
                &&& forall|i: int|
                    0 <= i < count ==> {
                        let c = #[trigger] stem[i];
                        let kept = 'a' <= c <= 'z' || 'A' <= c <= 'Z' || '0' <= c <= '9' || c
                            == '.' || c == '-' || c == '_';
                        safe[i] == if kept {
                            c
                        } else {
                            '_'
                        }
                    }
            }
        }),
{
    reveal_strlit(".gpx");
    reveal_strlit("route");
    reveal_strlit("route.gpx");
    assert(without_extension(name) =~= stem);
    assert("route"@ + ".gpx"@ =~= "route.gpx"@);
    let clean = cleaned(stem);
    if stem.len() == 1 {
        assert(clean =~= seq!['.'] ==> stem =~= seq!['.']) by {
            if clean =~= seq!['.'] {
                assert(clean[0] == '.');
                assert(stem[0] == '.');
            }
        }
        assert(stem =~= seq!['.'] ==> clean =~= seq!['.']);
    }
    if stem.len() == 2 {
        assert(clean =~= seq!['.', '.'] ==> stem =~= seq!['.', '.']) by {
            if clean =~= seq!['.', '.'] {
                assert(clean[0] == '.' && clean[1] == '.');
            }
        }
        assert(stem =~= seq!['.', '.'] ==> clean =~= seq!['.', '.']);
    }
    if !(stem.len() == 0 || stem == seq!['.'] || stem == seq!['.', '.']) {
        assert(safe_name(filename).skip(clean.len() as int) =~= ".gpx"@);
    }
}

/// A submission without a file name is kept as `route.gpx`.
pub proof fn nameless_files_are_routes(filename: Seq<char>)
    requires
        file_name(filename) is None,
    ensures
        safe_name(filename) == "route.gpx"@,
{
    reveal_strlit(".gpx");
    reveal_strlit("route");
    reveal_strlit("route.gpx");
    let name = "route.gpx"@;
    assert(lowered(name).subrange(5, 9) =~= ".gpx"@);
    assert(without_extension(name) =~= "route"@);
    assert(cleaned("route"@) =~= "route"@);
    assert("route"@ + ".gpx"@ =~= "route.gpx"@);
    assert("route"@.len() == 5);
}

} // verus!
