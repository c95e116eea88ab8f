//! Text as a sequence of characters: comparing, trimming, and decimal numbers.

use vstd::prelude::*;

verus! {

/// `String::push` appends one character and changes nothing else.
pub assume_specification[ String::push ](s: &mut String, c: char)
    ensures
        final(s)@ == old(s)@.push(c),
;

/// Two texts with the same UTF-8 encoding are the same text.
proof fn lemma_same_encoding(a: Seq<char>, b: Seq<char>)
    requires
        vstd::utf8::encode_utf8(a) == vstd::utf8::encode_utf8(b),
    ensures
        a == b,
{
    vstd::utf8::encode_utf8_decode_utf8(a);
    vstd::utf8::encode_utf8_decode_utf8(b);
}

/// Whether two texts are equal, character by character.
pub fn same_text(a: &str, b: &str) -> (same: bool)
    ensures
        same == (a@ == b@),
{
    let left = a.as_bytes();
    let right = b.as_bytes();
    if left.len() != right.len() {
        return false;
    }
    let mut i: usize = 0;
    while i < left.len()
        invariant
            i <= left@.len(),
            left@.len() == right@.len(),
            left@ == vstd::utf8::encode_utf8(a@),
            right@ == vstd::utf8::encode_utf8(b@),
            forall|j: int| 0 <= j < i ==> left@[j] == right@[j],
        decreases left@.len() - i,
    {
        if left[i] != right[i] {
            return false;
        }
        i = i + 1;
    }
    proof {
        assert(left@ =~= right@);
        lemma_same_encoding(a@, b@);
    }
    true
}

/// A copy of an optional text.
pub fn copy_text(text: &Option<String>) -> (copy: Option<String>)
    ensures
        copy == *text,
{
    match text {
        Some(t) => Some(t.clone()),
        None => None,
    }
}

/// The characters of a text, in order.
pub fn chars_of(s: &str) -> (chars: Vec<char>)
    ensures
        chars@ == s@,
{
    let mut chars: Vec<char> = Vec::new();
    for c in it: s.chars()
        invariant
            chars@ == s@.take(it.index() as int),
            it.seq() == s@,
    {
        chars.push(c);
    }
    chars
}

/// The text made of `chars[from..to]`.
pub fn text_of(chars: &Vec<char>, from: usize, to: usize) -> (s: String)
    requires
        from <= to <= chars@.len(),
    ensures
        s@ == chars@.subrange(from as int, to as int),
{
    let mut s = String::new();
    let mut i: usize = from;
    while i < to
        invariant
            from <= i <= to <= chars@.len(),
            s@ == chars@.subrange(from as int, i as int),
        decreases to - i,
    {
        s.push(chars[i]);
        i = i + 1;
        assert(chars@.subrange(from as int, i as int) =~= chars@.subrange(
            from as int,
            i - 1,
        ).push(chars@[i - 1]));
    }
    s
}

/// The Unicode `White_Space` property.
pub open spec fn white_space(c: char) -> bool {
    let u = c as u32;
    ||| 0x9 <= u <= 0xd
    ||| u == 0x20
    ||| u == 0x85
    ||| u == 0xa0
    ||| u == 0x1680
    ||| 0x2000 <= u <= 0x200a
    ||| u == 0x2028
    ||| u == 0x2029
    ||| u == 0x202f
    ||| u == 0x205f
    ||| u == 0x3000
}

/// Whether `c` has the Unicode `White_Space` property.
pub fn is_white_space(c: char) -> (b: bool)
    ensures
        b == white_space(c),
{
    let u = c as u32;
    (0x9 <= u && u <= 0xd) || u == 0x20 || u == 0x85 || u == 0xa0 || u == 0x1680 || (0x2000 <= u
        && u <= 0x200a) || u == 0x2028 || u == 0x2029 || u == 0x202f || u == 0x205f || u == 0x3000
}

/// `s` without its leading white space.
pub open spec fn trimmed_start(s: Seq<char>) -> Seq<char>
    decreases s.len(),
{
    if s.len() > 0 && white_space(s[0]) {
        trimmed_start(s.drop_first())
    } else {
        s
    }
}

/// `s` without its trailing white space.
pub open spec fn trimmed_end(s: Seq<char>) -> Seq<char>
    decreases s.len(),
{
    if s.len() > 0 && white_space(s.last()) {
        trimmed_end(s.drop_last())
    } else {
        s
    }
}

/// `s` without its leading and trailing white space.
pub open spec fn trimmed(s: Seq<char>) -> Seq<char> {
    trimmed_end(trimmed_start(s))
}

/// The text without leading and trailing white space.
pub fn trim(s: &str) -> (t: String)
    ensures
        t@ == trimmed(s@),
{
    let chars = chars_of(s);
    let mut from: usize = 0;
    assert(chars@.subrange(0, chars@.len() as int) =~= s@);
    while from < chars.len() && is_white_space(chars[from])
        invariant
            from <= chars@.len(),
            trimmed_start(s@) == trimmed_start(chars@.subrange(from as int, chars@.len() as int)),
        decreases chars@.len() - from,
    {
        assert(chars@.subrange(from as int, chars@.len() as int).drop_first() =~= chars@.subrange(
            from + 1,
            chars@.len() as int,
        ));
        from = from + 1;
    }
    let mut to: usize = chars.len();
    while from < to && is_white_space(chars[to - 1])
        invariant
            from <= to <= chars@.len(),
            trimmed(s@) == trimmed_end(chars@.subrange(from as int, to as int)),
        decreases to - from,
    {
        assert(chars@.subrange(from as int, to as int).drop_last() =~= chars@.subrange(
            from as int,
            to - 1,
        ));
        to = to - 1;
    }
    text_of(&chars, from, to)
}

/// `c` with the letters `A` to `Z` in lower case.
pub open spec fn ascii_lower(c: char) -> char {
    if 'A' <= c <= 'Z' {
        (c as u32 + 32) as char
    } else {
        c
    }
}

/// `s` with the letters `A` to `Z` in lower case.
pub open spec fn lowered(s: Seq<char>) -> Seq<char> {
    s.map_values(|c: char| ascii_lower(c))
}

/// `c` with the letters `A` to `Z` in lower case.
pub fn lower_char(c: char) -> (l: char)
    ensures
        l == ascii_lower(c),
{
    if 'A' <= c && c <= 'Z' {
        ((c as u8) + 32) as char
    } else {
        c
    }
}

/// The text with the letters `A` to `Z` in lower case.
pub fn lower(s: &str) -> (l: String)
    ensures
        l@ == lowered(s@),
{
    let mut l = String::new();
    for c in it: s.chars()
        invariant
            l@ == lowered(s@.take(it.index() as int)),
            it.seq() == s@,
    {
        l.push(lower_char(c));
        assert(lowered(s@.take(it.index() + 1)) =~= lowered(s@.take(it.index() as int)).push(
            ascii_lower(c),
        ));
    }
    assert(s@.take(s@.len() as int) =~= s@);
    l
}

/// Whether `s` ends with `suffix`.
pub open spec fn has_suffix(s: Seq<char>, suffix: Seq<char>) -> bool {
    s.len() >= suffix.len() && s.subrange(s.len() - suffix.len(), s.len() as int) == suffix
}

/// Whether `a` stands before `b` in the order of the first character that differs.
pub open spec fn text_before(a: Seq<char>, b: Seq<char>) -> bool
    decreases a.len(),
{
    if b.len() == 0 {
        false
    } else if a.len() == 0 {
        true
    } else if a[0] != b[0] {
        a[0] < b[0]
    } else {
        text_before(a.drop_first(), b.drop_first())
    }
}

/// Whether `a` stands before `b` in the order of the first character that differs.
pub fn precedes_text(a: &str, b: &str) -> (before: bool)
    ensures
        before == text_before(a@, b@),
{
    let left = chars_of(a);
    let right = chars_of(b);
    let mut i: usize = 0;
    assert(left@.skip(0) =~= left@ && right@.skip(0) =~= right@);
    while i < left.len() && i < right.len()
        invariant
            i <= left@.len() && i <= right@.len(),
            left@ == a@ && right@ == b@,
            text_before(left@, right@) == text_before(left@.skip(i as int), right@.skip(i as int)),
        decreases left@.len() - i,
    {
        if left[i] != right[i] {
            return left[i] < right[i];
        }
        assert(left@.skip(i as int).drop_first() =~= left@.skip(i + 1));
        assert(right@.skip(i as int).drop_first() =~= right@.skip(i + 1));
        i = i + 1;
    }
    i < right.len()
}

/// Whether `s` begins with `prefix`.
pub open spec fn has_prefix(s: Seq<char>, prefix: Seq<char>) -> bool {
    s.len() >= prefix.len() && s.subrange(0, prefix.len() as int) == prefix
}

/// Whether the text ends with `suffix`.
pub fn ends_with(s: &str, suffix: &str) -> (b: bool)
    ensures
        b == has_suffix(s@, suffix@),
{
    let a = chars_of(s);
    let e = chars_of(suffix);
    if a.len() < e.len() {
        return false;
    }
    let offset: usize = a.len() - e.len();
    let mut i: usize = 0;
    while i < e.len()
        invariant
            i <= e@.len(),
            a@ == s@,
            e@ == suffix@,
            offset + e@.len() == a@.len() <= usize::MAX,
            forall|j: int| 0 <= j < i ==> a@[offset + j] == e@[j],
        decreases e@.len() - i,
    {
        if a[offset + i] != e[i] {
            assert(a@.subrange(offset as int, a@.len() as int)[i as int] != e@[i as int]);
            return false;
        }
        i = i + 1;
    }
    assert(a@.subrange(offset as int, a@.len() as int) =~= e@);
    true
}

/// Whether the text begins with `prefix`.
pub fn starts_with(s: &str, prefix: &str) -> (b: bool)
    ensures
        b == has_prefix(s@, prefix@),
{
    let a = chars_of(s);
    let p = chars_of(prefix);
    if a.len() < p.len() {
        return false;
    }
    let mut i: usize = 0;
    while i < p.len()
        invariant
            i <= p@.len() <= a@.len(),
            a@ == s@,
            p@ == prefix@,
            forall|j: int| 0 <= j < i ==> a@[j] == p@[j],
        decreases p@.len() - i,
    {
        if a[i] != p[i] {
            assert(a@.subrange(0, p@.len() as int)[i as int] != p@[i as int]);
            return false;
        }
        i = i + 1;
    }
    assert(a@.subrange(0, p@.len() as int) =~= p@);
    true
}

/// The character that writes the digit `d`.
pub open spec fn digit_char(d: nat) -> char {
    ('0' as u32 + d) as char
}

/// The decimal writing of `n`, without leading zeros.
pub open spec fn decimal(n: nat) -> Seq<char>
    decreases n,
{
    if n < 10 {
        seq![digit_char(n)]
    } else {
        decimal(n / 10).push(digit_char(n % 10))
    }
}

/// `s` filled up with `0` on the left to at least `width` characters.
pub open spec fn zero_padded(s: Seq<char>, width: nat) -> Seq<char> {
    if s.len() >= width {
        s
    } else {
        Seq::new((width - s.len()) as nat, |i: int| '0') + s
    }
}

fn write_digit(d: u64) -> (c: char)
    requires
        d < 10,
    ensures
        c == digit_char(d as nat),
{
    (48 + d as u8) as char
}

/// Appends the decimal writing of `n`.
pub fn push_decimal(s: &mut String, n: u64)
    ensures
        final(s)@ == old(s)@ + decimal(n as nat),
    decreases n,
{
    if n >= 10 {
        push_decimal(s, n / 10);
    }
    s.push(write_digit(n % 10));
    assert(s@ =~= old(s)@ + decimal(n as nat));
}

/// Appends the decimal writing of `n`, filled up with `0` to at least `width` characters.
pub fn push_padded(s: &mut String, n: u64, width: usize)
    ensures
        final(s)@ == old(s)@ + zero_padded(decimal(n as nat), width as nat),
{
    let mut digits = String::new();
    push_decimal(&mut digits, n);
    let mut written: usize = chars_of(&digits).len();
    let ghost start = s@;
    let ghost len = written;
    assert(digits@ =~= decimal(n as nat));
    assert(s@ =~= start + Seq::new(0, |i: int| '0'));
    while written < width
        invariant
            len <= written,
            written <= width || written == len,
            s@ == start + Seq::new((written - len) as nat, |i: int| '0'),
        decreases width - written,
    {
        s.push('0');
        written = written + 1;
        assert(s@ =~= start + Seq::new((written - len) as nat, |i: int| '0'));
    }
    s.append(digits.as_str());
    assert(s@ =~= start + zero_padded(decimal(n as nat), width as nat));
}

/// Whether `c` is one of `0` to `9`.
pub open spec fn is_digit(c: char) -> bool {
    '0' <= c <= '9'
}

/// Whether `s` is a non-empty run of digits.
pub open spec fn all_digits(s: Seq<char>) -> bool {
    s.len() > 0 && forall|i: int| 0 <= i < s.len() ==> is_digit(#[trigger] s[i])
}

/// The number that the digits `s` write.
pub open spec fn digits_value(s: Seq<char>) -> nat
    decreases s.len(),
{
    if s.len() == 0 {
        0
    } else {
        digits_value(s.drop_last()) * 10 + (s.last() as nat - '0' as nat) as nat
    }
}

/// The number that `s` writes: an optional sign, then digits. A minus sign is
/// taken only where `signed` holds.
pub open spec fn written_number(s: Seq<char>, signed: bool) -> Option<int> {
    if s.len() > 0 && s[0] == '+' {
        if all_digits(s.drop_first()) {
            Some(digits_value(s.drop_first()) as int)
        } else {
            None
        }
    } else if signed && s.len() > 0 && s[0] == '-' {
        if all_digits(s.drop_first()) {
            Some(-(digits_value(s.drop_first()) as int))
        } else {
            None
        }
    } else if all_digits(s) {
        Some(digits_value(s) as int)
    } else {
        None
    }
}

/// The number that `s` writes, where it lies between `low` and `high`.
pub open spec fn number_within(s: Seq<char>, signed: bool, low: int, high: int) -> Option<int> {
    match written_number(s, signed) {
        Some(n) => if low <= n <= high {
            Some(n)
        } else {
            None
        },
        None => None,
    }
}

proof fn lemma_digits_value_prefix(s: Seq<char>, k: int)
    requires
        0 <= k <= s.len(),
        all_digits(s),
    ensures
        digits_value(s.take(k)) <= digits_value(s),
    decreases s.len() - k,
{
    if k < s.len() {
        lemma_digits_value_prefix(s, k + 1);
        assert(s.take(k + 1).drop_last() =~= s.take(k));
    } else {
        assert(s.take(k) =~= s);
    }
}

/// The value of `chars[from..]`, where it is a run of digits no larger than `limit`.
fn read_digits(chars: &Vec<char>, from: usize, limit: u64) -> (value: Option<u64>)
    requires
        from <= chars@.len(),
    ensures
        ({
            let digits = chars@.subrange(from as int, chars@.len() as int);
            match value {
                Some(n) => all_digits(digits) && digits_value(digits) == n && n <= limit,
                None => !all_digits(digits) || digits_value(digits) > limit,
            }
        }),
{
    let ghost digits = chars@.subrange(from as int, chars@.len() as int);
    if from == chars.len() {
        return None;
    }
    let mut bad: bool = false;
    let mut i: usize = from;
    while i < chars.len()
        invariant
            from <= i <= chars@.len(),
            digits == chars@.subrange(from as int, chars@.len() as int),
            bad ==> !all_digits(digits),
            !bad ==> forall|j: int| 0 <= j < i - from ==> is_digit(#[trigger] digits[j]),
        decreases chars@.len() - i,
    {
        let c = chars[i];
        assert(digits[i - from] == c);
        if !('0' <= c && c <= '9') {
            bad = true;
        }
        i = i + 1;
    }
    if bad {
        return None;
    }
    let mut total: u64 = 0;
    let mut k: usize = from;
    while k < chars.len()
        invariant
            from <= k <= chars@.len(),
            digits == chars@.subrange(from as int, chars@.len() as int),
            all_digits(digits),
            total == digits_value(digits.take(k - from)),
            total <= limit,
        decreases chars@.len() - k,
    {
        let c = chars[k];
        assert(digits[k - from] == c);
        assert(is_digit(digits[k - from]));
        let d: u64 = (c as u32 - 48) as u64;
        proof {
            assert(digits.take(k - from + 1).drop_last() =~= digits.take(k - from));
            lemma_digits_value_prefix(digits, k - from + 1);
        }
        if total > limit / 10 {
            return None;
        }
        if total * 10 > limit || d > limit - total * 10 {
            return None;
        }
        total = total * 10 + d;
        k = k + 1;
    }
    assert(digits.take(digits.len() as int) =~= digits);
    Some(total)
}

/// Reads an unsigned number no larger than `limit`: an optional `+`, then digits.
pub fn read_unsigned(s: &str, limit: u64) -> (n: Option<u64>)
    ensures
        match n {
            Some(v) => number_within(s@, false, 0, limit as int) == Some(v as int),
            None => number_within(s@, false, 0, limit as int) is None,
        },
{
    let chars = chars_of(s);
    assert(chars@.subrange(0, chars@.len() as int) =~= s@);
    if chars.len() > 0 && chars[0] == '+' {
        assert(chars@.subrange(1, chars@.len() as int) =~= s@.drop_first());
        return read_digits(&chars, 1, limit);
    }
    read_digits(&chars, 0, limit)
}

/// Reads a signed 64-bit number: an optional `+` or `-`, then digits.
pub fn read_signed(s: &str) -> (n: Option<i64>)
    ensures
        match n {
            Some(v) => number_within(s@, true, i64::MIN as int, i64::MAX as int) == Some(v as int),
            None => number_within(s@, true, i64::MIN as int, i64::MAX as int) is None,
        },
{
    let chars = chars_of(s);
    assert(chars@.subrange(0, chars@.len() as int) =~= s@);
    if chars.len() > 0 && (chars[0] == '+' || chars[0] == '-') {
        assert(chars@.subrange(1, chars@.len() as int) =~= s@.drop_first());
    }
    if chars.len() > 0 && chars[0] == '-' {
        return match read_digits(&chars, 1, 0x8000_0000_0000_0000) {
            Some(v) => if v == 0x8000_0000_0000_0000 {
                Some(i64::MIN)
            } else {
                Some(-(v as i64))
            },
            None => None,
        };
    }
    let from: usize = if chars.len() > 0 && chars[0] == '+' {
        1
    } else {
        0
    };
    match read_digits(&chars, from, 0x7fff_ffff_ffff_ffff) {
        Some(v) => Some(v as i64),
        None => None,
    }
}

/// A decimal number consists of digits that have its value.
pub proof fn lemma_decimal_digits(n: nat)
    ensures
        all_digits(decimal(n)),
        digits_value(decimal(n)) == n,
    decreases n,
{
    if n < 10 {
        assert(decimal(n).drop_last() =~= Seq::<char>::empty());
        assert(digits_value(Seq::<char>::empty()) == 0);
    } else {
        lemma_decimal_digits(n / 10);
        assert(decimal(n).drop_last() =~= decimal(n / 10));
    }
}

/// Reading back what was written in decimal gives the number again.
pub proof fn decimal_reads_back(n: nat, signed: bool)
    ensures
        written_number(decimal(n), signed) == Some(n as int),
{
    lemma_decimal_digits(n);
    assert(is_digit(decimal(n)[0]));
}

/// Different numbers are written differently.
pub proof fn decimal_is_injective(m: nat, n: nat)
    requires
        decimal(m) == decimal(n),
    ensures
        m == n,
{
    lemma_decimal_digits(m);
    lemma_decimal_digits(n);
}

/// The white space characters are the 25 of the Unicode property.
pub proof fn white_space_is_listed(c: char)
    ensures
        white_space(c) <==> seq![
            0x9u32, 0xa, 0xb, 0xc, 0xd, 0x20, 0x85, 0xa0, 0x1680, 0x2000, 0x2001, 0x2002, 0x2003,
            0x2004, 0x2005, 0x2006, 0x2007, 0x2008, 0x2009, 0x200a, 0x2028, 0x2029, 0x202f, 0x205f,
            0x3000,
        ].contains(c as u32),
{
    let listed = seq![
        0x9u32, 0xa, 0xb, 0xc, 0xd, 0x20, 0x85, 0xa0, 0x1680, 0x2000, 0x2001, 0x2002, 0x2003,
        0x2004, 0x2005, 0x2006, 0x2007, 0x2008, 0x2009, 0x200a, 0x2028, 0x2029, 0x202f, 0x205f,
        0x3000,
    ];
    let u = c as u32;
    if white_space(c) {
        let i: int = if 0x9 <= u <= 0xd {
            u - 0x9
        } else if u == 0x20 {
            5
        } else if u == 0x85 {
            6
        } else if u == 0xa0 {
            7
        } else if u == 0x1680 {
            8
        } else if 0x2000 <= u <= 0x200a {
            9 + u - 0x2000
        } else if u == 0x2028 {
            20
        } else if u == 0x2029 {
            21
        } else if u == 0x202f {
            22
        } else if u == 0x205f {
            23
        } else {
            24
        };
        assert(listed[i] == u);
    }
}

proof fn lemma_trimmed_start(s: Seq<char>) -> (a: int)
    ensures
        0 <= a <= s.len(),
        trimmed_start(s) == s.subrange(a, s.len() as int),
        forall|i: int| 0 <= i < a ==> white_space(#[trigger] s[i]),
        a < s.len() ==> !white_space(s[a]),
    decreases s.len(),
{
    if s.len() > 0 && white_space(s[0]) {
        let rest = s.drop_first();
        let b = lemma_trimmed_start(rest);
        assert(rest.subrange(b, rest.len() as int) =~= s.subrange(b + 1, s.len() as int));
        assert forall|i: int| 0 <= i < b + 1 implies white_space(#[trigger] s[i]) by {
            if i > 0 {
                assert(rest[i - 1] == s[i]);
            }
        }
        b + 1
    } else {
        assert(s.subrange(0, s.len() as int) =~= s);
        0
    }
}

proof fn lemma_trimmed_end(s: Seq<char>) -> (b: int)
    ensures
        0 <= b <= s.len(),
        trimmed_end(s) == s.subrange(0, b),
        forall|i: int| b <= i < s.len() ==> white_space(#[trigger] s[i]),
        b > 0 ==> !white_space(s[b - 1]),
    decreases s.len(),
{
    if s.len() > 0 && white_space(s.last()) {
        let rest = s.drop_last();
        let b = lemma_trimmed_end(rest);
        assert(rest.subrange(0, b) =~= s.subrange(0, b));
        assert forall|i: int| b <= i < s.len() implies white_space(#[trigger] s[i]) by {
            if i < rest.len() {
                assert(rest[i] == s[i]);
            }
        }
        b
    } else {
        assert(s.subrange(0, s.len() as int) =~= s);
        s.len() as int
    }
}

/// Trimming takes away white space at both ends, all of it and nothing else.
pub proof fn trimming_takes_just_the_ends(s: Seq<char>)
    ensures
        exists|a: int, b: int|
            {
                &&& 0 <= a <= b <= s.len()
                &&& trimmed(s) == #[trigger] s.subrange(a, b)
                &&& forall|i: int| 0 <= i < a ==> white_space(#[trigger] s[i])
                &&& forall|i: int| b <= i < s.len() ==> white_space(#[trigger] s[i])
            },
        trimmed(s).len() > 0 ==> !white_space(trimmed(s)[0]) && !white_space(trimmed(s).last()),
        trimmed(s).len() == 0 <==> forall|i: int| 0 <= i < s.len() ==> white_space(#[trigger] s[i]),
{
    let a = lemma_trimmed_start(s);
    let rest = s.subrange(a, s.len() as int);
    let c = lemma_trimmed_end(rest);
    assert(rest.subrange(0, c) =~= s.subrange(a, a + c));
    assert forall|i: int| a + c <= i < s.len() implies white_space(#[trigger] s[i]) by {
        assert(rest[i - a] == s[i]);
    }
    if trimmed(s).len() > 0 {
        assert(rest[c - 1] == trimmed(s).last());
        assert(s[a] == trimmed(s)[0]);
    } else {
        assert(c == 0);
        assert forall|i: int| 0 <= i < s.len() implies white_space(#[trigger] s[i]) by {
            if i >= a {
                assert(rest[i - a] == s[i]);
            }
        }
    }
}

/// What is trimmed stays as it is when trimmed again.
pub proof fn trimming_is_idempotent(s: Seq<char>)
    ensures
        trimmed(trimmed(s)) == trimmed(s),
{
    trimming_takes_just_the_ends(s);
}

/// Lower case changes just the 26 letters `A` to `Z`, each to the letter of its kind, and
/// keeps every other character in its place.
pub proof fn lower_case_changes_just_capitals(s: Seq<char>, i: int)
    requires
        0 <= i < s.len(),
    ensures
        lowered(s).len() == s.len(),
        0x41 <= s[i] as u32 <= 0x5a ==> lowered(s)[i] as u32 == s[i] as u32 + 0x20,
        !(0x41 <= s[i] as u32 <= 0x5a) ==> lowered(s)[i] == s[i],
        lowered(lowered(s)) == lowered(s),
{
    assert(lowered(lowered(s)) =~= lowered(s)) by {
        assert forall|k: int| 0 <= k < s.len() implies lowered(lowered(s))[k] == lowered(s)[k] by {
            let c = s[k];
        }
    }
}

/// A text begins with a prefix, or ends with a suffix, exactly where it is that followed,
/// or preceded, by something.
pub proof fn prefixes_and_suffixes_are_parts(s: Seq<char>, part: Seq<char>)
    ensures
        has_prefix(s, part) <==> exists|rest: Seq<char>| s == #[trigger] (part + rest),
        has_suffix(s, part) <==> exists|rest: Seq<char>| s == #[trigger] (rest + part),
{
    if has_prefix(s, part) {
        assert(s =~= part + s.skip(part.len() as int));
    }
    if exists|rest: Seq<char>| s == #[trigger] (part + rest) {
        assert(s.subrange(0, part.len() as int) =~= part);
    }
    if has_suffix(s, part) {
        assert(s =~= s.take(s.len() - part.len()) + part);
    }
    if exists|rest: Seq<char>| s == #[trigger] (rest + part) {
        assert(s.subrange(s.len() - part.len(), s.len() as int) =~= part);
    }
}

/// The first difference decides which of two texts comes first; a text that goes on
/// comes after one that ends.
pub proof fn the_first_difference_orders_texts(common: Seq<char>, a: Seq<char>, b: Seq<char>)
    ensures
        text_before(common + a, common + b) == text_before(a, b),
        !text_before(common, common),
        a.len() > 0 ==> text_before(common, common + a) && !text_before(common + a, common),
        a.len() > 0 && b.len() > 0 && a[0] < b[0] ==> text_before(
            common + a,
            common + b,
        ) && !text_before(common + b, common + a),
    decreases common.len(),
{
    if common.len() > 0 {
        let rest = common.drop_first();
        the_first_difference_orders_texts(rest, a, b);
        assert((common + a).drop_first() =~= rest + a);
        assert((common + b).drop_first() =~= rest + b);
    } else {
        assert(common + a =~= a);
        assert(common + b =~= b);
    }
}

/// The digits are written `0` to `9`, one more digit counts ten times what stands before
/// it, and no digits count nothing.
pub proof fn digits_count_tenfold(s: Seq<char>, d: nat)
    requires
        d < 10,
    ensures
        seq!['0', '1', '2', '3', '4', '5', '6', '7', '8', '9'][d as int] == digit_char(d),
        digits_value(Seq::empty()) == 0,
        digits_value(s.push(digit_char(d))) == 10 * digits_value(s) + d,
{
    assert(s.push(digit_char(d)).drop_last() =~= s);
}

/// A number is written without zeros at its front.
pub proof fn decimals_have_no_leading_zeros(n: nat)
    ensures
        decimal(n).len() >= 1,
        decimal(n).len() > 1 <==> n >= 10,
        decimal(n).len() > 1 ==> decimal(n)[0] != '0',
        n == 0 ==> decimal(n) == seq!['0'],
    decreases n,
{
    if n >= 10 {
        decimals_have_no_leading_zeros(n / 10);
        assert(decimal(n)[0] == decimal(n / 10)[0]);
        if n / 10 < 10 {
            assert(decimal(n / 10)[0] == digit_char(n / 10));
        }
    }
}

/// Padding puts zeros before a text, as many as it lacks to the width and none where it
/// lacks none.
pub proof fn padding_fills_with_zeros(s: Seq<char>, width: nat)
    ensures
        zero_padded(s, width).len() == if s.len() < width {
            width
        } else {
            s.len()
        },
        has_suffix(zero_padded(s, width), s),
        forall|i: int|
            0 <= i < zero_padded(s, width).len() - s.len() ==> (#[trigger] zero_padded(s, width)[i])
                == '0',
{
    let padded = zero_padded(s, width);
    assert(padded.subrange(padded.len() - s.len(), padded.len() as int) =~= s);
}

/// Digits are read as the number they write, with a plus sign or without; a minus sign
/// makes it negative where signs are taken, and it is no number otherwise.
pub proof fn signs_are_read(digits: Seq<char>)
    requires
        digits.len() > 0,
        forall|i: int| 0 <= i < digits.len() ==> '0' <= #[trigger] digits[i] <= '9',
    ensures
        written_number(digits, false) == Some(digits_value(digits) as int),
        written_number(digits, true) == Some(digits_value(digits) as int),
        written_number(seq!['+'] + digits, false) == Some(digits_value(digits) as int),
        written_number(seq!['+'] + digits, true) == Some(digits_value(digits) as int),
        written_number(seq!['-'] + digits, true) == Some(-(digits_value(digits) as int)),
        written_number(seq!['-'] + digits, false) is None,
{
    assert((seq!['+'] + digits).drop_first() =~= digits);
    assert((seq!['-'] + digits).drop_first() =~= digits);
    assert('0' <= digits[0] <= '9');
    assert(forall|i: int| 0 <= i < digits.len() ==> is_digit(#[trigger] digits[i]));
    assert(!is_digit((seq!['-'] + digits)[0]));
}

/// What holds anything but digits after its sign, or no digit at all, is no number.
pub proof fn other_texts_are_no_numbers(s: Seq<char>, signed: bool, i: int)
    ensures
        s.len() == 0 ==> written_number(s, signed) is None,
        s.len() == 1 && (s[0] == '+' || s[0] == '-') ==> written_number(s, signed) is None,
        0 <= i < s.len() && !('0' <= s[i] <= '9') && (i > 0 || (s[i] != '+' && s[i] != '-'))
            ==> written_number(s, signed) is None,
{
    if 0 <= i < s.len() && !('0' <= s[i] <= '9') {
        assert(!is_digit(s[i]));
        if i > 0 {
            assert(s.drop_first()[i - 1] == s[i]);
        }
    }
    if s.len() == 1 {
        assert(s.drop_first().len() == 0);
        assert(s[0] == '+' || s[0] == '-' ==> !is_digit(s[0]));
    }
}

/// A number is taken exactly where it lies between both bounds.
pub proof fn bounds_are_kept(s: Seq<char>, signed: bool, low: int, high: int)
    ensures
        number_within(s, signed, low, high) is Some <==> {
            &&& written_number(s, signed) is Some
            &&& low <= written_number(s, signed)->0 <= high
        },
        number_within(s, signed, low, high) is Some ==> number_within(s, signed, low, high)
            == written_number(s, signed),
{
}

} // verus!
