//! Times that universal time has no date for.
//!
//! The GPX reader moves every time of a document to universal time. The calendar of
//! the `time` crate runs from the year -9999 to the year 9999, and the reader panics
//! on a time that the move takes out of it, such as `9999-12-31T23:59:59-01:00`. This
//! module goes through a document as the reader does and finds such times.

use vstd::prelude::*;

use crate::text::same_text;

verus! {

/// What stands in a document.
#[derive(Clone, Copy, Debug, PartialEq, Eq, Structural)]
pub enum XmlKind {
    /// An element begins.
    Start,
    /// An element ends.
    End,
    /// Text.
    Text,
    /// Anything else.
    Other,
    /// A defect, behind which nothing is read.
    Failed,
}

/// A part of a document: what stands there, and the local name of the element or the
/// text.
#[derive(Debug)]
pub struct XmlPart {
    pub kind: XmlKind,
    pub text: String,
}

/// The parts of a document with their texts.
pub open spec fn parts_view(parts: Seq<XmlPart>) -> Seq<(XmlKind, Seq<char>)> {
    parts.map_values(|part: XmlPart| (part.kind, part.text@))
}

/// The parts that `xml::EventReader` finds in a document.
pub uninterp spec fn document_parts(bytes: Seq<u8>) -> Seq<(XmlKind, Seq<char>)>;

/// Calls `xml::EventReader` on a document, up to its end or its first defect.
///
/// White space and character data sections are given as text, and comments are left
/// out, as `gpx::read` has them. The parts are a function of the bytes alone. Which
/// they are is left unsaid.
#[verifier::external_body]
fn read_parts(bytes: &[u8]) -> (parts: Vec<XmlPart>)
    ensures
        parts_view(parts@) == document_parts(bytes@),
{
    let part = |kind: XmlKind, text: String| XmlPart { kind, text };
    let config = xml::ParserConfig::new().whitespace_to_characters(true).cdata_to_characters(true);
    let events = xml::EventReader::new_with_config(bytes, config).into_iter();
    let convert = |event| match event {
        Ok(xml::reader::XmlEvent::StartElement { name, .. }) => part(XmlKind::Start, name.local_name),
        Ok(xml::reader::XmlEvent::EndElement { name }) => part(XmlKind::End, name.local_name),
        Ok(xml::reader::XmlEvent::Characters(text)) => part(XmlKind::Text, text),
        Ok(_) => part(XmlKind::Other, String::new()),
        Err(_) => part(XmlKind::Failed, String::new()),
    };
    events.map(convert).collect()
}

/// A local time and its offset from universal time.
#[derive(Clone, Copy, Debug, PartialEq, Eq, Structural)]
pub struct OffsetTime {
    pub year: i32,
    /// The day of the year, from 1 on.
    pub day: u16,
    pub hour: u8,
    pub minute: u8,
    pub second: u8,
    pub offset_seconds: i32,
}

/// The time that `time::OffsetDateTime::parse` reads under `Iso8601::PARSING`.
pub uninterp spec fn iso8601_time(text: Seq<char>) -> Option<OffsetTime>;

/// Calls `time::OffsetDateTime::parse` with `Iso8601::PARSING`.
///
/// The result is a function of the text alone. Which texts are read as which times is
/// left unsaid.
#[verifier::external_body]
fn read_iso8601(text: &str) -> (time: Option<OffsetTime>)
    ensures
        time == iso8601_time(text@),
{
    let format = ::time::format_description::well_known::Iso8601::PARSING;
    let time = ::time::OffsetDateTime::parse(text, &format).ok()?;
    Some(
        OffsetTime {
            year: time.year(),
            day: time.ordinal(),
            hour: time.hour(),
            minute: time.minute(),
            second: time.second(),
            offset_seconds: time.offset().whole_seconds(),
        },
    )
}

impl OffsetTime {
    /// The seconds from the beginning of the local year to the time in universal time.
    pub open spec fn second_of_year(self) -> int {
        (self.day - 1) * 86_400 + self.hour * 3_600 + self.minute * 60 + self.second
            - self.offset_seconds
    }

    /// Whether universal time has no date for the time: it lies before the beginning of
    /// the year -9999 or behind the end of the year 9999, which has 365 days.
    pub open spec fn out_of_calendar(self) -> bool {
        ||| self.year < -9999
        ||| self.year == -9999 && self.second_of_year() < 0
        ||| self.year == 9999 && self.second_of_year() >= 365 * 86_400
        ||| self.year > 9999
    }

    /// Whether universal time has no date for the time.
    pub fn leaves_calendar(self) -> (b: bool)
        ensures
            b == self.out_of_calendar(),
    {
        let second: i64 = (self.day as i64 - 1) * 86_400 + self.hour as i64 * 3_600
            + self.minute as i64 * 60 + self.second as i64 - self.offset_seconds as i64;
        self.year < -9999 || (self.year == -9999 && second < 0) || (self.year == 9999 && second
            >= 365 * 86_400) || self.year > 9999
    }
}

/// An element of text that is being read.
pub struct OpenElement {
    /// Whether it is a time.
    pub time: bool,
    /// The text that was read last.
    pub text: Seq<char>,
}

/// How far a document is read.
pub struct Reading {
    /// How many elements are open.
    pub depth: int,
    /// How many of them are extensions, which are skipped with all that they hold.
    pub skipped: int,
    /// The element of text that is open.
    pub open: Option<OpenElement>,
    /// Whether nothing more is read.
    pub over: bool,
}

impl Reading {
    /// At the beginning of a document.
    pub open spec fn start() -> Reading {
        Reading { depth: 0, skipped: 0, open: None, over: false }
    }

    /// After the beginning of an element. No element may stand in one of text.
    pub open spec fn entered(self, name: Seq<char>) -> Reading {
        let within = Reading { depth: self.depth + 1, ..self };
        if name == "extensions"@ && (self.skipped > 0 || self.open is None) {
            Reading { skipped: self.skipped + 1, ..within }
        } else if self.skipped > 0 {
            within
        } else if self.open is Some {
            Reading { over: true, ..within }
        } else if name == "time"@ || name == "license"@ {
            Reading {
                open: Some(OpenElement { time: name == "time"@, text: Seq::empty() }),
                ..within
            }
        } else {
            within
        }
    }

    /// After the end of an element. An element of text must not be empty, and nothing
    /// is read behind the outermost element.
    pub open spec fn left(self, name: Seq<char>) -> Reading {
        let outside = Reading { depth: self.depth - 1, over: self.depth <= 1, ..self };
        if self.skipped > 0 {
            if name == "extensions"@ {
                Reading { skipped: self.skipped - 1, ..outside }
            } else {
                outside
            }
        } else {
            match self.open {
                Some(element) => if element.text.len() == 0 {
                    Reading { open: None, over: true, ..outside }
                } else {
                    Reading { open: None, ..outside }
                },
                None => outside,
            }
        }
    }

    /// After a part of the document.
    pub open spec fn after(self, part: (XmlKind, Seq<char>)) -> Reading {
        if self.over {
            self
        } else {
            match part.0 {
                XmlKind::Start => self.entered(part.1),
                XmlKind::End => self.left(part.1),
                XmlKind::Text => match self.open {
                    Some(element) => if self.skipped > 0 {
                        self
                    } else {
                        Reading { open: Some(OpenElement { text: part.1, ..element }), ..self }
                    },
                    None => self,
                },
                XmlKind::Other => self,
                XmlKind::Failed => Reading { over: true, ..self },
            }
        }
    }

    /// The text of the time that a part of the document ends.
    pub open spec fn time_ended(self, part: (XmlKind, Seq<char>)) -> Option<Seq<char>> {
        match self.open {
            Some(element) => if !self.over && self.skipped == 0 && element.time && part.0
                == XmlKind::End {
                Some(element.text)
            } else {
                None
            },
            None => None,
        }
    }
}

/// How far a document is read after some parts.
pub open spec fn reading(parts: Seq<(XmlKind, Seq<char>)>) -> Reading
    decreases parts.len(),
{
    if parts.len() == 0 {
        Reading::start()
    } else {
        reading(parts.drop_last()).after(parts.last())
    }
}

/// The texts of the times that are read in a document: those of the elements named
/// `time` that do not stand in extensions, each the last text before the element's end.
pub open spec fn times_read(parts: Seq<(XmlKind, Seq<char>)>) -> Seq<Seq<char>>
    decreases parts.len(),
{
    if parts.len() == 0 {
        Seq::empty()
    } else {
        let before = times_read(parts.drop_last());
        match reading(parts.drop_last()).time_ended(parts.last()) {
            Some(text) => before.push(text),
            None => before,
        }
    }
}

/// Whether a text is a time that universal time has no date for.
pub open spec fn unconvertible(text: Seq<char>) -> bool {
    iso8601_time(text) matches Some(time) && time.out_of_calendar()
}

/// Whether universal time has a date for every time that is read in a document.
pub open spec fn convertible_times(bytes: Seq<u8>) -> bool {
    forall|k: int|
        0 <= k < times_read(document_parts(bytes)).len() ==> !unconvertible(
            #[trigger] times_read(document_parts(bytes))[k],
        )
}

proof fn lemma_no_times(parts: Seq<(XmlKind, Seq<char>)>)
    requires
        forall|i: int| 0 <= i < parts.len() ==> #[trigger] parts[i] != (XmlKind::Start, "time"@),
    ensures
        times_read(parts).len() == 0,
        reading(parts).open matches Some(element) ==> !element.time,
    decreases parts.len(),
{
    if parts.len() > 0 {
        let fewer = parts.drop_last();
        assert forall|i: int| 0 <= i < fewer.len() implies #[trigger] fewer[i] != (
            XmlKind::Start,
            "time"@,
        ) by {
            assert(fewer[i] == parts[i]);
        }
        lemma_no_times(fewer);
        assert(parts[parts.len() - 1] == parts.last());
    }
}

/// A document without an element named `time` holds no time that universal time has no
/// date for, whatever else it holds.
pub proof fn other_elements_hold_no_times(bytes: Seq<u8>)
    requires
        forall|i: int|
            0 <= i < document_parts(bytes).len() ==> #[trigger] document_parts(bytes)[i] != (
                XmlKind::Start,
                "time"@,
            ),
    ensures
        convertible_times(bytes),
{
    lemma_no_times(document_parts(bytes));
}

/// The texts of some strings.
pub open spec fn texts(strings: Seq<String>) -> Seq<Seq<char>> {
    strings.map_values(|s: String| s@)
}

/// The state of a reading, in fields that run.
struct Cursor {
    depth: i128,
    skipped: i128,
    open: bool,
    time: bool,
    text: String,
    over: bool,
}

impl Cursor {
    spec fn shows(self, state: Reading) -> bool {
        &&& self.depth == state.depth
        &&& self.skipped == state.skipped
        &&& self.over == state.over
        &&& match state.open {
            Some(element) => self.open && self.time == element.time && self.text@ == element.text,
            None => !self.open,
        }
    }

    fn enter(&mut self, name: &str, Ghost(state): Ghost<Reading>)
        requires
            old(self).shows(state),
            !state.over,
            -0x1_0000_0000_0000_0000 <= state.depth <= 0x1_0000_0000_0000_0000,
            0 <= state.skipped <= 0x1_0000_0000_0000_0000,
        ensures
            final(self).shows(state.entered(name@)),
    {
        self.depth = self.depth + 1;
        if same_text(name, "extensions") && (self.skipped > 0 || !self.open) {
            self.skipped = self.skipped + 1;
        } else if self.skipped > 0 {
        } else if self.open {
            self.over = true;
        } else {
            let time = same_text(name, "time");
            if time || same_text(name, "license") {
                self.open = true;
                self.time = time;
                self.text = String::new();
            }
        }
    }

    fn leave(&mut self, name: &str, Ghost(state): Ghost<Reading>)
        requires
            old(self).shows(state),
            !state.over,
            -0x1_0000_0000_0000_0000 <= state.depth <= 0x1_0000_0000_0000_0000,
            0 <= state.skipped <= 0x1_0000_0000_0000_0000,
        ensures
            final(self).shows(state.left(name@)),
    {
        self.over = self.depth <= 1;
        self.depth = self.depth - 1;
        if self.skipped > 0 {
            if same_text(name, "extensions") {
                self.skipped = self.skipped - 1;
            }
        } else if self.open {
            proof {
                reveal_strlit("");
                assert(self.text@.len() == 0 ==> self.text@ =~= ""@);
            }
            if same_text(self.text.as_str(), "") {
                self.over = true;
            }
            self.open = false;
        }
    }
}

proof fn lemma_reading_bounds(parts: Seq<(XmlKind, Seq<char>)>)
    ensures
        -parts.len() <= reading(parts).depth <= parts.len(),
        0 <= reading(parts).skipped <= parts.len(),
    decreases parts.len(),
{
    if parts.len() > 0 {
        lemma_reading_bounds(parts.drop_last());
    }
}

/// The texts of the times that are read in a document.
pub fn element_times(parts: &Vec<XmlPart>) -> (times: Vec<String>)
    ensures
        texts(times@) == times_read(parts_view(parts@)),
{
    let ghost all = parts_view(parts@);
    let mut times: Vec<String> = Vec::new();
    let mut cursor = Cursor {
        depth: 0,
        skipped: 0,
        open: false,
        time: false,
        text: String::new(),
        over: false,
    };
    let count: usize = parts.len();
    let mut i: usize = 0;
    assert(texts(times@) =~= times_read(all.take(0)));
    while i < count
        invariant
            i <= count == parts@.len(),
            all == parts_view(parts@),
            cursor.shows(reading(all.take(i as int))),
            texts(times@) == times_read(all.take(i as int)),
        decreases count - i,
    {
        let part = &parts[i];
        let ghost seen = all.take(i as int);
        let ghost state = reading(seen);
        proof {
            assert(all.take(i + 1).drop_last() =~= seen);
            assert(all.take(i + 1).last() == (part.kind, part.text@));
            lemma_reading_bounds(seen);
        }
        let ghost before = times@;
        if !cursor.over {
            match part.kind {
                XmlKind::Start => cursor.enter(part.text.as_str(), Ghost(state)),
                XmlKind::End => {
                    if cursor.open && cursor.time && cursor.skipped == 0 {
                        times.push(cursor.text.clone());
                        assert(texts(times@) =~= texts(before).push(cursor.text@));
                    }
                    cursor.leave(part.text.as_str(), Ghost(state));
                },
                XmlKind::Text => {
                    if cursor.open && cursor.skipped == 0 {
                        cursor.text = part.text.clone();
                    }
                },
                XmlKind::Other => {},
                XmlKind::Failed => {
                    cursor.over = true;
                },
            }
        }
        i = i + 1;
    }
    assert(all.take(all.len() as int) =~= all);
    times
}

/// Whether universal time has a date for every time that is read in a document.
pub fn has_convertible_times(bytes: &[u8]) -> (b: bool)
    ensures
        b == convertible_times(bytes@),
{
    let parts = read_parts(bytes);
    let times = element_times(&parts);
    let ghost all = times_read(document_parts(bytes@));
    let mut i: usize = 0;
    while i < times.len()
        invariant
            i <= times@.len(),
            all == times_read(document_parts(bytes@)),
            texts(times@) == all,
            forall|k: int| 0 <= k < i ==> !unconvertible(#[trigger] all[k]),
        decreases times@.len() - i,
    {
        assert(all[i as int] == times@[i as int]@);
        match read_iso8601(times[i].as_str()) {
            Some(time) => {
                if time.leaves_calendar() {
                    assert(unconvertible(all[i as int]));
                    return false;
                }
            },
            None => {},
        }
        i = i + 1;
    }
    true
}

/// The seconds of a local year are counted from its beginning, by minutes of 60 seconds,
/// hours of 60 minutes and days of 24 hours, and an offset to the east is taken off.
pub proof fn seconds_of_the_year_are_counted(time: OffsetTime, other: OffsetTime)
    ensures
        time == (OffsetTime {
            year: time.year,
            day: 1,
            hour: 0,
            minute: 0,
            second: 0,
            offset_seconds: 0,
        }) ==> time.second_of_year() == 0,
        time.second_of_year() - other.second_of_year() == (other.offset_seconds
            - time.offset_seconds) + (time.second - other.second) + 60 * ((time.minute
            - other.minute) + 60 * ((time.hour - other.hour) + 24 * (time.day - other.day))),
{
}

/// Universal time has a date for a time exactly where its second lies within the years
/// from -9999 to 9999: no other year is left by an offset, the first one only at its
/// beginning and the last one only at its end.
pub proof fn the_calendar_ends_with_its_years(time: OffsetTime)
    ensures
        -9999 < time.year < 9999 ==> !time.out_of_calendar(),
        time.year < -9999 || time.year > 9999 ==> time.out_of_calendar(),
        time.year == -9999 ==> (time.out_of_calendar() <==> time.second_of_year() < 0),
        time.year == 9999 ==> (time.out_of_calendar() <==> time.second_of_year() >= 31_536_000),
{
}

/// An element of time that is read adds its text to the times that are read, and only the
/// last text in it counts.
pub proof fn elements_of_time_are_read(
    parts: Seq<(XmlKind, Seq<char>)>,
    earlier: Seq<char>,
    text: Seq<char>,
    end: Seq<char>,
)
    requires
        !reading(parts).over && reading(parts).skipped == 0 && reading(parts).open is None,
    ensures
        times_read(
            parts.push((XmlKind::Start, "time"@)).push((XmlKind::Text, text)).push(
                (XmlKind::End, end),
            ),
        ) == times_read(parts).push(text),
        times_read(
            parts.push((XmlKind::Start, "time"@)).push((XmlKind::Text, earlier)).push(
                (XmlKind::Text, text),
            ).push((XmlKind::End, end)),
        ) == times_read(parts).push(text),
{
    lemma_times();
    let a = parts.push((XmlKind::Start, "time"@));
    assert(a.drop_last() =~= parts);
    let b = a.push((XmlKind::Text, text));
    assert(b.drop_last() =~= a);
    let c = b.push((XmlKind::End, end));
    assert(c.drop_last() =~= b);
    let d = a.push((XmlKind::Text, earlier));
    assert(d.drop_last() =~= a);
    let e = d.push((XmlKind::Text, text));
    assert(e.drop_last() =~= d);
    let f = e.push((XmlKind::End, end));
    assert(f.drop_last() =~= e);
    let at = reading(a);
    assert(at == reading(parts).entered("time"@));
    assert(times_read(a) == times_read(parts));
    assert(times_read(b) == times_read(a));
    assert(times_read(d) == times_read(a));
    assert(times_read(e) == times_read(d));
}

proof fn lemma_times()
    ensures
        "time"@ != "extensions"@,
        "time"@ != "license"@,
{
    reveal_strlit("time");
    reveal_strlit("extensions");
    reveal_strlit("license");
    assert("time"@.len() == 4 && "extensions"@.len() == 10 && "license"@.len() == 7);
}

/// Within extensions, and behind the end of what is read, no time is read; an element
/// other than one of text changes neither.
pub proof fn extensions_hold_no_times(
    parts: Seq<(XmlKind, Seq<char>)>,
    part: (XmlKind, Seq<char>),
)
    ensures
        reading(parts).skipped > 0 || reading(parts).over ==> times_read(parts.push(part))
            == times_read(parts),
        reading(parts).over ==> reading(parts.push(part)).over,
        !reading(parts).over && reading(parts).open is None ==> {
            let inside = reading(parts.push((XmlKind::Start, "extensions"@)));
            &&& inside.skipped == reading(parts).skipped + 1
            &&& !inside.over
        },
        !reading(parts).over && reading(parts).skipped > 0 && part.0 == XmlKind::Start && part.1
            != "extensions"@ ==> reading(parts.push(part)).skipped == reading(parts).skipped,
        !reading(parts).over && reading(parts).skipped > 0 && part.0 == XmlKind::End ==> reading(
            parts.push(part),
        ).skipped == reading(parts).skipped - if part.1 == "extensions"@ {
            1int
        } else {
            0
        },
        !reading(parts).over && part.0 == XmlKind::Failed ==> reading(parts.push(part)).over,
        part.0 == XmlKind::Start || part.0 == XmlKind::Text ==> times_read(parts.push(part))
            == times_read(parts),
{
    assert(parts.push(part).drop_last() =~= parts);
    let entered = parts.push((XmlKind::Start, "extensions"@));
    assert(entered.drop_last() =~= parts);
}

/// A document is refused exactly where one of its times is read as one that universal
/// time has no date for.
pub proof fn every_time_must_be_convertible(bytes: Seq<u8>)
    ensures
        !convertible_times(bytes) <==> exists|k: int, time: OffsetTime|
            {
                &&& 0 <= k < times_read(document_parts(bytes)).len()
                &&& #[trigger] iso8601_time(times_read(document_parts(bytes))[k]) == Some(time)
                &&& #[trigger] time.out_of_calendar()
            },
{
    let times = times_read(document_parts(bytes));
    if !convertible_times(bytes) {
        let k = choose|k: int| 0 <= k < times.len() && unconvertible(#[trigger] times[k]);
        let time = iso8601_time(times[k])->0;
        assert(iso8601_time(times[k]) == Some(time) && time.out_of_calendar());
    }
    if exists|k: int, time: OffsetTime|
        {
            &&& 0 <= k < times.len()
            &&& #[trigger] iso8601_time(times[k]) == Some(time)
            &&& #[trigger] time.out_of_calendar()
        } {
        let (k, time) = choose|k: int, time: OffsetTime|
            {
                &&& 0 <= k < times.len()
                &&& #[trigger] iso8601_time(times[k]) == Some(time)
                &&& #[trigger] time.out_of_calendar()
            };
        assert(unconvertible(times[k]));
    }
}

/// Nothing more is read behind an element that stands in one of text, behind one of text
/// that is empty, and behind the end of the outermost element; any other element is read
/// through.
pub proof fn reading_ends_at_defects(state: Reading, name: Seq<char>)
    requires
        !state.over,
        state.skipped == 0,
    ensures
        state.open is Some ==> state.entered(name).over,
        state.open is None ==> !state.entered(name).over,
        state.open is None && name != "extensions"@ ==> {
            &&& state.entered(name).skipped == 0
            &&& state.entered(name).open is Some <==> name == "time"@ || name == "license"@
            &&& state.entered(name).open matches Some(element) ==> element.time == (name
                == "time"@) && element.text.len() == 0
        },
        state.entered(name).depth == state.depth + 1,
        state.left(name).depth == state.depth - 1,
        state.left(name).open is None,
        state.left(name).over <==> state.depth <= 1 || (state.open matches Some(element)
            && element.text.len() == 0),
{
    lemma_times();
}

/// A time is read exactly at the end of an element of time that is open outside of
/// extensions, with the text that was read last.
pub proof fn times_end_with_their_element(
    parts: Seq<(XmlKind, Seq<char>)>,
    part: (XmlKind, Seq<char>),
)
    ensures
        ({
            let state = reading(parts);
            let after = reading(parts.push(part));
            let live = !state.over && state.skipped == 0 && state.open is Some;
            &&& times_read(parts.push(part)) == if live && state.open->0.time && part.0
                == XmlKind::End {
                times_read(parts).push(state.open->0.text)
            } else {
                times_read(parts)
            }
            &&& part.0 == XmlKind::Text && live ==> {
                &&& after.open is Some && after.open->0.text == part.1
                &&& after.open->0.time == state.open->0.time
                &&& after.depth == state.depth && after.skipped == 0 && !after.over
            }
            &&& part.0 == XmlKind::Text && !live || part.0 == XmlKind::Other ==> after == state
        }),
        times_read(Seq::empty()) == Seq::<Seq<char>>::empty(),
        reading(Seq::empty()) == (Reading { depth: 0, skipped: 0, open: None, over: false }),
{
    lemma_reading_bounds(parts);
    assert(parts.push(part).drop_last() =~= parts);
}

} // verus!
