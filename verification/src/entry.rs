//! One log record: a date, a duration, and a note carrying inline
//! tags, with its canonical one-line text encoding.
//!
//! Line grammar: `<YYYY-MM-DD> <H>h<MM> <note...>`, the three fields
//! separated by runs of spaces, the note reaching to the end of the
//! line. Tags are derived from the note at construction and are never
//! stored independently of it.

use vstd::prelude::*;

use crate::dates::{spec_format_date, valid_ymd, Date};
use crate::duration::{duration_shape, spec_format_duration, spec_parse_duration, Duration};
use crate::tag::{spec_find_tags, Tag, Tags};
use crate::text::{
    all_digits, digits_val, find_char, is_digit, lemma_dec_digits_all, lemma_dec_digits_len2,
    lemma_dec_digits_len_le, lemma_dec_pad_len, lemma_dec_pad_val, lemma_digits_val_bound,
    lemma_find_char, lemma_find_char_pins, lemma_skip_spaces, lemma_skip_spaces_pins, parse_uint,
    pow10, scan_char, scan_nonspace, skip_spaces,
};

verus! {

/// Failure to read an entry from one line of the log.
#[derive(Debug, Clone, Copy, PartialEq, Eq, Structural)]
pub enum ParseEntryError {
    /// The line does not have the three-part shape of the grammar.
    MalformedLine,
    /// The date field is well shaped but names no real calendar day.
    InvalidDate,
    /// The duration field is not `<digits>h<digits>`, or its minute
    /// count does not fit the machine representation.
    MalformedDuration,
}

/// What a note must look like to survive the line encoding: not empty,
/// not opening with a space (runs of spaces separate the fields), and
/// on one line.
pub open spec fn note_wf(note: Seq<char>) -> bool {
    &&& note.len() > 0
    &&& note[0] != ' '
    &&& forall|i: int| 0 <= i < note.len() ==> note[i] != '\n'
}

/// The mathematical content of an entry: its date, its duration in
/// minutes, its note text, and the tag labels derived from the note.
#[verifier::ext_equal]
pub ghost struct EntryV {
    pub date: Date,
    pub minutes: int,
    pub note: Seq<char>,
    pub tags: Seq<Seq<char>>,
}

/// One recorded work session. Immutable once created; the tags are
/// computed from the note when the entry is built.
#[derive(Debug, Clone, PartialEq)]
pub struct Entry {
    date: Date,
    duration: Duration,
    note: String,
    tags: Tags,
}

impl View for Entry {
    type V = EntryV;

    closed spec fn view(&self) -> EntryV {
        EntryV {
            date: self.date,
            minutes: self.duration@,
            note: self.note@,
            tags: self.tags@,
        }
    }
}

impl DeepView for Entry {
    type V = EntryV;

    open spec fn deep_view(&self) -> EntryV {
        self.view()
    }
}

impl Entry {
    /// A well-formed entry: valid date, non-negative duration, a note
    /// that fits the line grammar, and tags that are exactly what the
    /// tag grammar extracts from the note.
    pub open spec fn wf(&self) -> bool {
        &&& self@.date.wf()
        &&& 0 <= self@.minutes
        &&& note_wf(self@.note)
        &&& self@.tags == spec_find_tags(self@.note)
    }

    /// Builds an entry, deriving its tags from the note.
    pub fn new(date: Date, duration: Duration, note: String) -> (r: Entry)
        requires
            date.wf(),
            duration.valid(),
            note_wf(note@),
        ensures
            r@ == (EntryV {
                date,
                minutes: duration@,
                note: note@,
                tags: spec_find_tags(note@),
            }),
            r.wf(),
    {
        let tags = Tag::find(note.as_str());
        Entry { date, duration, note, tags }
    }

    /// A copy of this entry with the same content.
    pub fn clone_entry(&self) -> (r: Entry)
        requires
            self.wf(),
        ensures
            r@ == self@,
            r.wf(),
    {
        let r = Entry::new(self.date, self.duration, self.note.clone());
        proof {
            assert(r@ =~= self@);
        }
        r
    }

    /// The calendar date of the session.
    pub fn date(&self) -> (r: Date)
        ensures
            r == self@.date,
    {
        self.date
    }

    /// The recorded duration.
    pub fn duration(&self) -> (r: Duration)
        ensures
            r@ == self@.minutes,
    {
        self.duration
    }

    /// The note text, tags included, verbatim.
    pub fn note(&self) -> (r: &String)
        ensures
            r@ == self@.note,
    {
        &self.note
    }

    /// The tags derived from the note, in order of occurrence.
    pub fn tags(&self) -> (r: &Tags)
        ensures
            r@ == self@.tags,
    {
        &self.tags
    }
}

/// The canonical line for an entry: the date, the duration, and the
/// note, separated by single spaces.
pub open spec fn spec_encode(date: Date, minutes: int, note: Seq<char>) -> Seq<char> {
    spec_format_date(date) + seq![' '] + spec_format_duration(minutes) + seq![' '] + note
}

/// Date field shape: `YYYY-MM-DD`, ten characters, digits and dashes
/// in their places.
pub open spec fn date_shape(t: Seq<char>) -> bool {
    &&& t.len() == 10
    &&& all_digits(t.subrange(0, 4))
    &&& t[4] == '-'
    &&& all_digits(t.subrange(5, 7))
    &&& t[7] == '-'
    &&& all_digits(t.subrange(8, 10))
}

/// The year a date field writes.
pub open spec fn date_year(t: Seq<char>) -> int {
    digits_val(t.subrange(0, 4))
}

/// The month a date field writes.
pub open spec fn date_month(t: Seq<char>) -> int {
    digits_val(t.subrange(5, 7))
}

/// The day a date field writes.
pub open spec fn date_day(t: Seq<char>) -> int {
    digits_val(t.subrange(8, 10))
}

/// What decoding one line yields: the entry it writes, or the first
/// error in grammar order. The date field is read up to the first
/// space; a misshapen date field is a malformed line, a well-shaped
/// one naming no real day is an invalid date; then the duration field
/// must parse; then a non-empty note must remain.
pub open spec fn spec_decode(s: Seq<char>) -> Result<EntryV, ParseEntryError> {
    let t1 = find_char(s, 0, ' ');
    let tok1 = s.subrange(0, t1);
    if !date_shape(tok1) {
        Err(ParseEntryError::MalformedLine)
    } else if !valid_ymd(date_year(tok1), date_month(tok1), date_day(tok1)) {
        Err(ParseEntryError::InvalidDate)
    } else if skip_spaces(s, t1) >= s.len() {
        Err(ParseEntryError::MalformedLine)
    } else {
        let i2 = skip_spaces(s, t1);
        let t2 = find_char(s, i2, ' ');
        let tok2 = s.subrange(i2, t2);
        if !(duration_shape(tok2) && spec_parse_duration(tok2) <= i64::MAX) {
            Err(ParseEntryError::MalformedDuration)
        } else {
            let i3 = skip_spaces(s, t2);
            if i3 >= s.len() {
                Err(ParseEntryError::MalformedLine)
            } else {
                Ok(
                    EntryV {
                        date: Date {
                            year: date_year(tok1) as u16,
                            month: date_month(tok1) as u8,
                            day: date_day(tok1) as u8,
                        },
                        minutes: spec_parse_duration(tok2),
                        note: s.subrange(i3, s.len() as int),
                        tags: spec_find_tags(s.subrange(i3, s.len() as int)),
                    },
                )
            }
        }
    }
}

impl Entry {
    /// Writes the entry as one log line.
    pub fn encode(&self) -> (r: String)
        requires
            self.wf(),
        ensures
            r@ == spec_encode(self@.date, self@.minutes, self@.note),
    {
        proof {
            reveal_strlit(" ");
        }
        let mut s = self.date.format();
        s.append(" ");
        let d = self.duration.format();
        s.append(d.as_str());
        s.append(" ");
        s.append(self.note.as_str());
        assert(s@ =~= spec_encode(self@.date, self@.minutes, self@.note));
        s
    }

    /// Reads an entry from one line of the log. Succeeds exactly on
    /// lines of the grammar, and reports the first failure otherwise.
    pub fn decode(s: &str) -> (r: Result<Entry, ParseEntryError>)
        requires
            forall|i: int| 0 <= i < s@.len() ==> s@[i] != '\n',
        ensures
            r matches Ok(e) ==> spec_decode(s@) == Ok::<EntryV, ParseEntryError>(e@) && e.wf(),
            r matches Err(err) ==> spec_decode(s@) == Err::<EntryV, ParseEntryError>(err),
    {
        let n = s.unicode_len();
        let t1 = scan_char(s, 0, ' ');
        proof {
            lemma_find_char(s@, 0, ' ');
        }
        let ghost tok1 = s@.subrange(0, t1 as int);
        if t1 != 10 {
            return Err(ParseEntryError::MalformedLine);
        }
        if s.get_char(4) != '-' || s.get_char(7) != '-' {
            return Err(ParseEntryError::MalformedLine);
        }
        proof {
            assert(tok1.subrange(0, 4) =~= s@.subrange(0, 4));
            assert(tok1.subrange(5, 7) =~= s@.subrange(5, 7));
            assert(tok1.subrange(8, 10) =~= s@.subrange(8, 10));
            lemma_pow10_small();
        }
        let y = match parse_uint(s, 0, 4) {
            Some(v) => v,
            None => {
                proof {
                    if all_digits(s@.subrange(0, 4)) {
                        lemma_digits_val_bound(s@.subrange(0, 4));
                    }
                }
                return Err(ParseEntryError::MalformedLine);
            },
        };
        let mo = match parse_uint(s, 5, 7) {
            Some(v) => v,
            None => {
                proof {
                    if all_digits(s@.subrange(5, 7)) {
                        lemma_digits_val_bound(s@.subrange(5, 7));
                    }
                }
                return Err(ParseEntryError::MalformedLine);
            },
        };
        let d = match parse_uint(s, 8, 10) {
            Some(v) => v,
            None => {
                proof {
                    if all_digits(s@.subrange(8, 10)) {
                        lemma_digits_val_bound(s@.subrange(8, 10));
                    }
                }
                return Err(ParseEntryError::MalformedLine);
            },
        };
        assert(date_shape(tok1));
        let date = match Date::from_ymd(y, mo, d) {
            Some(dt) => dt,
            None => {
                return Err(ParseEntryError::InvalidDate);
            },
        };
        let i2 = scan_nonspace(s, t1);
        if i2 == n {
            return Err(ParseEntryError::MalformedLine);
        }
        let t2 = scan_char(s, i2, ' ');
        proof {
            lemma_find_char(s@, i2 as int, ' ');
        }
        let dur_text = s.substring_char(i2, t2);
        let duration = match Duration::parse(dur_text) {
            Ok(du) => du,
            Err(_) => {
                return Err(ParseEntryError::MalformedDuration);
            },
        };
        let i3 = scan_nonspace(s, t2);
        if i3 == n {
            return Err(ParseEntryError::MalformedLine);
        }
        let note = s.substring_char(i3, n).to_owned();
        proof {
            lemma_skip_spaces(s@, t2 as int);
            assert(note_wf(note@));
        }
        let e = Entry::new(date, duration, note);
        proof {
            assert(spec_decode(s@) == Ok::<EntryV, ParseEntryError>(e@));
        }
        Ok(e)
    }
}

/// The date text of a valid date has the date field shape and writes
/// back the date's own components.
proof fn lemma_format_date_shape(d: Date)
    requires
        d.wf(),
    ensures
        date_shape(spec_format_date(d)),
        date_year(spec_format_date(d)) == d.year,
        date_month(spec_format_date(d)) == d.month,
        date_day(spec_format_date(d)) == d.day,
        forall|j: int|
            0 <= j < spec_format_date(d).len() ==> #[trigger] spec_format_date(d)[j] != ' ',
{
    let t = spec_format_date(d);
    lemma_pow10_small();
    lemma_dec_digits_len_le(d.year as int, 4);
    lemma_dec_pad_len(d.year as int, 4);
    lemma_dec_digits_len2(d.month as int);
    lemma_dec_pad_len(d.month as int, 2);
    lemma_dec_digits_len2(d.day as int);
    lemma_dec_pad_len(d.day as int, 2);
    lemma_dec_pad_val(d.year as int, 4);
    lemma_dec_pad_val(d.month as int, 2);
    lemma_dec_pad_val(d.day as int, 2);
    assert(t.subrange(0, 4) =~= crate::text::dec_pad(d.year as int, 4));
    assert(t.subrange(5, 7) =~= crate::text::dec_pad(d.month as int, 2));
    assert(t.subrange(8, 10) =~= crate::text::dec_pad(d.day as int, 2));
    assert(forall|j: int| 0 <= j < t.len() ==> #[trigger] t[j] != ' ') by {
        assert(forall|j: int|
            0 <= j < 4 ==> is_digit(#[trigger] crate::text::dec_pad(d.year as int, 4)[j]));
        assert(forall|j: int|
            0 <= j < 2 ==> is_digit(#[trigger] crate::text::dec_pad(d.month as int, 2)[j]));
        assert(forall|j: int|
            0 <= j < 2 ==> is_digit(#[trigger] crate::text::dec_pad(d.day as int, 2)[j]));
    }
}

/// The duration text of a non-negative minute count holds no space.
proof fn lemma_format_duration_no_space(n: int)
    requires
        0 <= n,
    ensures
        spec_format_duration(n).len() >= 3,
        forall|j: int|
            0 <= j < spec_format_duration(n).len() ==> #[trigger] spec_format_duration(n)[j]
                != ' ',
        is_digit(spec_format_duration(n)[0]),
{
    let t = spec_format_duration(n);
    lemma_dec_digits_all(n / 60);
    lemma_dec_pad_val(n % 60, 2);
    lemma_dec_digits_len2(n % 60);
    lemma_dec_pad_len(n % 60, 2);
    let h = crate::text::dec_digits(n / 60);
    let p = crate::text::dec_pad(n % 60, 2);
    assert(forall|j: int| 0 <= j < t.len() ==> #[trigger] t[j] != ' ') by {
        assert(forall|j: int| 0 <= j < h.len() ==> is_digit(#[trigger] h[j]));
        assert(forall|j: int| 0 <= j < p.len() ==> is_digit(#[trigger] p[j]));
        assert(forall|j: int|
            0 <= j < t.len() ==> t[j] == 'h' || is_digit(#[trigger] t[j]));
    }
}

/// Round trip: the canonical line of any well-formed entry decodes
/// back to that entry — same date, same minute count, same note, and
/// therefore the same derived tags.
pub proof fn lemma_entry_round_trip(date: Date, minutes: int, note: Seq<char>)
    requires
        date.wf(),
        0 <= minutes <= i64::MAX,
        note_wf(note),
    ensures
        spec_decode(spec_encode(date, minutes, note)) == Ok::<EntryV, ParseEntryError>(
            EntryV { date, minutes, note, tags: spec_find_tags(note) },
        ),
{
    let s = spec_encode(date, minutes, note);
    let fd = spec_format_date(date);
    let fu = spec_format_duration(minutes);
    let dl = fu.len() as int;
    lemma_format_date_shape(date);
    lemma_format_duration_no_space(minutes);
    crate::duration::lemma_duration_round_trip(minutes);
    assert(s.len() == 10 + 1 + dl + 1 + note.len());
    assert(s[10] == ' ');
    assert(forall|j: int| 0 <= j < 10 ==> #[trigger] s[j] == fd[j]);
    lemma_find_char_pins(s, 0, 10, ' ');
    let tok1 = s.subrange(0, 10);
    assert(tok1 =~= fd);
    assert(valid_ymd(date_year(tok1), date_month(tok1), date_day(tok1)));
    assert(forall|j: int| 11 <= j < 11 + dl ==> #[trigger] s[j] == fu[j - 11]);
    lemma_skip_spaces_pins(s, 10, 11);
    assert(s[11 + dl] == ' ');
    lemma_find_char_pins(s, 11, 11 + dl, ' ');
    let tok2 = s.subrange(11, 11 + dl);
    assert(tok2 =~= fu);
    assert(s[11 + dl + 1] == note[0]);
    lemma_skip_spaces_pins(s, 11 + dl, 11 + dl + 1);
    assert(s.subrange(11 + dl + 1, s.len() as int) =~= note);
    assert(spec_decode(s) matches Ok(v) && v =~= (EntryV {
        date,
        minutes,
        note,
        tags: spec_find_tags(note),
    }));
}

/// The powers of ten that the date field uses.
proof fn lemma_pow10_small()
    ensures
        pow10(2) == 100,
        pow10(4) == 10000,
{
    assert(pow10(0) == 1);
    assert(pow10(1) == 10);
    assert(pow10(2) == 100);
    assert(pow10(3) == 1000);
    assert(pow10(4) == 10000);
}

} // verus!
