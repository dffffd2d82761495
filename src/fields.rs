//! Decoding single fields of a record: amounts written with `.` for
//! thousands and `,` for decimals, dates, and the period label.

use vstd::prelude::*;
use crate::text::{chars_of, push_char, string_of_range, trim, trim_text};

verus! {

/// `s` without its `.` characters.
pub open spec fn strip_dots(s: Seq<char>) -> Seq<char>
    decreases s.len(),
{
    if s.len() == 0 {
        s
    } else if s.last() == '.' {
        strip_dots(s.drop_last())
    } else {
        strip_dots(s.drop_last()).push(s.last())
    }
}

/// `s` with its last `,` turned into `.`.
pub open spec fn point_last_comma(s: Seq<char>) -> Seq<char>
    decreases s.len(),
{
    if s.len() == 0 {
        s
    } else if s.last() == ',' {
        s.drop_last().push('.')
    } else {
        point_last_comma(s.drop_last()).push(s.last())
    }
}

/// The amount `s` in the notation that `str::parse::<f64>` reads: trimmed,
/// thousands separators dropped, decimal comma turned into a point.
pub open spec fn monetary(s: Seq<char>) -> Seq<char> {
    point_last_comma(strip_dots(trim(s)))
}

/// Rewrites an amount such as `"1.234.567,89"` as `"1234567.89"`: the text
/// is trimmed, every `.` is dropped, and the last `,` becomes `.`. An empty
/// or non-numeric amount stays unreadable as a number.
pub fn monetary_text(s: &str) -> (r: String)
    ensures
        r@ == monetary(s@),
{
    let t = trim_text(s);
    let cs = chars_of(t.as_str());
    let n = cs.len();
    let mut kept: Vec<char> = Vec::new();
    let mut i: usize = 0;
    while i < n
        invariant
            n == cs@.len(),
            i <= n,
            kept@ == strip_dots(cs@.subrange(0, i as int)),
        decreases n - i,
    {
        assert(cs@.subrange(0, i + 1).drop_last() == cs@.subrange(0, i as int));
        if cs[i] != '.' {
            kept.push(cs[i]);
        }
        i = i + 1;
    }
    assert(cs@.subrange(0, n as int) == cs@);
    let m = kept.len();
    let mut j: usize = m;
    while j > 0 && kept[j - 1] != ','
        invariant
            j <= m == kept@.len(),
            forall|l: int| j <= l < m ==> kept@[l] != ',',
        decreases j,
    {
        j = j - 1;
    }
    proof {
        lemma_point_last_comma(kept@, j as int);
    }
    if j == 0 {
        string_of_range(&kept, 0, m)
    } else {
        let mut r = string_of_range(&kept, 0, j - 1);
        push_char(&mut r, '.');
        let rest = string_of_range(&kept, j, m);
        assert(kept@.subrange(0, j - 1).push('.') + kept@.subrange(j as int, m as int) == kept@.update(j - 1, '.'));
        vstd::string::StringExecFns::append(&mut r, rest.as_str());
        r
    }
}

/// Where `s[j..]` holds no comma, and `s[j - 1]` is the comma before it
/// (or `j` is 0), the last comma is the one at `j - 1`.
proof fn lemma_point_last_comma(s: Seq<char>, j: int)
    requires
        0 <= j <= s.len(),
        forall|l: int| j <= l < s.len() ==> s[l] != ',',
        j > 0 ==> s[j - 1] == ',',
    ensures
        point_last_comma(s) == if j == 0 {
            s
        } else {
            s.update(j - 1, '.')
        },
    decreases s.len(),
{
    if s.len() > 0 && s.len() > j {
        lemma_point_last_comma(s.drop_last(), j);
        if j == 0 {
            assert(s.drop_last().push(s.last()) == s);
        } else {
            assert(s.drop_last().update(j - 1, '.').push(s.last()) == s.update(j - 1, '.'));
        }
    } else if s.len() > 0 {
        assert(s.drop_last().push('.') == s.update(j - 1, '.'));
    }
}

/// A calendar date.
#[derive(Debug, Clone, Copy, PartialEq, Eq, Structural)]
pub struct Date {
    pub year: i32,
    /// 1 to 12.
    pub month: u32,
    /// 1 to 31.
    pub day: u32,
}

impl Date {
    /// Month and day lie in their ranges.
    pub open spec fn wf(self) -> bool {
        1 <= self.month <= 12 && 1 <= self.day <= 31
    }
}

/// The date `(year, month, day)` that `chrono::NaiveDate::parse_from_str`
/// reads from `text` with `format`, or `None` where it fails.
pub uninterp spec fn chrono_date(text: Seq<char>, format: Seq<char>) -> Option<(int, int, int)>;

/// A date written day first: `17/2/2014`, leading zeros optional.
pub const DAY_FIRST: &'static str = "%-d/%-m/%Y";

/// A date written year first: `2023/04/20`, leading zeros optional.
pub const YEAR_FIRST: &'static str = "%Y/%-m/%-d";

/// Relies on `chrono::NaiveDate::parse_from_str`, and on `Datelike::year`,
/// `month` (1 to 12) and `day` (1 to 31) of the date it returns.
#[verifier::external_body]
fn parse_date_with(text: &str, format: &str) -> (r: Option<Date>)
    ensures
        match r {
            Some(d) => chrono_date(text@, format@) == Some(
                (d.year as int, d.month as int, d.day as int),
            ) && d.wf(),
            None => chrono_date(text@, format@) is None,
        },
{
    match chrono::NaiveDate::parse_from_str(text, format) {
        Ok(d) => Some(
            Date {
                year: chrono::Datelike::year(&d),
                month: chrono::Datelike::month(&d),
                day: chrono::Datelike::day(&d),
            },
        ),
        Err(_) => None,
    }
}

/// Why a date field could not be read.
#[derive(Debug, Clone)]
pub enum DateError {
    /// The field is not blank, but nothing is left of it once the time of
    /// day is cut off.
    Empty,
    /// Neither format reads the date; `text` is the field as given.
    Unrecognized { text: String },
}

/// The characters that `char::is_ascii_whitespace` accepts.
pub open spec fn is_ascii_space(c: char) -> bool {
    c == ' ' || c == '\t' || c == '\n' || c == '\x0C' || c == '\r'
}

/// Whether a date's text ends before `c`: white space or the `T` that
/// starts a time of day.
pub open spec fn ends_date(c: char) -> bool {
    is_ascii_space(c) || c == 'T'
}

/// `s` with each `-` written as `/`.
pub open spec fn slashes(s: Seq<char>) -> Seq<char> {
    s.map_values(|c: char| if c == '-' { '/' } else { c })
}

/// The part of `s` before the first character that ends a date.
pub open spec fn before_date_end(s: Seq<char>) -> Seq<char>
    decreases s.len(),
{
    if s.len() == 0 || ends_date(s[0]) {
        Seq::empty()
    } else {
        seq![s[0]] + before_date_end(s.drop_first())
    }
}

/// The date part of a field: `-` read as `/`, the time of day cut off,
/// the rest trimmed.
pub open spec fn date_part(s: Seq<char>) -> Seq<char> {
    trim(before_date_end(slashes(s)))
}

/// The date that `format` reads from `text`, as a `Date`.
pub open spec fn date_read(text: Seq<char>, format: Seq<char>) -> Option<Date> {
    match chrono_date(text, format) {
        Some(t) => Some(Date { year: t.0 as i32, month: t.1 as u32, day: t.2 as u32 }),
        None => None,
    }
}

/// The outcome of reading the field `s` as a date.
pub open spec fn date_of(s: Seq<char>) -> Result<Date, ()> {
    let d = date_part(s);
    if d.len() == 0 {
        Err(())
    } else if date_read(d, DAY_FIRST@) is Some {
        Ok(date_read(d, DAY_FIRST@)->0)
    } else if date_read(d, YEAR_FIRST@) is Some {
        Ok(date_read(d, YEAR_FIRST@)->0)
    } else {
        Err(())
    }
}

/// The date part of a field, as `date_part` states it.
fn date_text(s: &str) -> (r: String)
    ensures
        r@ == date_part(s@),
{
    let cs = chars_of(s);
    let n = cs.len();
    let mut part: Vec<char> = Vec::new();
    let mut i: usize = 0;
    let ghost sl = slashes(s@);
    assert(sl.subrange(0, n as int) == sl);
    assert(part@ + sl == sl);
    while i < n
        invariant
            cs@ == s@,
            n == cs@.len(),
            sl == slashes(s@),
            i <= n,
            part@ + before_date_end(sl.subrange(i as int, n as int)) == before_date_end(sl),
        decreases n - i,
    {
        let c = if cs[i] == '-' {
            '/'
        } else {
            cs[i]
        };
        assert(c == sl[i as int]);
        assert(sl.subrange(i as int, n as int).drop_first() == sl.subrange(i + 1, n as int));
        if c == ' ' || c == '\t' || c == '\n' || c == '\x0C' || c == '\r' || c == 'T' {
            assert(before_date_end(sl.subrange(i as int, n as int)) == Seq::<char>::empty());
            assert(part@ + Seq::<char>::empty() == part@);
            assert(part@.subrange(0, part@.len() as int) == part@);
            return trim_text(string_of_range(&part, 0, part.len()).as_str());
        }
        part.push(c);
        i = i + 1;
    }
    assert(part@.subrange(0, part@.len() as int) == part@);
    trim_text(string_of_range(&part, 0, part.len()).as_str())
}

/// Reads a date field. An absent, empty or blank field is no date;
/// otherwise `-` is read as `/`, a time of day after white space or `T` is
/// cut off, and the rest is read day first (`20/1/2024`), then year first
/// (`2024/1/20`).
pub fn string_as_date(value: Option<&str>) -> (r: Result<Option<Date>, DateError>)
    ensures
        value is None ==> r matches Ok(None),
        value matches Some(s) ==> (trim(s@).len() == 0 ==> r matches Ok(None)),
        value matches Some(s) ==> (trim(s@).len() > 0 ==> match date_of(s@) {
            Ok(d) => r matches Ok(Some(e)) && e == d && e.wf(),
            Err(_) => r is Err,
        }),
        value matches Some(s) ==> (trim(s@).len() > 0 && date_part(s@).len() == 0 ==> r matches Err(
            DateError::Empty,
        )),
        value matches Some(s) ==> (trim(s@).len() > 0 && date_part(s@).len() > 0 && date_of(s@) is Err
            ==> (r matches Err(
            DateError::Unrecognized { text },
        ) && text@ == s@)),
{
    match value {
        None => Ok(None),
        Some(s) => {
            let blank = trim_text(s);
            if blank.as_str().is_empty() {
                return Ok(None);
            }
            let d = date_text(s);
            if d.as_str().is_empty() {
                return Err(DateError::Empty);
            }
            match parse_date_with(d.as_str(), DAY_FIRST) {
                Some(date) => Ok(Some(date)),
                None => match parse_date_with(d.as_str(), YEAR_FIRST) {
                    Some(date) => Ok(Some(date)),
                    None => Err(DateError::Unrecognized { text: s.to_owned() }),
                },
            }
        },
    }
}

} // verus!
