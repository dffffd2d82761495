//! The reporting period of a record: a free-text quarter label such as
//! `"3º TRIMESTRE de 2021"`, split into the quarter phrase and the year.

use vstd::prelude::*;
use crate::text::{chars_of, string_of_range, trim, trim_text};

verus! {

/// The capture groups (group 0 first; `None` for a group that took no part)
/// of the first match that the `regex` crate finds for `pattern` in `text`;
/// `None` where there is no match or the pattern is not valid.
pub uninterp spec fn regex_captures(pattern: Seq<char>, text: Seq<char>) -> Option<
    Seq<Option<Seq<char>>>,
>;

/// The views of optional strings.
pub open spec fn opt_view(o: Option<String>) -> Option<Seq<char>> {
    match o {
        Some(s) => Some(s@),
        None => None,
    }
}

/// Relies on `regex::Regex::new` and `Regex::captures`: the groups of the
/// first match, each as the text it matched.
#[verifier::external_body]
fn captures(pattern: &str, text: &str) -> (r: Option<Vec<Option<String>>>)
    ensures
        match r {
            Some(groups) => regex_captures(pattern@, text@) == Some(
                groups@.map_values(|g: Option<String>| opt_view(g)),
            ),
            None => regex_captures(pattern@, text@) is None,
        },
{
    let caps = regex::Regex::new(pattern).ok()?.captures(text)?;
    Some(caps.iter().map(|g| g.map(|m| m.as_str().to_string())).collect())
}

/// A quarter phrase followed by a year, `de` or `/` between them:
/// `"3º TRIMESTRE de 2021"`, `"4º trimestre/2023"`. Group 1 is the phrase,
/// group 2 the year.
pub const QUARTER_YEAR: &'static str = "(?i)^\\s*(.*Trimestre.*?)\\s*(?:de|/)?\\s*(\\d{2,4})\\s*$";

/// A date written day, month, year, possibly quoted and followed by a time
/// of day: `"25/05/2023 12:39:04"`, `"03-12-2021"`. Group 3 is the year.
pub const DAY_MONTH_YEAR: &'static str = "^\\s*['\"]?\\s*(\\d{1,2})\\s*[-/]\\s*(\\d{1,2})\\s*[-/]\\s*(\\d{2,4})(?:[T\\s](?:\\d{2}):?(?:\\d{2})(?::?(?:\\d{2})(?:\\.(?:\\d{1,9}))?)?)?\\s*['\"]?\\s*$";

/// The group `i` of `groups`, where it exists and took part in the match.
pub open spec fn group(groups: Seq<Option<Seq<char>>>, i: int) -> Option<Seq<char>> {
    if 0 <= i < groups.len() {
        groups[i]
    } else {
        None
    }
}

/// An ASCII decimal digit.
pub open spec fn is_digit(c: char) -> bool {
    48 <= c as u32 <= 57
}

/// The value of the ASCII digits `s`.
pub open spec fn digits_value(s: Seq<char>) -> nat
    decreases s.len(),
{
    if s.len() == 0 {
        0
    } else {
        digits_value(s.drop_last()) * 10 + ((s.last() as u32) - 48) as nat
    }
}

/// The number that `s` writes in ASCII digits, where it fits in `u32`.
pub open spec fn parsed_u32(s: Seq<char>) -> Option<u32> {
    if s.len() > 0 && (forall|i: int| 0 <= i < s.len() ==> is_digit(s[i])) && digits_value(s)
        <= u32::MAX {
        Some(digits_value(s) as u32)
    } else {
        None
    }
}

/// Reads `s` as a number written in ASCII digits.
pub fn parse_u32(s: &str) -> (r: Option<u32>)
    ensures
        r == parsed_u32(s@),
{
    let cs = chars_of(s);
    let n = cs.len();
    if n == 0 {
        return None;
    }
    let mut value: u64 = 0;
    let mut i: usize = 0;
    while i < n
        invariant
            cs@ == s@,
            n == cs@.len() > 0,
            i <= n,
            forall|j: int| 0 <= j < i ==> is_digit(cs@[j]),
            value == digits_value(cs@.subrange(0, i as int)),
            value <= u32::MAX,
        decreases n - i,
    {
        let c = cs[i];
        let u = c as u32;
        assert(cs@.subrange(0, i + 1).drop_last() == cs@.subrange(0, i as int));
        if u < 48 || u > 57 {
            return None;
        }
        let next: u64 = value * 10 + (u - 48) as u64;
        if next > 4294967295 {
            proof {
                lemma_digits_value_grows(cs@, i as int + 1);
            }
            return None;
        }
        value = next;
        i = i + 1;
    }
    assert(cs@.subrange(0, n as int) == cs@);
    Some(value as u32)
}

/// Appending digits never makes the value smaller.
proof fn lemma_digits_value_grows(s: Seq<char>, i: int)
    requires
        0 <= i <= s.len(),
    ensures
        digits_value(s.subrange(0, i)) <= digits_value(s),
    decreases s.len() - i,
{
    if i < s.len() {
        lemma_digits_value_grows(s, i + 1);
        assert(s.subrange(0, i + 1).drop_last() == s.subrange(0, i));
    } else {
        assert(s.subrange(0, i) == s);
    }
}

/// Four ASCII digits stand at `p` in `s`, with no digit right before or after.
pub open spec fn four_digits_at(s: Seq<char>, p: int) -> bool {
    &&& 0 <= p
    &&& p + 4 <= s.len()
    &&& forall|k: int| 0 <= k < 4 ==> is_digit(#[trigger] s[p + k])
    &&& (p == 0 || !is_digit(s[p - 1]))
    &&& (p + 4 == s.len() || !is_digit(s[p + 4]))
}

/// The first position, from `p` on, where a number of exactly four digits stands.
pub open spec fn first_four_digits_from(s: Seq<char>, p: int) -> Option<int>
    decreases s.len() - p,
{
    if p < 0 || p + 4 > s.len() {
        None
    } else if four_digits_at(s, p) {
        Some(p)
    } else {
        first_four_digits_from(s, p + 1)
    }
}

/// The first number of exactly four digits in `s`, as a year.
pub open spec fn first_four_digit_year(s: Seq<char>) -> Option<u32> {
    match first_four_digits_from(s, 0) {
        Some(p) => Some(digits_value(s.subrange(p, p + 4)) as u32),
        None => None,
    }
}

/// Whether `c` is an ASCII digit.
fn digit_char(c: char) -> (r: bool)
    ensures
        r == is_digit(c),
{
    let u = c as u32;
    48 <= u && u <= 57
}

/// The first number of exactly four digits in `s`.
pub fn first_four_digit_number(s: &str) -> (r: Option<u32>)
    ensures
        r == first_four_digit_year(s@),
{
    let cs = chars_of(s);
    let n = cs.len();
    if n < 4 {
        return None;
    }
    let mut p: usize = 0;
    while p <= n - 4
        invariant
            cs@ == s@,
            n == cs@.len() >= 4,
            p <= n - 3,
            first_four_digits_from(s@, 0) == first_four_digits_from(s@, p as int),
        decreases n - p,
    {
        let here = digit_char(cs[p]) && digit_char(cs[p + 1]) && digit_char(cs[p + 2]) && digit_char(
            cs[p + 3],
        ) && (p == 0 || !digit_char(cs[p - 1])) && (p + 4 == n || !digit_char(cs[p + 4]));
        proof {
            if here {
                assert forall|k: int| 0 <= k < 4 implies is_digit(#[trigger] s@[p + k]) by {
                    if k == 0 {
                    } else if k == 1 {
                    } else if k == 2 {
                    } else {
                    }
                }
            } else {
                if four_digits_at(s@, p as int) {
                    assert(is_digit(s@[p + 0]));
                    assert(is_digit(s@[p + 1]));
                    assert(is_digit(s@[p + 2]));
                    assert(is_digit(s@[p + 3]));
                }
            }
        }
        if here {
            let digits = string_of_range(&cs, p, p + 4);
            proof {
                assert forall|k: int| 0 <= k < 4 implies is_digit(#[trigger] digits@[k]) by {
                    assert(digits@[k] == s@[p + k]);
                }
                lemma_four_digits_fit(digits@);
            }
            return parse_u32(digits.as_str());
        }
        p = p + 1;
    }
    None
}

/// Four digits make a number below ten thousand.
proof fn lemma_four_digits_fit(d: Seq<char>)
    requires
        d.len() == 4,
        forall|k: int| 0 <= k < 4 ==> is_digit(#[trigger] d[k]),
    ensures
        digits_value(d) <= 9999,
{
    let d3 = d.drop_last();
    let d2 = d3.drop_last();
    let d1 = d2.drop_last();
    let d0 = d1.drop_last();
    assert(d0.len() == 0);
    assert(is_digit(d[0]) && is_digit(d[1]) && is_digit(d[2]) && is_digit(d[3]));
    assert(d1.last() == d[0]);
    assert(d2.last() == d[1]);
    assert(d3.last() == d[2]);
    assert(digits_value(d0) == 0);
    assert(digits_value(d1) <= 9);
    assert(digits_value(d2) <= 99);
    assert(digits_value(d3) <= 999);
}

/// The group `i` of the groups a match gave.
fn group_of(groups: &Vec<Option<String>>, i: usize) -> (r: Option<String>)
    ensures
        opt_view(r) == group(groups@.map_values(|g: Option<String>| opt_view(g)), i as int),
{
    if i < groups.len() {
        match &groups[i] {
            Some(g) => {
                let t = g.clone();
                assert(t@ == g@);
                Some(t)
            },
            None => None,
        }
    } else {
        None
    }
}

/// The year that group `i` of a match writes.
pub open spec fn group_year(groups: Seq<Option<Seq<char>>>, i: int) -> Option<u32> {
    match group(groups, i) {
        Some(y) => parsed_u32(y),
        None => None,
    }
}

/// The period label and year after reading the label `label`, where the
/// year was `ano` before:
/// - a quarter phrase and a year (`"3º TRIMESTRE de 2021"`) give the
///   trimmed phrase and the year;
/// - otherwise a date (`"25/05/2023"`) gives its year, the label kept;
/// - otherwise the first number of exactly four digits gives the year,
///   the label kept;
/// - otherwise nothing changes.
pub open spec fn period_of(label: Seq<char>, ano: Option<u32>) -> (Option<Seq<char>>, Option<u32>) {
    match regex_captures(QUARTER_YEAR@, label) {
        Some(g) => (
            match group(g, 1) {
                Some(t) => Some(trim(t)),
                None => None,
            },
            group_year(g, 2),
        ),
        None => match regex_captures(DAY_MONTH_YEAR@, label) {
            Some(g) => (Some(label), group_year(g, 3)),
            None => match first_four_digit_year(label) {
                Some(y) => (Some(label), Some(y)),
                None => (Some(label), ano),
            },
        },
    }
}

/// The reporting period of a record: its quarter label and its year.
#[derive(Debug, Clone)]
pub struct Period {
    /// The quarter label, such as `"3º TRIMESTRE de 2021"`.
    pub trimestre_de_apuracao: Option<String>,
    /// The year of the period.
    pub ano: Option<u32>,
}

impl Period {
    /// Splits the quarter label into the quarter phrase and the year, as
    /// `period_of` states: `"3º TRIMESTRE de 2021"` becomes the label
    /// `"3º TRIMESTRE"` and the year 2021. Without a label nothing changes.
    pub fn get_year(&mut self)
        ensures
            old(self).trimestre_de_apuracao matches Some(l) ==> (
            opt_view(final(self).trimestre_de_apuracao),
            final(self).ano,
            ) == period_of(l@, old(self).ano),
            old(self).trimestre_de_apuracao is None ==> final(self).trimestre_de_apuracao is None
                && final(self).ano == old(self).ano,
    {
        let label = match &self.trimestre_de_apuracao {
            Some(l) => {
                let c = l.clone();
                assert(c@ == l@);
                c
            },
            None => {
                return ;
            },
        };
        match captures(QUARTER_YEAR, label.as_str()) {
            Some(groups) => {
                let phrase = match group_of(&groups, 1) {
                    Some(t) => Some(trim_text(t.as_str())),
                    None => None,
                };
                let year = match group_of(&groups, 2) {
                    Some(y) => parse_u32(y.as_str()),
                    None => None,
                };
                self.trimestre_de_apuracao = phrase;
                self.ano = year;
            },
            None => match captures(DAY_MONTH_YEAR, label.as_str()) {
                Some(groups) => {
                    self.ano = match group_of(&groups, 3) {
                        Some(y) => parse_u32(y.as_str()),
                        None => None,
                    };
                },
                None => match first_four_digit_number(label.as_str()) {
                    Some(y) => {
                        self.ano = Some(y);
                    },
                    None => {},
                },
            },
        }
    }
}

} // verus!
