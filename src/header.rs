//! The header line: splitting it into column names, counting the names,
//! and giving repeated names a numbered suffix.

use vstd::prelude::*;
use crate::args::Arguments;
use crate::text::{decimal, digit_char, push_char, push_decimal, trim};
use vstd::string::StringExecFns;

verus! {

/// The fields that the `csv` reader yields for `line` (no header row,
/// double-quote quoting with doubled quotes, all fields trimmed, records of
/// equal length) with `delimiter`, record after record, up to the first
/// record that it cannot read.
pub uninterp spec fn csv_fields(line: Seq<char>, delimiter: u8) -> Seq<Seq<char>>;

/// The text that `{:?}` (and `{:#?}`) writes for a string: quoted, with
/// quotes, backslashes and control characters escaped.
pub uninterp spec fn debug_quoted(s: Seq<char>) -> Seq<char>;

/// The byte that `delimiter as u8` gives.
pub open spec fn delimiter_byte(delimiter: char) -> u8 {
    (delimiter as u32 % 256) as u8
}

/// The views of a list of strings.
pub open spec fn names(cols: Seq<String>) -> Seq<Seq<char>> {
    cols.map_values(|c: String| c@)
}

/// Relies on `csv::ReaderBuilder` with the settings above and `records()`:
/// the fields of each record read, in order, until the first error; with
/// `Trim::All` each field is trimmed with `str::trim`.
#[verifier::external_body]
fn csv_line_fields(line: &str, delimiter: u8) -> (r: Vec<String>)
    ensures
        names(r@) == csv_fields(line@, delimiter),
        forall|i: int| 0 <= i < r@.len() ==> trim(#[trigger] r@[i]@) == r@[i]@,
{
    let mut reader = csv::ReaderBuilder::new().quoting(true).double_quote(true).has_headers(
        false,
    ).flexible(false).trim(csv::Trim::All).delimiter(delimiter).from_reader(line.as_bytes());
    reader.records().map_while(Result::ok).flat_map(
        |record| record.iter().map(|s| s.to_string()).collect::<Vec<String>>(),
    ).collect()
}

/// Relies on the `Debug` formatting of `str`, written with `format!("{:#?}")`.
#[verifier::external_body]
fn debug_string(s: &str) -> (r: String)
    ensures
        r@ == debug_quoted(s@),
{
    format!("{s:#?}")
}

/// Splits one line into its fields: `delimiter` separates them, a field
/// in double quotes may hold the delimiter, and every field is trimmed. A
/// line that the reader cannot read as a record gives no fields from that
/// record on.
pub fn parse_line(line: &str, delimiter: char) -> (r: Vec<String>)
    ensures
        names(r@) == csv_fields(line@, delimiter_byte(delimiter)),
        forall|i: int| 0 <= i < r@.len() ==> trim(#[trigger] r@[i]@) == r@[i]@,
{
    let byte = (delimiter as u32 % 256) as u8;
    csv_line_fields(line, byte)
}

/// How many entries of `s` equal `x`.
pub open spec fn count(s: Seq<Seq<char>>, x: Seq<char>) -> nat
    decreases s.len(),
{
    if s.len() == 0 {
        0
    } else {
        count(s.drop_last(), x) + if s.last() == x {
            1nat
        } else {
            0nat
        }
    }
}

/// No two entries of `s` are equal.
pub open spec fn no_duplicates(s: Seq<Seq<char>>) -> bool {
    forall|i: int, j: int| 0 <= i < j < s.len() ==> s[i] != s[j]
}

/// Which occurrence of its name the entry `cols[i]` is, counting from 1.
pub open spec fn occurrence(cols: Seq<Seq<char>>, i: int) -> nat {
    count(cols.subrange(0, i + 1), cols[i])
}

/// `name` with the suffix `" [k]"` that its `k`-th occurrence gets.
pub open spec fn numbered(name: Seq<char>, k: nat) -> Seq<char> {
    name + seq![' ', '['] + decimal(k) + seq![']']
}

/// The name given to `cols[i]`: the first occurrence of a name keeps it,
/// the `k`-th occurrence (`k >= 2`) becomes `"name [k]"`.
pub open spec fn dedup_name(cols: Seq<Seq<char>>, i: int) -> Seq<char> {
    if occurrence(cols, i) >= 2 {
        numbered(cols[i], occurrence(cols, i))
    } else {
        cols[i]
    }
}

/// The header `cols` with every repeated name numbered.
pub open spec fn deduplicated(cols: Seq<Seq<char>>) -> Seq<Seq<char>> {
    Seq::new(cols.len(), |i: int| dedup_name(cols, i))
}

/// The count of `x` in `s.push(y)`.
proof fn lemma_count_push(s: Seq<Seq<char>>, y: Seq<char>, x: Seq<char>)
    ensures
        count(s.push(y), x) == count(s, x) + if y == x {
            1nat
        } else {
            0nat
        },
{
    assert(s.push(y).drop_last() == s);
}

/// Where `s` does not hold `x`, its count is zero.
proof fn lemma_count_absent(s: Seq<Seq<char>>, x: Seq<char>)
    requires
        forall|i: int| 0 <= i < s.len() ==> s[i] != x,
    ensures
        count(s, x) == 0,
    decreases s.len(),
{
    if s.len() > 0 {
        lemma_count_absent(s.drop_last(), x);
    }
}

/// The count of an entry of `s` is at least one.
proof fn lemma_count_present(s: Seq<Seq<char>>, i: int)
    requires
        0 <= i < s.len(),
    ensures
        count(s, s[i]) >= 1,
    decreases s.len(),
{
    if i < s.len() - 1 {
        lemma_count_present(s.drop_last(), i);
    }
}

/// One entry of the frequency table: a column name and how often it occurs.
pub struct NameCount {
    pub name: String,
    pub count: usize,
}

/// The names of a frequency table, in order.
pub open spec fn table_names(t: Seq<NameCount>) -> Seq<Seq<char>> {
    t.map_values(|e: NameCount| e.name@)
}

/// Where `x` stands in `names`, if it does.
fn position_of(list: &Vec<String>, x: &String) -> (r: Option<usize>)
    ensures
        match r {
            Some(k) => k < list@.len() && list@[k as int]@ == x@,
            None => forall|k: int| 0 <= k < list@.len() ==> list@[k]@ != x@,
        },
{
    for k in 0..list.len()
        invariant
            forall|j: int| 0 <= j < k ==> list@[j]@ != x@,
    {
        if list[k] == *x {
            return Some(k);
        }
    }
    None
}

/// Counts how often each column name occurs. Every name of `cols` has
/// exactly one entry, with its count.
pub fn get_frequency(cols: &Vec<String>) -> (r: Vec<NameCount>)
    ensures
        forall|k: int| 0 <= k < r@.len() ==> r@[k].count == count(names(cols@), r@[k].name@),
        forall|k: int| 0 <= k < r@.len() ==> r@[k].count >= 1,
        forall|i: int| 0 <= i < cols@.len() ==> #[trigger] table_names(r@).contains(cols@[i]@),
        forall|k: int, l: int| 0 <= k < l < r@.len() ==> r@[k].name@ != r@[l].name@,
{
    let ghost all = names(cols@);
    let mut seen: Vec<String> = Vec::new();
    let mut counts: Vec<usize> = Vec::new();
    // where each name met so far stands in `seen`
    let ghost mut slot: Seq<int> = Seq::empty();
    let mut i: usize = 0;
    while i < cols.len()
        invariant
            i <= cols@.len(),
            all == names(cols@),
            seen@.len() == counts@.len(),
            slot.len() == i,
            forall|k: int|
                0 <= k < seen@.len() ==> counts@[k] == count(all.subrange(0, i as int), seen@[k]@),
            forall|k: int| 0 <= k < seen@.len() ==> 1 <= #[trigger] counts@[k] <= i,
            forall|j: int|
                0 <= j < i ==> 0 <= #[trigger] slot[j] < seen@.len() && seen@[slot[j]]@
                    == cols@[j]@,
            forall|k: int, l: int| 0 <= k < l < seen@.len() ==> seen@[k]@ != seen@[l]@,
        decreases cols@.len() - i,
    {
        let ghost before = all.subrange(0, i as int);
        assert(all.subrange(0, i + 1) == before.push(cols@[i as int]@));
        proof {
            assert forall|k: int| 0 <= k < seen@.len() implies count(
                all.subrange(0, i + 1),
                seen@[k]@,
            ) == count(before, seen@[k]@) + if cols@[i as int]@ == seen@[k]@ {
                1nat
            } else {
                0nat
            } by {
                lemma_count_push(before, cols@[i as int]@, seen@[k]@);
            }
        }
        match position_of(&seen, &cols[i]) {
            Some(k) => {
                counts.set(k, counts[k] + 1);
                proof {
                    slot = slot.push(k as int);
                }
            },
            None => {
                proof {
                    assert forall|j: int| 0 <= j < before.len() implies before[j]
                        != cols@[i as int]@ by {
                        assert(seen@[slot[j]]@ == before[j]);
                    }
                    lemma_count_absent(before, cols@[i as int]@);
                    lemma_count_push(before, cols@[i as int]@, cols@[i as int]@);
                }
                let name = cols[i].clone();
                assert(name@ == cols@[i as int]@);
                seen.push(name);
                counts.push(1);
                proof {
                    slot = slot.push(seen@.len() - 1);
                }
            },
        }
        i = i + 1;
    }
    assert(all.subrange(0, cols@.len() as int) == all);
    let mut r: Vec<NameCount> = Vec::new();
    let mut k: usize = 0;
    while k < seen.len()
        invariant
            k <= seen@.len() == counts@.len(),
            r@.len() == k,
            all == names(cols@),
            slot.len() == cols@.len(),
            forall|l: int| 0 <= l < seen@.len() ==> counts@[l] == count(all, seen@[l]@),
            forall|l: int| 0 <= l < seen@.len() ==> 1 <= #[trigger] counts@[l],
            forall|j: int|
                0 <= j < cols@.len() ==> 0 <= #[trigger] slot[j] < seen@.len() && seen@[slot[j]]@
                    == cols@[j]@,
            forall|a: int, b: int| 0 <= a < b < seen@.len() ==> seen@[a]@ != seen@[b]@,
            forall|j: int| 0 <= j < k ==> (#[trigger] r@[j]).name@ == seen@[j]@,
            forall|j: int| 0 <= j < k ==> (#[trigger] r@[j]).count == counts@[j],
        decreases seen@.len() - k,
    {
        let name = seen[k].clone();
        assert(name@ == seen@[k as int]@);
        let ghost old_r = r@;
        r.push(NameCount { name, count: counts[k] });
        assert(r@[k as int].name@ == seen@[k as int]@);
        assert forall|j: int| 0 <= j < k implies #[trigger] r@[j] == old_r[j] by {}
        k = k + 1;
    }
    assert forall|i: int| 0 <= i < cols@.len() implies #[trigger] table_names(r@).contains(
        cols@[i]@,
    ) by {
        assert(table_names(r@)[slot[i]] == r@[slot[i]].name@);
        assert(r@[slot[i]].name@ == seen@[slot[i]]@);
    }
    r
}

/// A prefix of `s` holds no more copies of `x` than `s` does.
proof fn lemma_count_prefix(s: Seq<Seq<char>>, n: int, x: Seq<char>)
    requires
        0 <= n <= s.len(),
    ensures
        count(s.subrange(0, n), x) <= count(s, x),
    decreases s.len() - n,
{
    if n < s.len() {
        lemma_count_prefix(s, n + 1, x);
        assert(s.subrange(0, n + 1).drop_last() == s.subrange(0, n));
    } else {
        assert(s.subrange(0, n) == s);
    }
}

/// The entry of `table` that holds `x`.
fn position_in_table(table: &Vec<NameCount>, x: &String) -> (r: usize)
    requires
        table_names(table@).contains(x@),
    ensures
        r < table@.len(),
        table@[r as int].name@ == x@,
{
    let ghost w = choose|w: int| 0 <= w < table@.len() && table_names(table@)[w] == x@;
    let mut k: usize = 0;
    while k < table.len()
        invariant
            0 <= w < table@.len(),
            table@[w].name@ == x@,
            k <= w,
        decreases table@.len() - k,
    {
        if table[k].name == *x {
            return k;
        }
        k = k + 1;
    }
    k
}

/// Gives every repeated column name a number: the first occurrence of a
/// name keeps it, the second becomes `"name [2]"`, the third `"name [3]"`,
/// and so on. Names that occur once, and the order of the columns, are kept.
pub fn deduplicate(cols: &Vec<String>) -> (r: Vec<String>)
    ensures
        names(r@) == deduplicated(names(cols@)),
{
    let ghost all = names(cols@);
    let table = get_frequency(cols);
    let mut running: Vec<usize> = Vec::new();
    while running.len() < table.len()
        invariant
            running@.len() <= table@.len(),
            forall|k: int| 0 <= k < running@.len() ==> running@[k] == 0,
        decreases table@.len() - running@.len(),
    {
        running.push(0);
    }
    let mut r: Vec<String> = Vec::new();
    let mut i: usize = 0;
    while i < cols.len()
        invariant
            i <= cols@.len(),
            all == names(cols@),
            running@.len() == table@.len(),
            forall|k: int| 0 <= k < table@.len() ==> table@[k].count == count(all, table@[k].name@),
            forall|a: int, b: int|
                0 <= a < b < table@.len() ==> table@[a].name@ != table@[b].name@,
            forall|j: int| 0 <= j < cols@.len() ==> #[trigger] table_names(table@).contains(
                cols@[j]@,
            ),
            forall|k: int|
                0 <= k < table@.len() && table@[k].count > 1 ==> #[trigger] running@[k] == count(
                    all.subrange(0, i as int),
                    table@[k].name@,
                ),
            forall|k: int| 0 <= k < table@.len() ==> #[trigger] running@[k] <= i,
            r@.len() == i,
            forall|j: int| 0 <= j < i ==> (#[trigger] r@[j])@ == dedup_name(all, j),
        decreases cols@.len() - i,
    {
        let ghost before = all.subrange(0, i as int);
        assert(all.subrange(0, i + 1) == before.push(all[i as int]));
        assert(all[i as int] == cols@[i as int]@);
        assert(table_names(table@).contains(cols@[i as int]@));
        let k = position_in_table(&table, &cols[i]);
        proof {
            assert forall|l: int| 0 <= l < table@.len() implies count(
                all.subrange(0, i + 1),
                table@[l].name@,
            ) == count(before, table@[l].name@) + if all[i as int] == table@[l].name@ {
                1nat
            } else {
                0nat
            } by {
                lemma_count_push(before, all[i as int], table@[l].name@);
            }
            lemma_count_prefix(all, i + 1, all[i as int]);
        }
        let mut name = cols[i].clone();
        assert(name@ == all[i as int]);
        if table[k].count > 1 {
            running.set(k, running[k] + 1);
            if running[k] > 1 {
                push_char(&mut name, ' ');
                push_char(&mut name, '[');
                push_decimal(&mut name, running[k]);
                push_char(&mut name, ']');
                assert(name@ == all[i as int] + seq![' ', '['] + decimal(running@[k as int] as nat)
                    + seq![']']);
            }
        }
        let ghost old_r = r@;
        r.push(name);
        assert forall|j: int| 0 <= j < i + 1 implies (#[trigger] r@[j])@ == dedup_name(all, j) by {
            if j < i {
                assert(r@[j] == old_r[j]);
            }
        }
        i = i + 1;
    }
    assert(names(r@) == deduplicated(all));
    r
}

/// A header whose names are all different comes out of the numbering
/// exactly as it went in.
pub proof fn lemma_unique_header_unchanged(cols: Seq<Seq<char>>)
    requires
        no_duplicates(cols),
    ensures
        deduplicated(cols) == cols,
{
    assert forall|i: int| 0 <= i < cols.len() implies dedup_name(cols, i) == cols[i] by {
        let before = cols.subrange(0, i);
        assert(cols.subrange(0, i + 1) == before.push(cols[i]));
        assert forall|j: int| 0 <= j < before.len() implies before[j] != cols[i] by {
            assert(before[j] == cols[j]);
        }
        lemma_count_absent(before, cols[i]);
        lemma_count_push(before, cols[i], cols[i]);
    }
    assert(deduplicated(cols) =~= cols);
}

/// Numbering a header a second time changes nothing, provided the first
/// numbering left no two names equal (a synthesized `"A [2]"` may meet a
/// column that was already called `"A [2]"`; then it does not hold).
pub proof fn lemma_deduplicate_idempotent(cols: Seq<Seq<char>>)
    requires
        no_duplicates(deduplicated(cols)),
    ensures
        deduplicated(deduplicated(cols)) == deduplicated(cols),
{
    lemma_unique_header_unchanged(deduplicated(cols));
}

/// No digit of a decimal notation is an opening bracket, and the notation
/// is never empty.
proof fn lemma_decimal_no_bracket(n: nat)
    ensures
        decimal(n).len() >= 1,
        n >= 10 ==> decimal(n).len() >= 2,
        forall|i: int| 0 <= i < decimal(n).len() ==> decimal(n)[i] != '[',
    decreases n,
{
    if n >= 10 {
        lemma_decimal_no_bracket(n / 10);
    }
}

/// Two numbers with the same decimal notation are equal.
proof fn lemma_decimal_injective(a: nat, b: nat)
    requires
        decimal(a) == decimal(b),
    ensures
        a == b,
    decreases a,
{
    lemma_decimal_no_bracket(a);
    lemma_decimal_no_bracket(b);
    if a >= 10 && b >= 10 {
        assert(decimal(a).drop_last() == decimal(a / 10));
        assert(decimal(b).drop_last() == decimal(b / 10));
        lemma_decimal_injective(a / 10, b / 10);
        assert(decimal(a).last() == digit_char((a % 10) as int));
        assert(decimal(b).last() == digit_char((b % 10) as int));
        lemma_digit_char_injective((a % 10) as int, (b % 10) as int);
        assert(a == (a / 10) * 10 + a % 10);
        assert(b == (b / 10) * 10 + b % 10);
    } else if a < 10 && b < 10 {
        assert(decimal(a)[0] == digit_char(a as int));
        assert(decimal(b)[0] == digit_char(b as int));
        lemma_digit_char_injective(a as int, b as int);
    }
}

/// Different digits have different characters.
proof fn lemma_digit_char_injective(x: int, y: int)
    requires
        0 <= x < 10,
        0 <= y < 10,
        digit_char(x) == digit_char(y),
    ensures
        x == y,
{
}

/// A numbered name determines both the name and the number.
proof fn lemma_numbered_injective(s1: Seq<char>, k1: nat, s2: Seq<char>, k2: nat)
    requires
        numbered(s1, k1) == numbered(s2, k2),
    ensures
        s1 == s2,
        k1 == k2,
{
    lemma_decimal_no_bracket(k1);
    lemma_decimal_no_bracket(k2);
    let t = numbered(s1, k1);
    let n1 = s1.len() as int;
    let n2 = s2.len() as int;
    let d1 = decimal(k1);
    let d2 = decimal(k2);
    assert(t.len() == s1.len() + d1.len() + 3);
    assert(t.len() == s2.len() + d2.len() + 3);
    assert(t[n1 + 1] == '[');
    assert(numbered(s2, k2)[n2 + 1] == '[');
    if s1.len() < s2.len() {
        assert(t[n2 + 1] == d1[n2 + 1 - n1 - 2]);
    } else if s2.len() < s1.len() {
        assert(numbered(s2, k2)[n1 + 1] == d2[n1 + 1 - n2 - 2]);
    }
    assert(s1 == t.subrange(0, s1.len() as int));
    assert(s2 == numbered(s2, k2).subrange(0, s2.len() as int));
    assert(d1 == t.subrange(n1 + 2, t.len() - 1));
    assert(d2 == numbered(s2, k2).subrange(n2 + 2, t.len() - 1));
    lemma_decimal_injective(k1, k2);
}

/// A later occurrence of a name has a higher occurrence number.
proof fn lemma_occurrence_grows(cols: Seq<Seq<char>>, i: int, j: int)
    requires
        0 <= i < j < cols.len(),
        cols[i] == cols[j],
    ensures
        occurrence(cols, j) >= occurrence(cols, i) + 1,
        occurrence(cols, j) >= 2,
{
    let x = cols[j];
    let pj = cols.subrange(0, j);
    assert(cols.subrange(0, j + 1) == pj.push(x));
    lemma_count_push(pj, x, x);
    lemma_count_prefix(pj, i + 1, x);
    assert(pj.subrange(0, i + 1) == cols.subrange(0, i + 1));
    lemma_count_present(cols.subrange(0, i + 1), i);
}

/// Where no column name is another column's name with a number suffix
/// `" [k]"` (`k >= 2`), the numbered header holds no two equal names.
pub proof fn lemma_deduplicated_unique(cols: Seq<Seq<char>>)
    requires
        forall|i: int, j: int, k: nat|
            #![trigger cols[j], numbered(cols[i], k)]
            0 <= i < cols.len() && 0 <= j < cols.len() && k >= 2 ==> cols[j] != numbered(cols[i], k),
    ensures
        no_duplicates(deduplicated(cols)),
{
    let d = deduplicated(cols);
    assert forall|i: int, j: int| 0 <= i < j < d.len() implies d[i] != d[j] by {
        let oi = occurrence(cols, i);
        let oj = occurrence(cols, j);
        if oi >= 2 && oj >= 2 {
            if d[i] == d[j] {
                assert(d[i] == numbered(cols[i], oi));
                assert(d[j] == numbered(cols[j], oj));
                lemma_numbered_injective(cols[i], oi, cols[j], oj);
                lemma_occurrence_grows(cols, i, j);
            }
        } else if oi >= 2 {
            assert(d[i] == numbered(cols[i], oi));
            assert(d[j] == cols[j]);
        } else if oj >= 2 {
            assert(d[j] == numbered(cols[j], oj));
            assert(d[i] == cols[i]);
        } else {
            if cols[i] == cols[j] {
                lemma_occurrence_grows(cols, i, j);
            }
        }
    }
}

/// The name as it stands in a header line: in quotes, as `{:?}` writes it,
/// where it holds the delimiter, and as it is otherwise.
pub open spec fn quoted(name: Seq<char>, delimiter: char) -> Seq<char> {
    if name.contains(delimiter) {
        debug_quoted(name)
    } else {
        name
    }
}

/// The parts, with `delimiter` between each two.
pub open spec fn join(parts: Seq<Seq<char>>, delimiter: char) -> Seq<char>
    decreases parts.len(),
{
    if parts.len() == 0 {
        Seq::empty()
    } else if parts.len() == 1 {
        parts[0]
    } else {
        join(parts.drop_last(), delimiter).push(delimiter) + parts.last()
    }
}

/// The fields of a line, each quoted where it holds the delimiter.
pub open spec fn quoted_all(fields: Seq<Seq<char>>, delimiter: char) -> Seq<Seq<char>> {
    fields.map_values(|f: Seq<char>| quoted(f, delimiter))
}

/// The header line written for the column names `cols`.
pub open spec fn header_line(cols: Seq<Seq<char>>, delimiter: char) -> Seq<char> {
    join(quoted_all(deduplicated(cols), delimiter), delimiter)
}

/// Whether `c` occurs in `s`.
fn contains_char(s: &str, c: char) -> (r: bool)
    ensures
        r == s@.contains(c),
{
    let cs = crate::text::chars_of(s);
    let mut i: usize = 0;
    while i < cs.len()
        invariant
            cs@ == s@,
            i <= cs@.len(),
            forall|j: int| 0 <= j < i ==> cs@[j] != c,
        decreases cs@.len() - i,
    {
        if cs[i] == c {
            return true;
        }
        i = i + 1;
    }
    false
}

/// Writes the fields as one line: `delimiter` between each two, and a field
/// that holds the delimiter in quotes.
pub fn join_fields(fields: &Vec<String>, delimiter: char) -> (r: String)
    ensures
        r@ == join(quoted_all(names(fields@), delimiter), delimiter),
{
    let ghost parts = quoted_all(names(fields@), delimiter);
    let mut r = String::new();
    let mut i: usize = 0;
    while i < fields.len()
        invariant
            i <= fields@.len(),
            parts == quoted_all(names(fields@), delimiter),
            r@ == join(parts.subrange(0, i as int), delimiter),
        decreases fields@.len() - i,
    {
        let field = fields[i].as_str();
        let part = if contains_char(field, delimiter) {
            debug_string(field)
        } else {
            field.to_owned()
        };
        assert(part@ == parts[i as int]);
        if i > 0 {
            push_char(&mut r, delimiter);
        }
        r.append(part.as_str());
        assert(parts.subrange(0, i + 1).drop_last() == parts.subrange(0, i as int));
        i = i + 1;
    }
    assert(parts.subrange(0, fields@.len() as int) == parts);
    r
}

/// The header line with numbered repeats: the line is split into column
/// names, repeated names are numbered, and the names are joined again
/// with the delimiter.
pub fn get_fields_without_duplication(line: &str, args: &Arguments) -> (r: String)
    ensures
        r@ == header_line(csv_fields(line@, delimiter_byte(args.delimiter)), args.delimiter),
{
    let cols = parse_line(line, args.delimiter);
    let fields = deduplicate(&cols);
    join_fields(&fields, args.delimiter)
}

} // verus!
