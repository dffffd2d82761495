//! Normalizing a whole CSV file: every line decoded to UTF-8, the header
//! line corrected and its repeated column names numbered.

use vstd::prelude::*;
use vstd::string::StringExecFns;
use crate::args::Arguments;
use crate::decode::{decoded, get_string_utf8, DecodeError};
use crate::header::{csv_fields, delimiter_byte, get_fields_without_duplication, header_line};
use crate::text::{push_char, replace_all, replace_text};

verus! {

/// A column name that some exports misspell in their header.
pub const MISLABELED_COLUMN: &'static str = "UA Detentor Crédito";

/// The spelling that the header gets instead.
pub const CANONICAL_COLUMN: &'static str = "UA Detentor do Crédito";

/// The lines of `b` after the partial line `cur`, as splitting at each
/// newline byte gives them: the newline is dropped, and a last line that
/// no newline ends is kept when it is not empty.
pub open spec fn split_from(b: Seq<u8>, cur: Seq<u8>) -> Seq<Seq<u8>>
    decreases b.len(),
{
    if b.len() == 0 {
        if cur.len() == 0 {
            Seq::empty()
        } else {
            seq![cur]
        }
    } else if b[0] == 10 {
        seq![cur] + split_from(b.drop_first(), Seq::empty())
    } else {
        split_from(b.drop_first(), cur.push(b[0]))
    }
}

/// The lines of the file content `b`.
pub open spec fn split_lines(b: Seq<u8>) -> Seq<Seq<u8>> {
    split_from(b, Seq::empty())
}

/// The line written for the line `text` at `index`: the header line (index
/// 0) with its misspelled column corrected and repeated names numbered;
/// any other line as it is.
pub open spec fn normalized_line(index: int, text: Seq<char>, delimiter: char) -> Seq<char> {
    if index == 0 {
        header_line(
            csv_fields(
                replace_all(text, MISLABELED_COLUMN@, CANONICAL_COLUMN@),
                delimiter_byte(delimiter),
            ),
            delimiter,
        )
    } else {
        text
    }
}

/// The normalized file for the raw lines `lines`: each line normalized and
/// ended by a newline.
pub open spec fn normalized_lines(lines: Seq<Seq<u8>>, delimiter: char) -> Seq<char>
    decreases lines.len(),
{
    if lines.len() == 0 {
        Seq::empty()
    } else {
        normalized_lines(lines.drop_last(), delimiter) + normalized_line(
            lines.len() - 1,
            decoded(lines.last()),
            delimiter,
        ).push('\n')
    }
}

/// The lines `lines` decoded and each ended by a newline, with no other change.
pub open spec fn body_text(lines: Seq<Seq<u8>>) -> Seq<char>
    decreases lines.len(),
{
    if lines.len() == 0 {
        Seq::empty()
    } else {
        body_text(lines.drop_last()) + decoded(lines.last()).push('\n')
    }
}

/// A normalized file is its header line, corrected and with repeated names
/// numbered, followed by every other line decoded and otherwise unchanged,
/// each line ended by a newline.
pub proof fn lemma_normalized_file_shape(lines: Seq<Seq<u8>>, delimiter: char)
    requires
        lines.len() >= 1,
    ensures
        normalized_lines(lines, delimiter) == normalized_line(0, decoded(lines[0]), delimiter).push(
            '\n',
        ) + body_text(lines.drop_first()),
    decreases lines.len(),
{
    if lines.len() == 1 {
        assert(lines.drop_last().len() == 0);
        assert(lines.drop_first().len() == 0);
        assert(normalized_lines(lines.drop_last(), delimiter) == Seq::<char>::empty());
        assert(body_text(lines.drop_first()) == Seq::<char>::empty());
        assert(lines.last() == lines[0]);
        let h = normalized_line(0, decoded(lines[0]), delimiter).push('\n');
        assert(Seq::<char>::empty() + h == h);
        assert(h + Seq::<char>::empty() == h);
    } else {
        let shorter = lines.drop_last();
        lemma_normalized_file_shape(shorter, delimiter);
        assert(shorter[0] == lines[0]);
        assert(lines.drop_first().drop_last() == shorter.drop_first());
        assert(lines.drop_first().last() == lines.last());
    }
}

/// Normalizes the decoded line `text` found at `index` (0 for the header).
pub fn normalize_line(index: usize, text: &str, args: &Arguments) -> (r: String)
    ensures
        r@ == normalized_line(index as int, text@, args.delimiter),
{
    if index == 0 {
        proof {
            reveal_strlit("UA Detentor Crédito");
        }
        let corrected = replace_text(text, MISLABELED_COLUMN, CANONICAL_COLUMN);
        get_fields_without_duplication(corrected.as_str(), args)
    } else {
        text.to_owned()
    }
}

/// Normalizes the whole content of a CSV file, read from `path`: each line
/// is decoded, the header line is corrected and its repeated names are
/// numbered, and every line is written back followed by a newline.
/// Every line decodes (as UTF-8 or as Windows-1252), so it always succeeds.
pub fn format_input_csv_file(args: &Arguments, content: &[u8], path: &str) -> (r: Result<
    String,
    DecodeError,
>)
    ensures
        r matches Ok(s) && s@ == normalized_lines(split_lines(content@), args.delimiter),
{
    let ghost lines = split_lines(content@);
    let n = content.len();
    let mut out = String::new();
    let mut start: usize = 0;
    let mut index: usize = 0;
    let mut i: usize = 0;
    let ghost mut done: Seq<Seq<u8>> = Seq::empty();
    assert(content@.subrange(0, n as int) == content@);
    assert(content@.subrange(0, 0) == Seq::<u8>::empty());
    assert(done + lines == lines);
    while i < n
        invariant
            n == content@.len(),
            lines == split_lines(content@),
            start <= i <= n,
            index <= start,
            done.len() == index,
            done + split_from(content@.subrange(i as int, n as int), content@.subrange(start as int, i as int)) == lines,
            out@ == normalized_lines(done, args.delimiter),
        decreases n - i,
    {
        let ghost rest = content@.subrange(i as int, n as int);
        let ghost cur = content@.subrange(start as int, i as int);
        assert(rest.drop_first() == content@.subrange(i + 1, n as int));
        if content[i] == 10 {
            let line = &content[start..i];
            assert(lines == done.push(cur) + split_from(content@.subrange(i + 1, n as int), Seq::empty()));
            assert(lines[index as int] == cur);
            match get_string_utf8(line, index + 1, path) {
                Ok(text) => {
                    let normalized = normalize_line(index, text.as_str(), args);
                    out.append(normalized.as_str());
                    push_char(&mut out, '\n');
                    proof {
                        assert(done.push(cur).drop_last() == done);
                        assert(text@ == decoded(cur));
                    }
                },
                Err(e) => {
                    return Err(e);
                },
            }
            proof {
                done = done.push(cur);
                assert(content@.subrange(i + 1, i + 1) == Seq::<u8>::empty());
            }
            index = index + 1;
            start = i + 1;
        } else {
            assert(content@.subrange(start as int, i + 1) == cur.push(content@[i as int]));
        }
        i = i + 1;
    }
    if start < n {
        let ghost cur = content@.subrange(start as int, n as int);
        let line = &content[start..n];
        assert(lines == done.push(cur));
        assert(lines[index as int] == cur);
        match get_string_utf8(line, index + 1, path) {
            Ok(text) => {
                let normalized = normalize_line(index, text.as_str(), args);
                out.append(normalized.as_str());
                push_char(&mut out, '\n');
                proof {
                    assert(done.push(cur).drop_last() == done);
                    assert(text@ == decoded(cur));
                }
            },
            Err(e) => {
                return Err(e);
            },
        }
    } else {
        assert(done == lines);
    }
    Ok(out)
}

} // verus!
