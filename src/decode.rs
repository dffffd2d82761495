//! Turning the raw bytes of one line into text: UTF-8 first, Windows-1252
//! when the bytes are not valid UTF-8.

use vstd::prelude::*;
use vstd::utf8::{decode_utf8, encode_utf8, encode_utf8_decode_utf8, valid_utf8};

verus! {

/// A line that neither UTF-8 nor the Windows-1252 fallback could turn into text.
#[derive(Debug, Clone)]
pub struct DecodeError {
    /// The line's number in its file (the first line is 1; 0 for a header read alone).
    pub line_number: usize,
    /// The file the line was read from.
    pub path: String,
}

/// The code point that Windows-1252, as `encoding_rs` defines it, gives
/// the byte `b`: bytes below 0x80 and from 0xA0 on stand for themselves,
/// and 0x80 to 0x9F follow the table of the encoding.
pub open spec fn windows_1252_code(b: u8) -> u32 {
    if b < 0x80 || b >= 0xa0 {
        b as u32
    } else if b == 0x80 {
        0x20ac
    } else if b == 0x81 {
        0x0081
    } else if b == 0x82 {
        0x201a
    } else if b == 0x83 {
        0x0192
    } else if b == 0x84 {
        0x201e
    } else if b == 0x85 {
        0x2026
    } else if b == 0x86 {
        0x2020
    } else if b == 0x87 {
        0x2021
    } else if b == 0x88 {
        0x02c6
    } else if b == 0x89 {
        0x2030
    } else if b == 0x8a {
        0x0160
    } else if b == 0x8b {
        0x2039
    } else if b == 0x8c {
        0x0152
    } else if b == 0x8d {
        0x008d
    } else if b == 0x8e {
        0x017d
    } else if b == 0x8f {
        0x008f
    } else if b == 0x90 {
        0x0090
    } else if b == 0x91 {
        0x2018
    } else if b == 0x92 {
        0x2019
    } else if b == 0x93 {
        0x201c
    } else if b == 0x94 {
        0x201d
    } else if b == 0x95 {
        0x2022
    } else if b == 0x96 {
        0x2013
    } else if b == 0x97 {
        0x2014
    } else if b == 0x98 {
        0x02dc
    } else if b == 0x99 {
        0x2122
    } else if b == 0x9a {
        0x0161
    } else if b == 0x9b {
        0x203a
    } else if b == 0x9c {
        0x0153
    } else if b == 0x9d {
        0x009d
    } else if b == 0x9e {
        0x017e
    } else {
        0x0178
    }
}

/// The text that Windows-1252 gives for `bytes`: one character per byte.
pub open spec fn windows_1252_text(bytes: Seq<u8>) -> Seq<char> {
    bytes.map_values(|b: u8| windows_1252_code(b) as char)
}

/// The text of a line: its UTF-8 reading where the bytes are valid UTF-8,
/// its Windows-1252 reading otherwise.
pub open spec fn decoded(b: Seq<u8>) -> Seq<char> {
    if valid_utf8(b) {
        decode_utf8(b)
    } else {
        windows_1252_text(b)
    }
}

/// Relies on `std::str::from_utf8`: it succeeds exactly on valid UTF-8, and
/// the string it returns is made of the same bytes.
#[verifier::external_body]
fn utf8_str(bytes: &[u8]) -> (r: Option<&str>)
    ensures
        r is Some <==> valid_utf8(bytes@),
        r matches Some(s) ==> encode_utf8(s@) == bytes@,
{
    std::str::from_utf8(bytes).ok()
}

/// Relies on `encoding_rs_io::DecodeReaderBytes` with the explicit encoding
/// `encoding_rs::WINDOWS_1252`, read to the end into a `String`: an explicit
/// encoding turns BOM sniffing off, a single-byte encoding removes no BOM,
/// every byte maps to one character, and reading a byte slice does not fail.
#[verifier::external_body]
fn windows_1252_string(bytes: &[u8]) -> (r: Option<String>)
    ensures
        r is Some,
        r matches Some(s) ==> s@ == windows_1252_text(bytes@),
{
    let mut reader = encoding_rs_io::DecodeReaderBytesBuilder::new()
        .encoding(Some(encoding_rs::WINDOWS_1252))
        .build(bytes);
    let mut text = String::new();
    match std::io::Read::read_to_string(&mut reader, &mut text) {
        Ok(_) => Some(text),
        Err(_) => None,
    }
}

/// Converts the bytes of one line to text. Valid UTF-8 is taken as it
/// stands; any other line is decoded as Windows-1252, so files whose lines
/// mix the two encodings come out as UTF-8 throughout. Every byte sequence
/// decodes in one of the two ways, so no line is rejected.
pub fn get_string_utf8(slice_bytes: &[u8], line_number: usize, path: &str) -> (r: Result<
    String,
    DecodeError,
>)
    ensures
        valid_utf8(slice_bytes@) ==> (r matches Ok(s) && s@ == decode_utf8(slice_bytes@)),
        !valid_utf8(slice_bytes@) ==> (r matches Ok(s) && s@ == windows_1252_text(slice_bytes@)),
{
    match utf8_str(slice_bytes) {
        Some(s) => {
            proof {
                encode_utf8_decode_utf8(s@);
            }
            Ok(s.to_owned())
        },
        None => match windows_1252_string(slice_bytes) {
            Some(text) => Ok(text),
            None => Err(DecodeError { line_number, path: path.to_owned() }),
        },
    }
}

/// The bytes that `u8::is_ascii_whitespace` accepts: space, tab, line feed,
/// form feed and carriage return.
pub open spec fn is_ascii_white(b: u8) -> bool {
    b == 0x20 || b == 0x09 || b == 0x0a || b == 0x0c || b == 0x0d
}

/// `b` without leading and trailing ASCII white space.
pub open spec fn trim_ascii(b: Seq<u8>) -> Seq<u8>
    decreases b.len(),
{
    if b.len() > 0 && is_ascii_white(b[0]) {
        trim_ascii(b.drop_first())
    } else if b.len() > 0 && is_ascii_white(b.last()) {
        trim_ascii(b.drop_last())
    } else {
        b
    }
}

/// Relies on `claudiofsr_lib::BytesExtension::trim` for `[u8]`: the slice from
/// the first to the last byte that is not ASCII white space, empty when there is none.
#[verifier::external_body]
fn trim_bytes(bytes: &[u8]) -> (r: &[u8])
    ensures
        r@ == trim_ascii(bytes@),
{
    <[u8] as claudiofsr_lib::BytesExtension>::trim(bytes)
}

/// The text of a file's first line, given its bytes as read up to and
/// including the first newline: surrounding ASCII white space (the line
/// break among it) is removed, then the bytes are decoded as line 0.
pub fn get_first_line(first_line: &[u8], path: &str) -> (r: Result<String, DecodeError>)
    ensures
        valid_utf8(trim_ascii(first_line@)) ==> (r matches Ok(s) && s@ == decode_utf8(
            trim_ascii(first_line@),
        )),
        !valid_utf8(trim_ascii(first_line@)) ==> (r matches Ok(s) && s@ == windows_1252_text(
            trim_ascii(first_line@),
        )),
{
    get_string_utf8(trim_bytes(first_line), 0, path)
}

} // verus!
