//! Normalization of PER/DCOMP CSV exports: byte decoding, header
//! deduplication, and the field decoders used when loading records.

pub mod args;
pub mod decode;
pub mod fields;
pub mod header;
pub mod normalize;
pub mod period;
pub mod text;

pub use args::Arguments;
pub use decode::{get_first_line, get_string_utf8, DecodeError};
pub use fields::{monetary_text, string_as_date, Date, DateError};
pub use header::{
    deduplicate, get_fields_without_duplication, get_frequency, join_fields, parse_line, NameCount,
};
pub use normalize::{format_input_csv_file, normalize_line};
pub use period::Period;
