//! What one run selects: the files, the field delimiter, and which unit of
//! each line the position list indexes.

use crate::positions::{message, parse_pos, parse_spec, positions_view, PositionList};
use vstd::prelude::*;
use vstd::string::StringSliceAdditionalSpecFns;

verus! {

/// The unit of a line that a position list indexes, with that list.
#[derive(Debug)]
pub enum Extract {
    Fields(PositionList),
    Bytes(PositionList),
    Chars(PositionList),
}

/// The settings of one run.
#[derive(Debug)]
pub struct Config {
    pub files: Vec<String>,
    pub delimiter: u8,
    pub extract: Extract,
}

/// The message for a delimiter that is not a single byte.
pub open spec fn delimiter_message(d: Seq<char>) -> Seq<char> {
    "--delim \""@ + d + "\" must be a single byte"@
}

/// The message when no selection is given.
pub open spec fn missing_message() -> Seq<char> {
    "Must have --fields, --bytes, or --chars"@
}

/// The position list of `e`, whatever unit it indexes.
pub open spec fn extract_positions(e: Extract) -> Seq<(int, int)> {
    match e {
        Extract::Fields(l) => positions_view(l@),
        Extract::Bytes(l) => positions_view(l@),
        Extract::Chars(l) => positions_view(l@),
    }
}

/// Whether `r` is what parsing `spec` gives: a configuration whose
/// selection has the parsed list, or the message of the parse failure.
pub open spec fn follows_parse(r: Result<Config, String>, spec: Seq<char>) -> bool {
    match parse_spec(spec) {
        Ok(l) => r is Ok && extract_positions(r->Ok_0.extract) == l,
        Err(e) => r is Err && r->Err_0@ == message(e),
    }
}

/// Builds the settings of a run from the values given for each option: the
/// delimiter must be a single byte, and the first of `bytes`, `chars`,
/// `fields` that is given decides the selection.
pub fn build_config(
    files: Vec<String>,
    delimiter: &str,
    bytes: Option<&str>,
    chars: Option<&str>,
    fields: Option<&str>,
) -> (r: Result<Config, String>)
    ensures
        delimiter.spec_bytes().len() != 1 ==> r is Err && r->Err_0@ == delimiter_message(
            delimiter@,
        ),
        delimiter.spec_bytes().len() == 1 ==> {
            &&& r is Ok ==> r->Ok_0.files@ == files@ && r->Ok_0.delimiter
                == delimiter.spec_bytes()[0]
            &&& bytes is Some ==> follows_parse(r, bytes->0@) && (r is Ok ==> r->Ok_0.extract is Bytes)
            &&& bytes is None && chars is Some ==> follows_parse(r, chars->0@) && (r is Ok
                ==> r->Ok_0.extract is Chars)
            &&& bytes is None && chars is None && fields is Some ==> follows_parse(r, fields->0@)
                && (r is Ok ==> r->Ok_0.extract is Fields)
            &&& bytes is None && chars is None && fields is None ==> r is Err && r->Err_0@
                == missing_message()
        },
{
    if delimiter.len() != 1 {
        let mut m = "--delim \"".to_owned();
        m.append(delimiter);
        m.append("\" must be a single byte");
        return Err(m);
    }
    let d = delimiter.as_bytes()[0];
    let (spec, kind) = match (bytes, chars, fields) {
        (Some(b), _, _) => (b, 0u8),
        (None, Some(c), _) => (c, 1u8),
        (None, None, Some(f)) => (f, 2u8),
        (None, None, None) => {
            return Err("Must have --fields, --bytes, or --chars".to_owned());
        },
    };
    let list = match parse_pos(spec) {
        Ok(l) => l,
        Err(e) => return Err(e.to_string()),
    };
    let extract = if kind == 0 {
        Extract::Bytes(list)
    } else if kind == 1 {
        Extract::Chars(list)
    } else {
        Extract::Fields(list)
    };
    Ok(Config { files, delimiter: d, extract })
}

} // verus!
