//! Font-level metadata as the extraction service reports it, and the parser
//! for its line-oriented output: a JSON-encoded name line, then the ascender
//! and descender as decimal integers.

use vstd::prelude::*;

use crate::strutil::{int_str_val, lines, lines_of, parse_i32, valid_int_str};

verus! {

/// Font-level metadata: display name and vertical metrics.
#[derive(Debug)]
pub struct Metadata {
    pub name: String,
    pub ascender: i32,
    pub descender: i32,
}

/// The mathematical value of a `Metadata`.
#[verifier::ext_equal]
pub struct MetadataView {
    pub name: Seq<char>,
    pub ascender: i32,
    pub descender: i32,
}

impl View for Metadata {
    type V = MetadataView;

    open spec fn view(&self) -> MetadataView {
        MetadataView { name: self.name@, ascender: self.ascender, descender: self.descender }
    }
}

impl Clone for Metadata {
    fn clone(&self) -> (r: Self)
        ensures
            r@ == self@,
    {
        Metadata { name: self.name.clone(), ascender: self.ascender, descender: self.descender }
    }
}

#[verifier::external_type_specification]
#[verifier::external_body]
pub struct ExJsonError(serde_json::Error);

/// Why a metadata listing was rejected, and on which line.
#[derive(Debug, PartialEq, Eq, Structural)]
pub enum MetadataError {
    MissingName,
    InvalidName,
    MissingAscender,
    InvalidAscender,
    MissingDescender,
    InvalidDescender,
}

/// What parsing a text as one JSON document yields: nothing for malformed
/// JSON, a document that is not a string, or the string's content.
pub uninterp spec fn json_str_parse(s: Seq<char>) -> Option<Option<Seq<char>>>;

/// Relies on `serde_json::from_str` and `serde_json::Value::as_str`: parses
/// one JSON document from the text and takes its content when it is a JSON
/// string; both are functions of the text alone.
#[verifier::external_body]
fn parse_json_value_str(s: &str) -> (r: Result<Option<String>, serde_json::Error>)
    ensures
        r is Ok <==> json_str_parse(s@) is Some,
        match r {
            Ok(v) => match (v, json_str_parse(s@)) {
                (Some(x), Some(Some(y))) => x@ == y,
                (None, Some(None)) => true,
                _ => false,
            },
            Err(_) => true,
        },
{
    match serde_json::from_str::<serde_json::Value>(s) {
        Ok(v) => Ok(v.as_str().map(|x| x.to_string())),
        Err(e) => Err(e),
    }
}

/// Parses the extraction service's metadata listing: the first line is the
/// font's name as one JSON document (a non-string document reads as the
/// empty name), the second and third lines are the ascender and descender as
/// decimal integers. Errors say exactly which line is missing or malformed.
pub fn parse_metadata(output: &str) -> (r: Result<Metadata, MetadataError>)
    ensures
        ({
            let ls = lines_of(output@);
            match r {
                Ok(m) => {
                    &&& ls.len() >= 3
                    &&& json_str_parse(ls[0]) is Some
                    &&& m@.name == match json_str_parse(ls[0]) {
                        Some(Some(t)) => t,
                        _ => Seq::<char>::empty(),
                    }
                    &&& valid_int_str(ls[1]) && -0x8000_0000 <= int_str_val(ls[1]) <= 0x7fff_ffff
                    &&& m@.ascender == int_str_val(ls[1])
                    &&& valid_int_str(ls[2]) && -0x8000_0000 <= int_str_val(ls[2]) <= 0x7fff_ffff
                    &&& m@.descender == int_str_val(ls[2])
                },
                Err(e) => match e {
                    MetadataError::MissingName => ls.len() == 0,
                    MetadataError::InvalidName => ls.len() >= 1 && json_str_parse(ls[0]) is None,
                    MetadataError::MissingAscender => ls.len() == 1 && json_str_parse(ls[0]) is Some,
                    MetadataError::InvalidAscender => {
                        &&& ls.len() >= 2
                        &&& json_str_parse(ls[0]) is Some
                        &&& !(valid_int_str(ls[1]) && -0x8000_0000 <= int_str_val(ls[1])
                            <= 0x7fff_ffff)
                    },
                    MetadataError::MissingDescender => {
                        &&& ls.len() == 2
                        &&& json_str_parse(ls[0]) is Some
                        &&& valid_int_str(ls[1]) && -0x8000_0000 <= int_str_val(ls[1])
                            <= 0x7fff_ffff
                    },
                    MetadataError::InvalidDescender => {
                        &&& ls.len() >= 3
                        &&& json_str_parse(ls[0]) is Some
                        &&& valid_int_str(ls[1]) && -0x8000_0000 <= int_str_val(ls[1])
                            <= 0x7fff_ffff
                        &&& !(valid_int_str(ls[2]) && -0x8000_0000 <= int_str_val(ls[2])
                            <= 0x7fff_ffff)
                    },
                },
            }
        }),
{
    let ls = lines(output);
    if ls.len() == 0 {
        return Err(MetadataError::MissingName);
    }
    let name = match parse_json_value_str(ls[0].as_str()) {
        Ok(Some(n)) => n,
        Ok(None) => String::new(),
        Err(_) => {
            return Err(MetadataError::InvalidName);
        },
    };
    if ls.len() == 1 {
        return Err(MetadataError::MissingAscender);
    }
    let ascender = match parse_i32(ls[1].as_str()) {
        Some(v) => v,
        None => {
            return Err(MetadataError::InvalidAscender);
        },
    };
    if ls.len() == 2 {
        return Err(MetadataError::MissingDescender);
    }
    let descender = match parse_i32(ls[2].as_str()) {
        Some(v) => v,
        None => {
            return Err(MetadataError::InvalidDescender);
        },
    };
    Ok(Metadata { name, ascender, descender })
}

} // verus!
