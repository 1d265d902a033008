//! Parsers for `name = value` lines of the text configuration files.
use vstd::prelude::*;

use crate::hash::{hash_text_bytes, is_hash_text, Md5Error, Md5Hash};
use crate::text::{parse_u32_text, same_text, split_once_on, split_once_text, u32_text_value, TextLines};

verus! {

/// A failure while parsing a text configuration file.
#[derive(Debug)]
pub enum ParserError {
    /// A line or a field that should be there is missing.
    Exhausted,
    /// A line names another attribute than the one expected: expected, found.
    AttributeName(&'static str, String),
    /// A field is not a hash.
    Md5Parse(Md5Error),
    /// A value could not be read.
    FromStr,
}

/// What went wrong, in terms of the text.
pub enum Failure {
    Exhausted,
    AttributeName(Seq<char>, Seq<char>),
    Md5Parse,
    FromStr,
}

/// Whether `e` reports the failure `f`.
pub open spec fn error_is(e: ParserError, f: Failure) -> bool {
    match f {
        Failure::Exhausted => e is Exhausted,
        Failure::AttributeName(want, got) => e matches ParserError::AttributeName(n, k) && n@
            == want && k@ == got,
        Failure::Md5Parse => e is Md5Parse,
        Failure::FromStr => e is FromStr,
    }
}

/// The separator between an attribute's name and its value.
pub open spec fn name_separator() -> Seq<char> {
    seq![' ', '=', ' ']
}

/// The first of the lines left, if any.
pub open spec fn first_line(rest: Seq<Seq<char>>) -> Option<Seq<char>> {
    if rest.len() > 0 {
        Some(rest[0])
    } else {
        None
    }
}

/// The lines left after one is read.
pub open spec fn after_line(rest: Seq<Seq<char>>) -> Seq<Seq<char>> {
    if rest.len() > 0 {
        rest.drop_first()
    } else {
        rest
    }
}

/// The value text of the line `name = value`.
pub open spec fn attribute_value(name: Seq<char>, line: Option<Seq<char>>) -> Result<
    Seq<char>,
    Failure,
> {
    match line {
        None => Err(Failure::Exhausted),
        Some(l) => match split_once_on(l, name_separator()) {
            None => Err(Failure::Exhausted),
            Some((key, value)) => {
                if key == name {
                    Ok(value)
                } else {
                    Err(Failure::AttributeName(name, key))
                }
            },
        },
    }
}

/// The hash that the line `name = hash` gives.
pub open spec fn hash_attribute(name: Seq<char>, line: Option<Seq<char>>) -> Result<
    Seq<u8>,
    Failure,
> {
    match attribute_value(name, line) {
        Err(f) => Err(f),
        Ok(v) => {
            if is_hash_text(v) {
                Ok(hash_text_bytes(v))
            } else {
                Err(Failure::FromStr)
            }
        },
    }
}

/// The two hashes that the line `name = hash hash` gives.
pub open spec fn hash_pair_attribute(name: Seq<char>, line: Option<Seq<char>>) -> Result<
    (Seq<u8>, Seq<u8>),
    Failure,
> {
    match attribute_value(name, line) {
        Err(f) => Err(f),
        Ok(v) => match split_once_on(v, seq![' ']) {
            None => Err(Failure::Exhausted),
            Some((a, b)) => {
                if is_hash_text(a) && is_hash_text(b) {
                    Ok((hash_text_bytes(a), hash_text_bytes(b)))
                } else {
                    Err(Failure::FromStr)
                }
            },
        },
    }
}

/// The two numbers that the line `name = n n` gives.
pub open spec fn size_pair_attribute(name: Seq<char>, line: Option<Seq<char>>) -> Result<
    (u32, u32),
    Failure,
> {
    match attribute_value(name, line) {
        Err(f) => Err(f),
        Ok(v) => match split_once_on(v, seq![' ']) {
            None => Err(Failure::Exhausted),
            Some((a, b)) => match (u32_text_value(a), u32_text_value(b)) {
                (Some(x), Some(y)) => Ok((x, y)),
                _ => Err(Failure::FromStr),
            },
        },
    }
}

/// Reads the next line and splits it as `name = value`.
fn named_value(name: &'static str, lines: &mut TextLines) -> (r: Result<String, ParserError>)
    requires
        old(lines).wf(),
    ensures
        final(lines).wf(),
        final(lines).rest() == after_line(old(lines).rest()),
        match attribute_value(name@, first_line(old(lines).rest())) {
            Ok(v) => r matches Ok(x) && x@ == v,
            Err(f) => r matches Err(e) && error_is(e, f),
        },
{
    let line = match lines.next_line() {
        Some(l) => l,
        None => {
            return Err(ParserError::Exhausted);
        },
    };
    proof {
        reveal_strlit(" = ");
        assert(" = "@ =~= name_separator());
    }
    match split_once_text(line.as_str(), " = ") {
        None => Err(ParserError::Exhausted),
        Some((key, value)) => {
            if !same_text(name, key.as_str()) {
                return Err(ParserError::AttributeName(name, key));
            }
            Ok(value)
        },
    }
}

/// Parses the next line as `name = hash`.
pub fn parse_named_attribute(name: &'static str, lines: &mut TextLines) -> (r: Result<
    Md5Hash,
    ParserError,
>)
    requires
        old(lines).wf(),
    ensures
        final(lines).wf(),
        final(lines).rest() == after_line(old(lines).rest()),
        match hash_attribute(name@, first_line(old(lines).rest())) {
            Ok(h) => r matches Ok(x) && x@ == h,
            Err(f) => r matches Err(e) && error_is(e, f),
        },
{
    let value = named_value(name, lines)?;
    match Md5Hash::from_str(value.as_str()) {
        Ok(h) => Ok(h),
        Err(_) => Err(ParserError::FromStr),
    }
}

/// Parses the next line as `name = hash hash`.
pub fn parse_named_attribute_pair(name: &'static str, lines: &mut TextLines) -> (r: Result<
    (Md5Hash, Md5Hash),
    ParserError,
>)
    requires
        old(lines).wf(),
    ensures
        final(lines).wf(),
        final(lines).rest() == after_line(old(lines).rest()),
        match hash_pair_attribute(name@, first_line(old(lines).rest())) {
            Ok((a, b)) => r matches Ok((x, y)) && x@ == a && y@ == b,
            Err(f) => r matches Err(e) && error_is(e, f),
        },
{
    let value = named_value(name, lines)?;
    proof {
        reveal_strlit(" ");
        assert(" "@ =~= seq![' ']);
    }
    let (first, second) = match split_once_text(value.as_str(), " ") {
        Some(p) => p,
        None => {
            return Err(ParserError::Exhausted);
        },
    };
    let a = match Md5Hash::from_str(first.as_str()) {
        Ok(h) => h,
        Err(_) => {
            return Err(ParserError::FromStr);
        },
    };
    let b = match Md5Hash::from_str(second.as_str()) {
        Ok(h) => h,
        Err(_) => {
            return Err(ParserError::FromStr);
        },
    };
    Ok((a, b))
}

/// Parses the next line as `name = n n`, two decimal `u32` values.
pub fn parse_named_size_pair(name: &'static str, lines: &mut TextLines) -> (r: Result<
    (u32, u32),
    ParserError,
>)
    requires
        old(lines).wf(),
    ensures
        final(lines).wf(),
        final(lines).rest() == after_line(old(lines).rest()),
        match size_pair_attribute(name@, first_line(old(lines).rest())) {
            Ok(p) => r == Ok::<(u32, u32), ParserError>(p),
            Err(f) => r matches Err(e) && error_is(e, f),
        },
{
    let value = named_value(name, lines)?;
    proof {
        reveal_strlit(" ");
        assert(" "@ =~= seq![' ']);
    }
    let (first, second) = match split_once_text(value.as_str(), " ") {
        Some(p) => p,
        None => {
            return Err(ParserError::Exhausted);
        },
    };
    let a = match parse_u32_text(first.as_str()) {
        Some(v) => v,
        None => {
            return Err(ParserError::FromStr);
        },
    };
    let b = match parse_u32_text(second.as_str()) {
        Some(v) => v,
        None => {
            return Err(ParserError::FromStr);
        },
    };
    Ok((a, b))
}

} // verus!
