//! The grammar as a function: what decoding a buffer from a position gives.
//!
//! ```text
//! value      = integer / bytestring / list / dictionary
//! integer    = "i" ["-"] number "e"
//! bytestring = number ":" OCTET*(number)
//! list       = "l" *value "e"
//! dictionary = "d" *(bytestring value) "e"
//! number     = "0" / (nonzero-digit *digit)
//! ```

use super::model::{
    decimal_value, integer_value, is_decimal, is_digit, is_integer_text, Value, BYTE_COLON, BYTE_D,
    BYTE_E, BYTE_I, BYTE_L,
};
use super::ErrorKind;
use vstd::prelude::*;

verus! {

/// What decoding gives: the value and the position behind it, or the kind
/// of the first fault.
pub type Parsed<T> = Result<(T, int), ErrorKind>;

/// The first position at or after `from` at which `b` holds `delimiter`.
pub open spec fn find_byte(b: Seq<u8>, from: int, delimiter: u8) -> Option<int>
    decreases b.len() - from,
{
    if from < 0 || from >= b.len() {
        None
    } else if b[from] == delimiter {
        Some(from)
    } else {
        find_byte(b, from + 1, delimiter)
    }
}

/// An integer, whose `i` stands at `pos`.
///
/// The text runs to the first `e`. Without one the fault is
/// `MissingDelimiter`; a text that is no integer of the grammar is
/// `InvalidInteger`; one that denotes a number outside 64 bits is
/// `IntegerOverflow`.
pub open spec fn parse_integer(b: Seq<u8>, pos: int) -> Parsed<Value> {
    match find_byte(b, pos + 1, BYTE_E) {
        None => Err(ErrorKind::MissingDelimiter),
        Some(end) => {
            let text = b.subrange(pos + 1, end);
            if !is_integer_text(text) {
                Err(ErrorKind::InvalidInteger)
            } else if !(i64::MIN <= integer_value(text) <= i64::MAX) {
                Err(ErrorKind::IntegerOverflow)
            } else {
                Ok((Value::Integer(integer_value(text)), end + 1))
            }
        },
    }
}

/// A byte string, whose length prefix starts at `pos`.
///
/// The prefix runs to the first `:`. Without one the fault is
/// `MissingDelimiter`; a prefix that is no number of the grammar is
/// `InvalidLengthPrefix`; a length that reaches past the end of the buffer
/// is `UnexpectedEnd`.
pub open spec fn parse_bytes(b: Seq<u8>, pos: int) -> Parsed<Seq<u8>> {
    match find_byte(b, pos, BYTE_COLON) {
        None => Err(ErrorKind::MissingDelimiter),
        Some(colon) => {
            let text = b.subrange(pos, colon);
            let n = decimal_value(text, text.len() as int);
            if !is_decimal(text) {
                Err(ErrorKind::InvalidLengthPrefix)
            } else if colon + 1 + n > b.len() {
                Err(ErrorKind::UnexpectedEnd)
            } else {
                Ok((b.subrange(colon + 1, colon + 1 + n), colon + 1 + n))
            }
        },
    }
}

/// The value that starts at `pos`, with at most `depth` containers nested
/// in it.
///
/// The byte at `pos` selects the production. At the end of the buffer the
/// fault is `UnexpectedEnd`, at a byte that starts no value
/// `InvalidLeadByte`, and at a list or dictionary where `depth` is 0
/// `NestingTooDeep`.
pub open spec fn parse_value(b: Seq<u8>, pos: int, depth: nat) -> Parsed<Value>
    decreases b.len() - pos, 0nat,
{
    if pos < 0 || pos >= b.len() {
        Err(ErrorKind::UnexpectedEnd)
    } else if b[pos] == BYTE_I {
        parse_integer(b, pos)
    } else if is_digit(b[pos]) {
        match parse_bytes(b, pos) {
            Ok((s, end)) => Ok((Value::ByteString(s), end)),
            Err(e) => Err(e),
        }
    } else if b[pos] == BYTE_L {
        if depth == 0 {
            Err(ErrorKind::NestingTooDeep)
        } else {
            match parse_items(b, pos + 1, (depth - 1) as nat) {
                Ok((items, end)) => Ok((Value::List(items), end)),
                Err(e) => Err(e),
            }
        }
    } else if b[pos] == BYTE_D {
        if depth == 0 {
            Err(ErrorKind::NestingTooDeep)
        } else {
            match parse_entries(b, pos + 1, (depth - 1) as nat) {
                Ok((entries, end)) => Ok((Value::Dictionary(entries), end)),
                Err(e) => Err(e),
            }
        }
    } else {
        Err(ErrorKind::InvalidLeadByte)
    }
}

/// The items of a list from `pos` up to its closing `e`, each with at most
/// `depth` containers nested in it.
pub open spec fn parse_items(b: Seq<u8>, pos: int, depth: nat) -> Parsed<Seq<Value>>
    decreases b.len() - pos, 1nat,
{
    if pos < 0 || pos >= b.len() {
        Err(ErrorKind::UnexpectedEnd)
    } else if b[pos] == BYTE_E {
        Ok((Seq::empty(), pos + 1))
    } else {
        match parse_value(b, pos, depth) {
            Err(e) => Err(e),
            Ok((item, next)) => {
                if next <= pos || next > b.len() {
                    Err(ErrorKind::UnexpectedEnd)
                } else {
                    match parse_items(b, next, depth) {
                        Err(e) => Err(e),
                        Ok((rest, end)) => Ok((seq![item] + rest, end)),
                    }
                }
            },
        }
    }
}

/// The entries of a dictionary from `pos` up to its closing `e`, in the
/// order of the text. Each key is decoded as a value; one that is no byte
/// string is the fault `InvalidDictionaryKey`.
pub open spec fn parse_entries(b: Seq<u8>, pos: int, depth: nat) -> Parsed<Seq<(Seq<u8>, Value)>>
    decreases b.len() - pos, 1nat,
{
    if pos < 0 || pos >= b.len() {
        Err(ErrorKind::UnexpectedEnd)
    } else if b[pos] == BYTE_E {
        Ok((Seq::empty(), pos + 1))
    } else {
        match parse_value(b, pos, depth) {
            Err(e) => Err(e),
            Ok((Value::ByteString(key), key_end)) => {
                if key_end <= pos || key_end > b.len() {
                    Err(ErrorKind::UnexpectedEnd)
                } else {
                    match parse_value(b, key_end, depth) {
                        Err(e) => Err(e),
                        Ok((value, next)) => {
                            if next <= key_end || next > b.len() {
                                Err(ErrorKind::UnexpectedEnd)
                            } else {
                                match parse_entries(b, next, depth) {
                                    Err(e) => Err(e),
                                    Ok((rest, end)) => Ok((seq![(key, value)] + rest, end)),
                                }
                            }
                        },
                    }
                }
            },
            Ok(_) => Err(ErrorKind::InvalidDictionaryKey),
        }
    }
}

} // verus!
