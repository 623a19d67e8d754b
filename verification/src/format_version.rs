//! The storage format marker of a store: a store without one is marked
//! with the current version; a store marked with a later version than this
//! library writes is refused, and so is an unreadable marker.

use vstd::prelude::*;
use crate::config::StorageError;
use crate::external::{parse_u64, u64_parse, utf8_error_text, utf8_or_error};
use crate::stats::{decimal_text, push_decimal};
use vstd::utf8::{decode_utf8, valid_utf8};

verus! {

/// The storage format this library reads and writes.
pub const CURRENT_STORAGE_FORMAT_VERSION: u64 = 1;

/// What opening a store does about its format marker.
#[derive(Clone, Copy, PartialEq, Eq, Structural, Debug)]
pub enum FormatCheck {
    /// The store has no marker: write the current one.
    WriteMarker,
    /// The marker names a version this library reads.
    Supported,
}

/// The marker written for the current version: its decimal digits.
pub fn current_format_marker() -> (r: Vec<u8>)
    ensures
        r@ == seq![0x31u8],
{
    vec![0x31u8]
}

/// The error of a marker that is not a version number.
pub open spec fn invalid_marker_text(detail: Seq<char>) -> Seq<char> {
    "invalid storage format version marker: "@ + detail
}

/// The error of a marker naming a later version.
pub open spec fn unsupported_version_text(v: u64) -> Seq<char> {
    "unsupported storage format version "@ + decimal_text(v as nat) + "; this binary supports up to "@
        + decimal_text(CURRENT_STORAGE_FORMAT_VERSION as nat)
}

/// Checks the stored format marker (`None` when the store has none): no
/// marker asks for the current one to be written; a marker that is not
/// UTF-8 or not a decimal `u64` is refused with the decoding or parsing
/// error; a version above the current one is refused; any other is read.
pub fn check_storage_format_version(stored: Option<&[u8]>) -> (r: Result<FormatCheck, StorageError>)
    ensures
        stored is None ==> r == Ok::<FormatCheck, StorageError>(FormatCheck::WriteMarker),
        stored is Some && !valid_utf8(stored.unwrap()@) ==> (r matches Err(StorageError::InvalidConfig(m))
            && m@ == invalid_marker_text(utf8_error_text(stored.unwrap()@))),
        stored is Some && valid_utf8(stored.unwrap()@) ==> match u64_parse(decode_utf8(stored.unwrap()@)) {
            Err(detail) => r matches Err(StorageError::InvalidConfig(m)) && m@ == invalid_marker_text(detail),
            Ok(v) => if v > CURRENT_STORAGE_FORMAT_VERSION {
                r matches Err(StorageError::InvalidConfig(m)) && m@ == unsupported_version_text(v)
            } else {
                r == Ok::<FormatCheck, StorageError>(FormatCheck::Supported)
            },
        },
{
    let b = match stored {
        None => return Ok(FormatCheck::WriteMarker),
        Some(b) => b,
    };
    let text = match utf8_or_error(b) {
        Ok(t) => t,
        Err(e) => {
            let mut m = String::from_str("invalid storage format version marker: ");
            m.append(e.as_str());
            return Err(StorageError::InvalidConfig(m));
        },
    };
    let version = match parse_u64(text.as_str()) {
        Ok(v) => v,
        Err(e) => {
            let mut m = String::from_str("invalid storage format version marker: ");
            m.append(e.as_str());
            return Err(StorageError::InvalidConfig(m));
        },
    };
    if version > CURRENT_STORAGE_FORMAT_VERSION {
        let mut m = String::from_str("unsupported storage format version ");
        push_decimal(&mut m, version as u128);
        m.append("; this binary supports up to ");
        push_decimal(&mut m, CURRENT_STORAGE_FORMAT_VERSION as u128);
        return Err(StorageError::InvalidConfig(m));
    }
    Ok(FormatCheck::Supported)
}

} // verus!
