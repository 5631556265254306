//! Layered documents: the sections of a PSD or PSB file that lie around
//! its layers, and the codecs of their channel data.

pub mod cursor;
pub mod header;
pub mod image_data;
pub mod pixels;
pub mod reader;
pub mod resources;
pub mod rle;
pub mod vector;
pub mod zip;

use crate::bytes::{has_tag, tagged};
use crate::text::{decimal, push_decimal};
use vstd::prelude::*;

verus! {

/// Why a file could not be read.
///
/// The reader never panics on malformed input; every out-of-bounds read or
/// inconsistent length surfaces as one of these.
#[derive(Debug)]
pub enum PsdError {
    /// The buffer does not start with the `8BPS` signature.
    BadSignature,
    /// The file ended before a declared structure was complete.
    Truncated {
        /// Byte offset within the current section at which the read was
        /// attempted.
        offset: usize,
        /// How many bytes the read still needed.
        needed: usize,
    },
    /// The file uses a feature that is not supported.
    Unsupported(String),
    /// Structurally invalid data.
    Corrupt(String),
}

/// A [`PsdError`] as a mathematical value.
pub enum PsdFault {
    BadSignature,
    Truncated { offset: int, needed: int },
    Unsupported(Seq<char>),
    Corrupt(Seq<char>),
}

/// A reader's result as a mathematical value.
pub type PsdOutcome<T> = core::result::Result<T, PsdFault>;

pub type PsdResult<T> = core::result::Result<T, PsdError>;

impl View for PsdError {
    type V = PsdFault;

    open spec fn view(&self) -> PsdFault {
        match self {
            PsdError::BadSignature => PsdFault::BadSignature,
            PsdError::Truncated { offset, needed } => PsdFault::Truncated {
                offset: *offset as int,
                needed: *needed as int,
            },
            PsdError::Unsupported(text) => PsdFault::Unsupported(text@),
            PsdError::Corrupt(text) => PsdFault::Corrupt(text@),
        }
    }
}

/// What a reader returned, with the error as a mathematical value.
pub open spec fn psd_outcome<T>(r: PsdResult<T>) -> PsdOutcome<T> {
    match r {
        Ok(value) => Ok(value),
        Err(e) => Err(e@),
    }
}

/// What a reader returned, with both sides as mathematical values.
pub open spec fn deep_psd_outcome<T: View>(r: PsdResult<T>) -> PsdOutcome<T::V> {
    match r {
        Ok(value) => Ok(value@),
        Err(e) => Err(e@),
    }
}

impl PsdError {
    /// The error in words.
    pub fn message(&self) -> (text: String)
        ensures
            text@ == match self@ {
                PsdFault::BadSignature => "not a PSD/PSB file: missing 8BPS signature"@,
                PsdFault::Truncated { offset, needed } => "truncated PSD data: needed "@ + decimal(
                    needed,
                ) + " more byte(s) at offset "@ + decimal(offset),
                PsdFault::Unsupported(what) => "unsupported PSD feature: "@ + what,
                PsdFault::Corrupt(what) => "corrupt PSD data: "@ + what,
            },
    {
        match self {
            PsdError::BadSignature => "not a PSD/PSB file: missing 8BPS signature".to_string(),
            PsdError::Truncated { offset, needed } => {
                let mut text = "truncated PSD data: needed ".to_string();
                push_decimal(&mut text, *needed as u64);
                text.append(" more byte(s) at offset ");
                push_decimal(&mut text, *offset as u64);
                text
            },
            PsdError::Unsupported(what) => {
                let mut text = "unsupported PSD feature: ".to_string();
                text.append(what.as_str());
                text
            },
            PsdError::Corrupt(what) => {
                let mut text = "corrupt PSD data: ".to_string();
                text.append(what.as_str());
                text
            },
        }
    }
}

/// A [`PsdError::Corrupt`] with a fixed text.
pub fn corrupt(what: &str) -> (e: PsdError)
    ensures
        e@ == PsdFault::Corrupt(what@),
{
    PsdError::Corrupt(what.to_string())
}

/// A [`PsdError::Unsupported`] with a fixed text.
pub fn unsupported(what: &str) -> (e: PsdError)
    ensures
        e@ == PsdFault::Unsupported(what@),
{
    PsdError::Unsupported(what.to_string())
}

/// Quick signature probe: does this buffer look like a PSD or PSB file?
///
/// Checks only the four-byte `8BPS` magic.
pub fn is_psd(bytes: &[u8]) -> (r: bool)
    ensures
        r == tagged(bytes@, 0, "8BPS"@),
{
    has_tag(bytes, 0, "8BPS")
}

} // verus!
