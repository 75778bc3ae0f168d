//! The settings of a scan, as they come out of the text a user gave.

use vstd::prelude::*;
use vstd::string::is_ascii;
use vstd::utf8::is_ascii_chars;

verus! {

/// The head read where a weaker one was asked for.
pub const DEFAULT_HEAD: usize = 1024;

/// A head of fewer bytes than this, other than zero, tells files apart too
/// poorly.
pub const WEAKEST_HEAD: usize = 1000;

/// What `humanize_rs` makes of a size written for people ("10", "4 KiB",
/// "2MB"), in bytes: nothing where it does not accept the text or the size
/// does not fit in 64 bits.
pub uninterp spec fn parsed_size(text: Seq<char>) -> Option<u64>;

/// `str::parse` to a `humanize_rs::bytes::Bytes<u64>`, and `Bytes::size` of
/// what it gives: the size that the text states, or nothing where the parser
/// refuses it. The parser cuts the text at a count of characters taken for a
/// count of bytes, which is safe in ASCII text only.
#[verifier::external_body]
fn parse_bytes(text: &str) -> (size: Option<u64>)
    requires
        is_ascii(text),
    ensures
        size == parsed_size(text@),
{
    match text.parse::<humanize_rs::bytes::Bytes<u64>>() {
        Ok(bytes) => Some(bytes.size()),
        Err(_) => None,
    }
}

/// The size that `text` states, as this machine can hold it: nothing where
/// the text is not ASCII, is not accepted as a size, or states more than a
/// `usize` holds.
pub open spec fn size_of_text(text: Seq<char>) -> Option<usize> {
    if !is_ascii_chars(text) {
        None
    } else {
        sized(parsed_size(text))
    }
}

/// A parsed size as a `usize`, where it fits.
pub open spec fn sized(parsed: Option<u64>) -> Option<usize> {
    match parsed {
        Some(n) => if n <= usize::MAX {
            Some(n as usize)
        } else {
            None
        },
        None => None,
    }
}

/// Brings a parsed size into a `usize`, where it fits.
pub fn size_from(parsed: Option<u64>) -> (size: Option<usize>)
    ensures
        size == sized(parsed),
{
    match parsed {
        Some(n) => if n <= usize::MAX as u64 {
            Some(n as usize)
        } else {
            None
        },
        None => None,
    }
}

/// Reads a size written for people.
pub fn parse_size(text: &str) -> (size: Option<usize>)
    ensures
        size == size_of_text(text@),
{
    if !text.is_ascii() {
        return None;
    }
    size_from(parse_bytes(text))
}

/// The head that is read where `head` was asked for: heads from 1 to 999
/// bytes are replaced by 1024.
pub open spec fn effective_head(head: nat) -> nat {
    if 0 < head < 1000 {
        1024
    } else {
        head
    }
}

/// The head to read where `head` was asked for, and whether that is another
/// one, of which the user should be warned.
pub fn coerce_head(head: usize) -> (coerced: (usize, bool))
    ensures
        coerced.0 == effective_head(head as nat),
        coerced.1 == (0 < head < 1000),
{
    if head > 0 && head < WEAKEST_HEAD {
        (DEFAULT_HEAD, true)
    } else {
        (head, false)
    }
}

/// The option whose value could not be read.
#[derive(Clone, Copy, Debug, PartialEq, Eq, Structural)]
pub enum ConfigError {
    InvalidMinSize,
    InvalidHead,
}

/// The settings of a scan.
#[derive(Clone, Copy, Debug, PartialEq, Eq, Structural)]
pub struct Settings {
    /// Files smaller than this are left out.
    pub min_size: usize,
    /// The number of bytes read of each file; zero for all of them.
    pub head: usize,
    /// The head asked for was too small and was replaced.
    pub head_coerced: bool,
    /// The number of fingerprints two directories must share to be reported.
    pub min_intersection: usize,
}

/// The settings that follow from the two sizes as read, or the first option
/// that could not be read.
pub open spec fn settled(
    min_size: Option<usize>,
    head: Option<usize>,
    min_intersection: usize,
) -> Result<Settings, ConfigError> {
    match min_size {
        None => Err(ConfigError::InvalidMinSize),
        Some(min_size) => match head {
            None => Err(ConfigError::InvalidHead),
            Some(head) => Ok(
                Settings {
                    min_size,
                    head: effective_head(head as nat) as usize,
                    head_coerced: 0 < head < 1000,
                    min_intersection,
                },
            ),
        },
    }
}

/// Makes the settings from the two sizes as read.
pub fn settle(min_size: Option<usize>, head: Option<usize>, min_intersection: usize) -> (settings:
    Result<Settings, ConfigError>)
    ensures
        settings == settled(min_size, head, min_intersection),
{
    let min_size = match min_size {
        Some(n) => n,
        None => {
            return Err(ConfigError::InvalidMinSize);
        },
    };
    let head = match head {
        Some(n) => n,
        None => {
            return Err(ConfigError::InvalidHead);
        },
    };
    let (head, head_coerced) = coerce_head(head);
    Ok(Settings { min_size, head, head_coerced, min_intersection })
}

/// Makes the settings from the text given for the smallest size and for the
/// head.
pub fn resolve(min_size: &str, head: &str, min_intersection: usize) -> (settings: Result<
    Settings,
    ConfigError,
>)
    ensures
        settings == settled(size_of_text(min_size@), size_of_text(head@), min_intersection),
{
    settle(parse_size(min_size), parse_size(head), min_intersection)
}

/// What a user is told of an option that could not be read.
pub open spec fn error_text(error: ConfigError) -> Seq<char> {
    match error {
        ConfigError::InvalidMinSize => "Invalid value for '--min-size'"@,
        ConfigError::InvalidHead => "Invalid value for '--head'"@,
    }
}

impl ConfigError {
    /// What a user is told of this error.
    pub fn message(&self) -> (text: &'static str)
        ensures
            text@ == error_text(*self),
    {
        match self {
            ConfigError::InvalidMinSize => "Invalid value for '--min-size'",
            ConfigError::InvalidHead => "Invalid value for '--head'",
        }
    }
}

} // verus!
