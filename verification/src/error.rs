//! The errors of reading tags, sections, chunks and regions.

use vstd::prelude::*;
use vstd::string::StringExecFns;

verus! {

/// Why a compound tag could not be read.
#[derive(Debug, Clone, Copy, PartialEq, Eq, Structural)]
pub enum TagError {
    /// No child has the name asked for.
    NotFound,
    /// The tag is of another kind than the one asked for.
    WrongType,
    /// The tag holds a value outside the range its meaning allows.
    InvalidValue,
    /// The bytes are no compound tag.
    Malformed,
}

/// Why a world, a region or a part of one could not be read.
#[derive(Debug, Clone, Copy, PartialEq, Eq, Structural)]
pub enum McaParseError {
    /// The world directory, the level file or a region file could not be read.
    WorldLoadError,
    /// A compound tag could not be decoded or lacks what is read from it.
    NbtParseError(TagError),
    /// The world directory lacks `level.dat` or `region`.
    InvalidWorld,
    /// A header, a payload or a packed array ends too early.
    EndOfData,
    /// A chunk declares a compression code other than 1, 2 or 3.
    UnsupportedCompression(u8),
}

impl TagError {
    /// A sentence for this error.
    pub fn message(&self) -> (s: String)
        ensures
            s@ == match *self {
                TagError::NotFound => "tag not found"@,
                TagError::WrongType => "tag has another type"@,
                TagError::InvalidValue => "tag value out of range"@,
                TagError::Malformed => "malformed tag data"@,
            },
    {
        match self {
            TagError::NotFound => String::from_str("tag not found"),
            TagError::WrongType => String::from_str("tag has another type"),
            TagError::InvalidValue => String::from_str("tag value out of range"),
            TagError::Malformed => String::from_str("malformed tag data"),
        }
    }
}

impl McaParseError {
    /// A sentence for this error.
    pub fn message(&self) -> (s: String)
        ensures
            s@ == match *self {
                McaParseError::WorldLoadError => "Error loading world"@,
                McaParseError::NbtParseError(e) => "Failed parsing NBT: "@ + e.message_text(),
                McaParseError::InvalidWorld =>
                    "Specified world directory is not a valid minecraft world"@,
                McaParseError::EndOfData => "Hit end of data"@,
                McaParseError::UnsupportedCompression(_) => "Unsupported compression type"@,
            },
    {
        match self {
            McaParseError::WorldLoadError => String::from_str("Error loading world"),
            McaParseError::NbtParseError(e) => {
                let detail = e.message();
                String::from_str("Failed parsing NBT: ").concat(detail.as_str())
            },
            McaParseError::InvalidWorld => String::from_str(
                "Specified world directory is not a valid minecraft world",
            ),
            McaParseError::EndOfData => String::from_str("Hit end of data"),
            McaParseError::UnsupportedCompression(_) => String::from_str(
                "Unsupported compression type",
            ),
        }
    }
}

impl TagError {
    /// The text that `message` returns.
    pub open spec fn message_text(self) -> Seq<char> {
        match self {
            TagError::NotFound => "tag not found"@,
            TagError::WrongType => "tag has another type"@,
            TagError::InvalidValue => "tag value out of range"@,
            TagError::Malformed => "malformed tag data"@,
        }
    }
}

} // verus!
