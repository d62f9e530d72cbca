//! The level file of a world: one compound tag, kept as it was decoded.

use crate::error::McaParseError;
use crate::region::{Compression, Decoded};
use crate::tag::Tag;
use vstd::prelude::*;

verus! {

/// The metadata of a world.
#[derive(Debug)]
pub struct Level {
    nbt: Tag,
}

/// The level that the decoder's answer gives: the tag, or the decoder's
/// error as `NbtParseError`.
pub open spec fn spec_level(answer: Decoded) -> Result<Tag, McaParseError> {
    match answer {
        Ok(tag) => Ok(tag),
        Err(e) => Err(McaParseError::NbtParseError(e)),
    }
}

/// The outcome of reading a level, as its tag or the error.
pub open spec fn level_result(r: Result<Level, McaParseError>) -> Result<Tag, McaParseError> {
    match r {
        Ok(level) => Ok(level.spec_tag()),
        Err(e) => Err(e),
    }
}

impl Level {
    /// The root tag of the level file.
    pub closed spec fn spec_tag(&self) -> Tag {
        self.nbt
    }

    /// The level with the root tag `nbt`.
    pub fn new(nbt: Tag) -> (level: Level)
        ensures
            level.spec_tag() == nbt,
    {
        Level { nbt }
    }

    /// The root tag of the level file.
    pub fn tag(&self) -> (t: &Tag)
        ensures
            *t == self.spec_tag(),
    {
        &self.nbt
    }

    /// The level that the decoder's answer for the level file gives.
    pub fn from_decoded(answer: Decoded) -> (r: Result<Level, McaParseError>)
        ensures
            level_result(r) == spec_level(answer),
    {
        match answer {
            Ok(tag) => Ok(Level::new(tag)),
            Err(e) => Err(McaParseError::NbtParseError(e)),
        }
    }

    /// Reads a level file: `decode` is handed its bytes as a gzip payload.
    pub fn parse_level<D: Fn(Compression, Vec<u8>) -> Decoded>(level_data: Vec<u8>, decode: D) -> (r:
        Result<Level, McaParseError>)
        requires
            call_requires(decode, (Compression::Gzip, level_data)),
        ensures
            exists|answer: Decoded|
                call_ensures(decode, (Compression::Gzip, level_data), answer) && level_result(r)
                    == spec_level(answer),
    {
        let answer = decode(Compression::Gzip, level_data);
        let ghost given = answer;
        let r = Level::from_decoded(answer);
        assert(call_ensures(decode, (Compression::Gzip, level_data), given) && level_result(r)
            == spec_level(given));
        r
    }
}

} // verus!
