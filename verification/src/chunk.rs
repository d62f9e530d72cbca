//! Chunks: a column of sections with its position, version and status.

use crate::block::{Block, BlockView};
use crate::error::McaParseError;
use crate::position::{block_index, section_index, y_in_chunk, Position};
use crate::region::Region;
use crate::section::{
    is_network_data, lemma_parsed_section_wf, spec_parse_section, BlockIDGetter, Section,
    SectionView,
};
use crate::tag::Tag;
use vstd::prelude::*;
use vstd::string::StringExecFns;

verus! {

/// What a chunk is: its data version, its position in chunk coordinates, its
/// status and its sections from the bottom up.
pub struct ChunkView {
    pub data_version: i32,
    pub chunk_pos: Position,
    pub status: Seq<char>,
    pub sections: Seq<SectionView>,
}

impl ChunkView {
    /// Every section is well formed.
    pub open spec fn wf(self) -> bool {
        forall|i: int| 0 <= i < self.sections.len() ==> (#[trigger] self.sections[i]).wf()
    }

    /// The block at world position `pos`, taken inside this chunk: absent
    /// where `pos` is below or above the chunk or the chunk has no section
    /// at that height.
    pub open spec fn block_at(self, pos: Position) -> Option<BlockView> {
        if y_in_chunk(pos.y as int) && section_index(pos.y as int) < self.sections.len() {
            Some(self.sections[section_index(pos.y as int)].block_at(block_index(pos)))
        } else {
            None
        }
    }

    /// Whether the chunk is fully generated.
    pub open spec fn is_finished(self) -> bool {
        self.status == "minecraft:full"@
    }
}

/// A 16 x 16 column of the world.
#[derive(Debug)]
pub struct Chunk {
    data_version: i32,
    chunk_pos: Position,
    status: String,
    sections: Vec<Section>,
}

/// The sections of `sections`.
pub open spec fn sections_view(sections: Seq<Section>) -> Seq<SectionView> {
    Seq::new(sections.len(), |i: int| sections[i]@)
}

/// The sections that the tags of a section list describe; the error of the
/// first tag that describes none.
pub open spec fn spec_parse_sections(tags: Seq<Tag>) -> Result<Seq<SectionView>, McaParseError>
    decreases tags.len(),
{
    if tags.len() == 0 {
        Ok(Seq::empty())
    } else {
        match spec_parse_sections(tags.drop_last()) {
            Err(e) => Err(e),
            Ok(front) => match spec_parse_section(tags.last()) {
                Err(e) => Err(e),
                Ok(s) => Ok(front.push(s)),
            },
        }
    }
}

/// The chunk that a chunk tag describes. The fields are read in this order,
/// and the first that fails gives the error: `sections` and each section,
/// `DataVersion`, `xPos`, `yPos`, `zPos`, `Status`.
pub open spec fn spec_parse_chunk(tag: Tag) -> Result<ChunkView, McaParseError> {
    match tag.spec_get_list("sections"@) {
        Err(e) => Err(McaParseError::NbtParseError(e)),
        Ok(tags) => match spec_parse_sections(tags) {
            Err(e) => Err(e),
            Ok(sections) => match tag.spec_get_int("DataVersion"@) {
                Err(e) => Err(McaParseError::NbtParseError(e)),
                Ok(data_version) => match tag.spec_get_int("xPos"@) {
                    Err(e) => Err(McaParseError::NbtParseError(e)),
                    Ok(x) => match tag.spec_get_int("yPos"@) {
                        Err(e) => Err(McaParseError::NbtParseError(e)),
                        Ok(y) => match tag.spec_get_int("zPos"@) {
                            Err(e) => Err(McaParseError::NbtParseError(e)),
                            Ok(z) => match tag.spec_get_string("Status"@) {
                                Err(e) => Err(McaParseError::NbtParseError(e)),
                                Ok(status) => Ok(
                                    ChunkView {
                                        data_version,
                                        chunk_pos: Position { y, x, z },
                                        status,
                                        sections,
                                    },
                                ),
                            },
                        },
                    },
                },
            },
        },
    }
}

/// The sections of a chunk that was read are well formed.
pub proof fn lemma_parsed_chunk_wf(tag: Tag)
    ensures
        spec_parse_chunk(tag) matches Ok(c) ==> c.wf(),
{
    if tag.spec_get_list("sections"@) is Ok {
        lemma_parsed_sections_wf(tag.spec_get_list("sections"@)->Ok_0);
    }
}

/// The sections of a section list that was read are well formed.
pub proof fn lemma_parsed_sections_wf(tags: Seq<Tag>)
    ensures
        spec_parse_sections(tags) matches Ok(sections) ==> forall|i: int|
            0 <= i < sections.len() ==> (#[trigger] sections[i]).wf(),
    decreases tags.len(),
{
    if tags.len() > 0 {
        lemma_parsed_sections_wf(tags.drop_last());
        lemma_parsed_section_wf(tags.last());
    }
}

/// The outcome of reading a chunk, as a chunk view or the error.
pub open spec fn chunk_result(r: Result<Chunk, McaParseError>) -> Result<ChunkView, McaParseError> {
    match r {
        Ok(c) => Ok(c@),
        Err(e) => Err(e),
    }
}

/// The byte strings of `parts`, one after another.
pub open spec fn concat(parts: Seq<Seq<u8>>) -> Seq<u8>
    decreases parts.len(),
{
    if parts.len() == 0 {
        Seq::empty()
    } else {
        concat(parts.drop_last()) + parts.last()
    }
}

/// Whether `parts` holds, for every section of `sections`, a network form
/// of it under the answers of `id_getter`.
pub open spec fn are_network_data<G: BlockIDGetter>(
    id_getter: &G,
    sections: Seq<SectionView>,
    parts: Seq<Seq<u8>>,
) -> bool {
    &&& parts.len() == sections.len()
    &&& forall|i: int|
        0 <= i < sections.len() ==> is_network_data(id_getter, sections[i], #[trigger] parts[i])
}

/// Whether `bytes` holds a network form of each section of `sections`, one
/// after another, under the answers of `id_getter`.
pub open spec fn is_sections_network_data<G: BlockIDGetter>(
    id_getter: &G,
    sections: Seq<SectionView>,
    bytes: Seq<u8>,
) -> bool {
    exists|parts: Seq<Seq<u8>>|
        are_network_data(id_getter, sections, parts) && bytes == #[trigger] concat(parts)
}

impl View for Chunk {
    type V = ChunkView;

    closed spec fn view(&self) -> ChunkView {
        ChunkView {
            data_version: self.data_version,
            chunk_pos: self.chunk_pos,
            status: self.status@,
            sections: sections_view(self.sections@),
        }
    }
}

impl Chunk {
    /// A chunk of the given version, position, status and sections.
    pub fn new(data_version: i32, chunk_pos: Position, status: String, sections: Vec<Section>) -> (c:
        Chunk)
        ensures
            c@ == (ChunkView {
                data_version,
                chunk_pos,
                status: status@,
                sections: sections_view(sections@),
            }),
    {
        Chunk { data_version, chunk_pos, status, sections }
    }

    /// Reads a chunk from its decoded tag.
    pub fn parse_chunk(tag: &Tag) -> (r: Result<Chunk, McaParseError>)
        ensures
            chunk_result(r) == spec_parse_chunk(*tag),
    {
        let tags: &Vec<Tag> = match tag.get_list("sections") {
            Ok(v) => v,
            Err(e) => {
                return Err(McaParseError::NbtParseError(e));
            },
        };
        let sections: Vec<Section> = match Region::parse_sections(tags) {
            Ok(s) => s,
            Err(e) => {
                return Err(e);
            },
        };
        let data_version: i32 = match tag.get_int("DataVersion") {
            Ok(v) => v,
            Err(e) => {
                return Err(McaParseError::NbtParseError(e));
            },
        };
        let x: i32 = match tag.get_int("xPos") {
            Ok(v) => v,
            Err(e) => {
                return Err(McaParseError::NbtParseError(e));
            },
        };
        let y: i32 = match tag.get_int("yPos") {
            Ok(v) => v,
            Err(e) => {
                return Err(McaParseError::NbtParseError(e));
            },
        };
        let z: i32 = match tag.get_int("zPos") {
            Ok(v) => v,
            Err(e) => {
                return Err(McaParseError::NbtParseError(e));
            },
        };
        let status: String = match tag.get_string("Status") {
            Ok(s) => s.clone(),
            Err(e) => {
                return Err(McaParseError::NbtParseError(e));
            },
        };
        Ok(Chunk::new(data_version, Position::new(x, y, z), status, sections))
    }

    /// The block at world position `pos`, taken inside this chunk.
    pub fn get(&self, pos: Position) -> (b: Option<Block>)
        ensures
            match b {
                Some(block) => self@.block_at(pos) == Some(block@),
                None => self@.block_at(pos).is_none(),
            },
    {
        let index: usize = match pos.section_index_in_chunk() {
            Some(i) => i as usize,
            None => {
                return None;
            },
        };
        if index >= self.sections.len() {
            return None;
        }
        Some(self.sections[index].get(pos))
    }

    /// The network forms of the sections of this chunk, from the bottom up,
    /// one after another.
    pub fn network_data<G: BlockIDGetter>(&self, id_getter: &G) -> (out: Vec<u8>)
        ensures
            is_sections_network_data(id_getter, self@.sections, out@),
    {
        let ghost all = self@.sections;
        let ghost mut parts: Seq<Seq<u8>> = Seq::empty();
        let mut out: Vec<u8> = Vec::new();
        let mut i: usize = 0;
        while i < self.sections.len()
            invariant
                i <= self.sections.len(),
                all == self@.sections,
                parts.len() == i,
                forall|j: int|
                    0 <= j < i ==> is_network_data(id_getter, all[j], #[trigger] parts[j]),
                out@ == concat(parts),
            decreases self.sections.len() - i,
        {
            let mut part = self.sections[i].network_data(id_getter);
            proof {
                assert(all[i as int] == self.sections@[i as int]@);
                let next = parts.push(part@);
                assert(next.drop_last() =~= parts);
                assert(next.last() == part@);
                parts = next;
            }
            out.append(&mut part);
            i = i + 1;
        }
        assert(are_network_data(id_getter, all, parts));
        out
    }

    /// Whether the chunk is fully generated: its status is `minecraft:full`.
    pub fn is_finished(&self) -> (r: bool)
        ensures
            r == self@.is_finished(),
    {
        let full = String::from_str("minecraft:full");
        self.status == full
    }

    /// The data version that the chunk was written with.
    pub fn data_version(&self) -> (v: i32)
        ensures
            v == self@.data_version,
    {
        self.data_version
    }

    /// The position of the chunk, in chunk coordinates.
    pub fn chunk_pos(&self) -> (p: &Position)
        ensures
            *p == self@.chunk_pos,
    {
        &self.chunk_pos
    }

    /// The status of the chunk.
    pub fn status(&self) -> (s: &String)
        ensures
            s@ == self@.status,
    {
        &self.status
    }

    /// The sections of the chunk, from the bottom up.
    pub fn sections(&self) -> (s: &Vec<Section>)
        ensures
            sections_view(s@) == self@.sections,
    {
        &self.sections
    }
}

impl Clone for Chunk {
    fn clone(&self) -> (c: Chunk)
        ensures
            c@ == self@,
    {
        let mut sections: Vec<Section> = Vec::new();
        let mut i: usize = 0;
        while i < self.sections.len()
            invariant
                i <= self.sections.len(),
                sections@.len() == i,
                forall|j: int| 0 <= j < i ==> sections@[j]@ == self.sections@[j]@,
            decreases self.sections.len() - i,
        {
            sections.push(self.sections[i].clone());
            i = i + 1;
        }
        assert(sections_view(sections@) =~= sections_view(self.sections@));
        Chunk {
            data_version: self.data_version,
            chunk_pos: self.chunk_pos,
            status: self.status.clone(),
            sections,
        }
    }
}

} // verus!
