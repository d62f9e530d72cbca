//! Region files: the directory of 1024 chunk slots, the framing of each
//! stored chunk, and lookup in the chunks that were read.

use crate::block::{Block, BlockView};
use crate::chunk::{sections_view, spec_parse_chunk, spec_parse_sections, Chunk, ChunkView};
use crate::error::{McaParseError, TagError};
use crate::position::{chunk_coord, slot_index, Position};
use crate::section::{
    section_result, spec_parse_section_with, PackOrder, Section, SectionView,
};
use crate::tag::Tag;
use crate::wire::{from_be_u24, from_be_u32};
use vstd::prelude::*;
use vstd::slice::{slice_subrange, slice_to_vec};

verus! {

/// Number of chunk slots in a region.
pub const SLOTS: usize = 1024;

/// Length of the two tables that a region file starts with.
pub const HEADER_LEN: usize = 8192;

/// Where a chunk lies in its region file.
#[derive(Debug, Clone, Copy, PartialEq, Eq, Structural)]
pub struct ChunkLocation {
    /// Offset in sectors from the start of the file.
    pub offset: usize,
    /// Number of sectors that the chunk takes, at most 255.
    pub sectors: usize,
}

/// When a chunk was last changed.
#[derive(Debug, Clone, Copy, PartialEq, Eq, Structural)]
pub struct ChunkTimestamp {
    /// Seconds since the epoch.
    pub modified_seconds: u32,
}

/// How the payload of a stored chunk is compressed.
#[derive(Debug, Clone, Copy, PartialEq, Eq, Structural)]
pub enum Compression {
    /// Code 1.
    Gzip,
    /// Code 2.
    Zlib,
    /// Code 3.
    Uncompressed,
}

/// A stored chunk cut out of its region file.
#[derive(Debug)]
pub struct ChunkFrame {
    /// The compression that the chunk declares.
    pub compression: Compression,
    /// The bytes of the chunk as they are stored.
    pub payload: Vec<u8>,
}

/// What the decoder of compound tags answers for one payload.
pub type Decoded = Result<Tag, TagError>;

/// The compression that a code stands for.
pub open spec fn compression_of(code: u8) -> Option<Compression> {
    if code == 1 {
        Some(Compression::Gzip)
    } else if code == 2 {
        Some(Compression::Zlib)
    } else if code == 3 {
        Some(Compression::Uncompressed)
    } else {
        None
    }
}

impl ChunkLocation {
    /// Whether the slot holds a chunk: neither offset nor count is zero.
    pub open spec fn present(self) -> bool {
        self.offset != 0 && self.sectors != 0
    }

    /// Whether the slot holds a chunk.
    pub fn is_present(&self) -> (r: bool)
        ensures
            r == self.present(),
    {
        self.offset != 0 && self.sectors != 0
    }
}

/// The location record of slot `slot`: three bytes of offset, the high byte
/// first, and one byte of sector count.
pub open spec fn spec_location(data: Seq<u8>, slot: int) -> ChunkLocation {
    ChunkLocation {
        offset: from_be_u24(data[4 * slot], data[4 * slot + 1], data[4 * slot + 2]) as usize,
        sectors: data[4 * slot + 3] as usize,
    }
}

/// The timestamp record of slot `slot`: four bytes, the high byte first.
pub open spec fn spec_timestamp(data: Seq<u8>, slot: int) -> ChunkTimestamp {
    ChunkTimestamp {
        modified_seconds: from_be_u32(
            data[4096 + 4 * slot],
            data[4096 + 4 * slot + 1],
            data[4096 + 4 * slot + 2],
            data[4096 + 4 * slot + 3],
        ) as u32,
    }
}

/// The location records of all slots.
pub open spec fn spec_locations(data: Seq<u8>) -> Seq<ChunkLocation> {
    Seq::new(1024, |slot: int| spec_location(data, slot))
}

/// The timestamp records of all slots.
pub open spec fn spec_timestamps(data: Seq<u8>) -> Seq<ChunkTimestamp> {
    Seq::new(1024, |slot: int| spec_timestamp(data, slot))
}

/// The stored chunk at `loc`: within its run of sectors a length of four
/// bytes, the high byte first, a compression code, and `length - 1` bytes of
/// payload. Sectors or payload beyond the end are `EndOfData`; after that a
/// code other than 1, 2 or 3 is `UnsupportedCompression`.
pub open spec fn spec_chunk_frame(data: Seq<u8>, loc: ChunkLocation) -> Result<
    (Compression, Seq<u8>),
    McaParseError,
> {
    let start = loc.offset * 4096;
    let end = start + loc.sectors * 4096;
    if end > data.len() || end - start < 5 {
        Err(McaParseError::EndOfData)
    } else {
        let length = from_be_u32(data[start], data[start + 1], data[start + 2], data[start + 3]);
        let code = data[start + 4];
        if length < 1 || start + 4 + length > end {
            Err(McaParseError::EndOfData)
        } else {
            match compression_of(code) {
                None => Err(McaParseError::UnsupportedCompression(code)),
                Some(c) => Ok((c, data.subrange(start + 5, start + 4 + length))),
            }
        }
    }
}

/// The outcome of cutting a frame, as plain values or the error.
pub open spec fn frame_result(r: Result<ChunkFrame, McaParseError>) -> Result<
    (Compression, Seq<u8>),
    McaParseError,
> {
    match r {
        Ok(f) => Ok((f.compression, f.payload@)),
        Err(e) => Err(e),
    }
}

/// What a region is: the two tables of its header and the chunks that were
/// read, in the order of their slots.
pub struct RegionView {
    pub locations: Seq<ChunkLocation>,
    pub timestamps: Seq<ChunkTimestamp>,
    pub chunks: Seq<ChunkView>,
}

/// Index of the first chunk of `chunks`, at or after `from`, whose position
/// has the given `x` and `z`.
pub open spec fn first_chunk_from(chunks: Seq<ChunkView>, x: int, z: int, from: int) -> Option<int>
    decreases chunks.len() - from,
{
    if from < 0 || from >= chunks.len() {
        None
    } else if chunks[from].chunk_pos.x == x && chunks[from].chunk_pos.z == z {
        Some(from)
    } else {
        first_chunk_from(chunks, x, z, from + 1)
    }
}

impl RegionView {
    /// Index of the chunk at chunk position `(x, z)`: the first one there.
    pub open spec fn chunk_at(self, x: int, z: int) -> Option<int> {
        first_chunk_from(self.chunks, x, z, 0)
    }

    /// The block at world position `pos`: absent where the region holds no
    /// chunk for `pos` or the chunk holds no block there.
    pub open spec fn block_at(self, pos: Position) -> Option<BlockView> {
        match self.chunk_at(chunk_coord(pos.x as int), chunk_coord(pos.z as int)) {
            Some(i) => self.chunks[i].block_at(pos),
            None => None,
        }
    }
}

/// One region file, read.
#[derive(Debug)]
pub struct Region {
    chunk_location_offsets: Vec<ChunkLocation>,
    chunk_timestamps: Vec<ChunkTimestamp>,
    chunks: Vec<Chunk>,
}

/// The chunks of `chunks`.
pub open spec fn chunks_view(chunks: Seq<Chunk>) -> Seq<ChunkView> {
    Seq::new(chunks.len(), |i: int| chunks[i]@)
}

impl View for Region {
    type V = RegionView;

    closed spec fn view(&self) -> RegionView {
        RegionView {
            locations: self.chunk_location_offsets@,
            timestamps: self.chunk_timestamps@,
            chunks: chunks_view(self.chunks@),
        }
    }
}

/// What slot `slot` adds to a region, where the decoder answered `answer`
/// for its payload: nothing for an absent chunk, else the chunk that the
/// decoded tag describes.
pub open spec fn spec_slot(data: Seq<u8>, slot: int, answer: Decoded) -> Result<
    Option<ChunkView>,
    McaParseError,
> {
    let loc = spec_location(data, slot);
    if !loc.present() {
        Ok(None)
    } else {
        match spec_chunk_frame(data, loc) {
            Err(e) => Err(e),
            Ok(_) => match answer {
                Err(e) => Err(McaParseError::NbtParseError(e)),
                Ok(tag) => match spec_parse_chunk(tag) {
                    Err(e) => Err(e),
                    Ok(chunk) => Ok(Some(chunk)),
                },
            },
        }
    }
}

/// The chunks of the slots before `upto`, in the order of the slots, or the
/// error of the first slot that fails.
pub open spec fn spec_chunks(data: Seq<u8>, answers: Seq<Decoded>, upto: int) -> Result<
    Seq<ChunkView>,
    McaParseError,
>
    decreases upto,
{
    if upto <= 0 {
        Ok(Seq::empty())
    } else {
        match spec_chunks(data, answers, upto - 1) {
            Err(e) => Err(e),
            Ok(chunks) => match spec_slot(data, upto - 1, answers[upto - 1]) {
                Err(e) => Err(e),
                Ok(None) => Ok(chunks),
                Ok(Some(chunk)) => Ok(chunks.push(chunk)),
            },
        }
    }
}

/// The region that `data` holds, where the decoder answered `answers[slot]`
/// for the payload of slot `slot`. A file shorter than its header is
/// `EndOfData`.
pub open spec fn spec_parse_region(data: Seq<u8>, answers: Seq<Decoded>) -> Result<
    RegionView,
    McaParseError,
> {
    if data.len() < 8192 {
        Err(McaParseError::EndOfData)
    } else {
        match spec_chunks(data, answers, 1024) {
            Err(e) => Err(e),
            Ok(chunks) => Ok(
                RegionView {
                    locations: spec_locations(data),
                    timestamps: spec_timestamps(data),
                    chunks,
                },
            ),
        }
    }
}

/// Whether reading `data` gets as far as handing the payload of slot `slot`
/// to the decoder: the header is there, no earlier slot failed, and the slot
/// holds a chunk whose frame is sound.
pub open spec fn slot_consulted(data: Seq<u8>, answers: Seq<Decoded>, slot: int) -> bool {
    &&& data.len() >= 8192
    &&& spec_chunks(data, answers, slot) is Ok
    &&& spec_location(data, slot).present()
    &&& spec_chunk_frame(data, spec_location(data, slot)) is Ok
}

/// Whether `answer` is what `decode` returned for a payload with the bytes
/// `payload` under `compression`.
pub open spec fn answered<D: Fn(Compression, Vec<u8>) -> Decoded>(
    decode: D,
    compression: Compression,
    payload: Seq<u8>,
    answer: Decoded,
) -> bool {
    exists|bytes: Vec<u8>| bytes@ == payload && call_ensures(decode, (compression, bytes), answer)
}

/// Whether `answers` holds, for every slot whose payload is handed to the
/// decoder, what `decode` returned for it.
pub open spec fn answers_of<D: Fn(Compression, Vec<u8>) -> Decoded>(
    decode: D,
    data: Seq<u8>,
    answers: Seq<Decoded>,
) -> bool {
    &&& answers.len() == 1024
    &&& forall|slot: int|
        0 <= slot < 1024 && #[trigger] slot_consulted(data, answers, slot) ==> answered(
            decode,
            spec_chunk_frame(data, spec_location(data, slot))->Ok_0.0,
            spec_chunk_frame(data, spec_location(data, slot))->Ok_0.1,
            answers[slot],
        )
}

/// The outcome of reading a region, as a region view or the error.
pub open spec fn region_result(r: Result<Region, McaParseError>) -> Result<
    RegionView,
    McaParseError,
> {
    match r {
        Ok(region) => Ok(region@),
        Err(e) => Err(e),
    }
}

/// The chunks of the slots before `upto` depend on the answers for those
/// slots only.
pub proof fn lemma_chunks_prefix(data: Seq<u8>, a: Seq<Decoded>, b: Seq<Decoded>, upto: int)
    requires
        forall|j: int| 0 <= j < upto ==> a[j] == b[j],
    ensures
        spec_chunks(data, a, upto) == spec_chunks(data, b, upto),
    decreases upto,
{
    if upto > 0 {
        lemma_chunks_prefix(data, a, b, upto - 1);
    }
}

/// Once a slot has failed, the error is that of the whole region.
pub proof fn lemma_chunks_error_stays(data: Seq<u8>, answers: Seq<Decoded>, upto: int, to: int)
    requires
        0 <= upto <= to,
        spec_chunks(data, answers, upto) is Err,
    ensures
        spec_chunks(data, answers, to) == spec_chunks(data, answers, upto),
    decreases to - upto,
{
    if upto < to {
        lemma_chunks_error_stays(data, answers, upto, to - 1);
    }
}

/// The chunk that slot `slot` holds, where the decoder answered `answers`.
pub open spec fn slot_chunk(data: Seq<u8>, answers: Seq<Decoded>, slot: int) -> Option<ChunkView> {
    match spec_slot(data, slot, answers[slot]) {
        Ok(Some(chunk)) => Some(chunk),
        _ => None,
    }
}

/// The block at world position `pos` found by way of the directory: in the
/// chunk of the slot that belongs to the chunk position of `pos`.
pub open spec fn slot_block(data: Seq<u8>, answers: Seq<Decoded>, pos: Position) -> Option<
    BlockView,
> {
    match slot_chunk(
        data,
        answers,
        slot_index(chunk_coord(pos.x as int), chunk_coord(pos.z as int)),
    ) {
        Some(chunk) => chunk.block_at(pos),
        None => None,
    }
}

/// Whether every chunk of the file says of itself that it lies in region
/// `(rx, rz)` at the place of its slot.
pub open spec fn chunks_in_place(data: Seq<u8>, answers: Seq<Decoded>, rx: int, rz: int) -> bool {
    forall|slot: int|
        0 <= slot < 1024 ==> (#[trigger] slot_chunk(data, answers, slot) matches Some(chunk)
            ==> chunk.chunk_pos.x == 32 * rx + slot % 32 && chunk.chunk_pos.z == 32 * rz + slot
            / 32)
}

/// Whether `chunk` is the chunk of a slot before `upto`.
pub open spec fn from_slot(data: Seq<u8>, answers: Seq<Decoded>, upto: int, chunk: ChunkView) -> bool {
    exists|slot: int| 0 <= slot < upto && #[trigger] slot_chunk(data, answers, slot) == Some(chunk)
}

/// The chunks that were read are the chunks of the slots, and no others.
pub proof fn lemma_chunks_are_slots(data: Seq<u8>, answers: Seq<Decoded>, upto: int)
    requires
        0 <= upto,
        spec_chunks(data, answers, upto) is Ok,
    ensures
        forall|k: int|
            0 <= k < spec_chunks(data, answers, upto)->Ok_0.len() ==> from_slot(
                data,
                answers,
                upto,
                #[trigger] spec_chunks(data, answers, upto)->Ok_0[k],
            ),
        forall|slot: int|
            0 <= slot < upto && (#[trigger] slot_chunk(data, answers, slot)) is Some ==> spec_chunks(
                data,
                answers,
                upto,
            )->Ok_0.contains(slot_chunk(data, answers, slot)->Some_0),
    decreases upto,
{
    if upto > 0 {
        lemma_chunks_are_slots(data, answers, upto - 1);
        let before = spec_chunks(data, answers, upto - 1)->Ok_0;
        let after = spec_chunks(data, answers, upto)->Ok_0;
        assert forall|k: int| 0 <= k < after.len() implies from_slot(
            data,
            answers,
            upto,
            #[trigger] after[k],
        ) by {
            if k < before.len() {
                assert(from_slot(data, answers, upto - 1, before[k]));
                let slot = choose|slot: int|
                    0 <= slot < upto - 1 && #[trigger] slot_chunk(data, answers, slot) == Some(
                        before[k],
                    );
                assert(slot_chunk(data, answers, slot) == Some(after[k]));
            } else {
                assert(slot_chunk(data, answers, upto - 1) == Some(after[k]));
            }
        }
        assert forall|slot: int|
            0 <= slot < upto && (#[trigger] slot_chunk(data, answers, slot)) is Some implies after.contains(
            slot_chunk(data, answers, slot)->Some_0,
        ) by {
            let chunk = slot_chunk(data, answers, slot)->Some_0;
            if slot < upto - 1 {
                assert(before.contains(chunk));
                let k = choose|k: int| 0 <= k < before.len() && before[k] == chunk;
                assert(after[k] == chunk);
            } else {
                assert(after[after.len() - 1] == chunk);
            }
        }
    }
}

/// What the search for a chunk position finds: the first chunk there, or
/// nothing where no chunk is there.
pub proof fn lemma_first_chunk(chunks: Seq<ChunkView>, x: int, z: int, from: int)
    requires
        0 <= from,
    ensures
        match first_chunk_from(chunks, x, z, from) {
            Some(k) => from <= k < chunks.len() && chunks[k].chunk_pos.x == x
                && chunks[k].chunk_pos.z == z,
            None => forall|k: int|
                from <= k < chunks.len() ==> !((#[trigger] chunks[k]).chunk_pos.x == x
                    && chunks[k].chunk_pos.z == z),
        },
    decreases chunks.len() - from,
{
    if from < chunks.len() {
        lemma_first_chunk(chunks, x, z, from + 1);
    }
}

/// Looking a block up in a region that was read gives what the directory
/// gives: the block in the chunk of the slot that belongs to the position.
/// This holds of files whose chunks each name the place of their own slot,
/// and of positions whose chunk position lies in the region.
pub proof fn lemma_region_lookup(
    data: Seq<u8>,
    answers: Seq<Decoded>,
    rx: int,
    rz: int,
    pos: Position,
)
    requires
        spec_parse_region(data, answers) is Ok,
        chunks_in_place(data, answers, rx, rz),
        chunk_coord(pos.x as int) / 32 == rx,
        chunk_coord(pos.z as int) / 32 == rz,
    ensures
        spec_parse_region(data, answers)->Ok_0.block_at(pos) == slot_block(data, answers, pos),
{
    let region = spec_parse_region(data, answers)->Ok_0;
    let chunks = region.chunks;
    let cx = chunk_coord(pos.x as int);
    let cz = chunk_coord(pos.z as int);
    let home = slot_index(cx, cz);
    assert(0 <= home < 1024 && home % 32 == cx % 32 && home / 32 == cz % 32);
    lemma_chunks_are_slots(data, answers, 1024);
    lemma_first_chunk(chunks, cx, cz, 0);
    match first_chunk_from(chunks, cx, cz, 0) {
        Some(k) => {
            assert(from_slot(data, answers, 1024, chunks[k]));
            let slot = choose|slot: int|
                0 <= slot < 1024 && #[trigger] slot_chunk(data, answers, slot) == Some(chunks[k]);
            assert(slot == home);
        },
        None => {
            if slot_chunk(data, answers, home) is Some {
                let chunk = slot_chunk(data, answers, home)->Some_0;
                assert(chunks.contains(chunk));
                let k = choose|k: int| 0 <= k < chunks.len() && chunks[k] == chunk;
                assert(chunks[k].chunk_pos.x == cx);
            }
        },
    }
}

/// A file whose directory is empty is a region without chunks, and no
/// chunk is found in it.
pub proof fn lemma_empty_region(data: Seq<u8>, answers: Seq<Decoded>, x: int, z: int)
    requires
        data.len() >= 8192,
        forall|slot: int| 0 <= slot < 1024 ==> !(#[trigger] spec_location(data, slot)).present(),
    ensures
        spec_parse_region(data, answers) is Ok,
        spec_parse_region(data, answers)->Ok_0.chunks.len() == 0,
        spec_parse_region(data, answers)->Ok_0.chunk_at(x, z).is_none(),
{
    lemma_no_chunks(data, answers, 1024);
}

proof fn lemma_no_chunks(data: Seq<u8>, answers: Seq<Decoded>, upto: int)
    requires
        0 <= upto <= 1024,
        forall|slot: int| 0 <= slot < 1024 ==> !(#[trigger] spec_location(data, slot)).present(),
    ensures
        spec_chunks(data, answers, upto) == Ok::<Seq<ChunkView>, McaParseError>(Seq::empty()),
    decreases upto,
{
    if upto > 0 {
        lemma_no_chunks(data, answers, upto - 1);
        assert(!spec_location(data, upto - 1).present());
    }
}

proof fn lemma_answer_recorded<D: Fn(Compression, Vec<u8>) -> Decoded>(
    decode: D,
    data: Seq<u8>,
    before: Seq<Decoded>,
    slot: int,
    answer: Decoded,
)
    requires
        before.len() == 1024,
        0 <= slot < 1024,
        forall|j: int|
            0 <= j < slot && #[trigger] slot_consulted(data, before, j) ==> answered(
                decode,
                spec_chunk_frame(data, spec_location(data, j))->Ok_0.0,
                spec_chunk_frame(data, spec_location(data, j))->Ok_0.1,
                before[j],
            ),
        slot_consulted(data, before, slot) ==> answered(
            decode,
            spec_chunk_frame(data, spec_location(data, slot))->Ok_0.0,
            spec_chunk_frame(data, spec_location(data, slot))->Ok_0.1,
            answer,
        ),
    ensures
        spec_chunks(data, before.update(slot, answer), slot) == spec_chunks(data, before, slot),
        forall|j: int|
            0 <= j < slot + 1 && #[trigger] slot_consulted(data, before.update(slot, answer), j)
                ==> answered(
                decode,
                spec_chunk_frame(data, spec_location(data, j))->Ok_0.0,
                spec_chunk_frame(data, spec_location(data, j))->Ok_0.1,
                before.update(slot, answer)[j],
            ),
{
    let after = before.update(slot, answer);
    lemma_chunks_prefix(data, before, after, slot);
    assert forall|j: int| 0 <= j < slot + 1 && #[trigger] slot_consulted(data, after, j) implies answered(
        decode,
        spec_chunk_frame(data, spec_location(data, j))->Ok_0.0,
        spec_chunk_frame(data, spec_location(data, j))->Ok_0.1,
        after[j],
    ) by {
        lemma_chunks_prefix(data, before, after, j);
        assert(slot_consulted(data, before, j));
    }
}

proof fn lemma_region_failed<D: Fn(Compression, Vec<u8>) -> Decoded>(
    decode: D,
    data: Seq<u8>,
    answers: Seq<Decoded>,
    slot: int,
)
    requires
        answers.len() == 1024,
        0 <= slot < 1024,
        data.len() >= 8192,
        spec_chunks(data, answers, slot + 1) is Err,
        forall|j: int|
            0 <= j < slot + 1 && #[trigger] slot_consulted(data, answers, j) ==> answered(
                decode,
                spec_chunk_frame(data, spec_location(data, j))->Ok_0.0,
                spec_chunk_frame(data, spec_location(data, j))->Ok_0.1,
                answers[j],
            ),
    ensures
        answers_of(decode, data, answers),
        spec_parse_region(data, answers) == Err::<RegionView, McaParseError>(
            spec_chunks(data, answers, slot + 1)->Err_0,
        ),
{
    lemma_chunks_error_stays(data, answers, slot + 1, 1024);
    assert forall|j: int| 0 <= j < 1024 && #[trigger] slot_consulted(data, answers, j) implies answered(
        decode,
        spec_chunk_frame(data, spec_location(data, j))->Ok_0.0,
        spec_chunk_frame(data, spec_location(data, j))->Ok_0.1,
        answers[j],
    ) by {
        if j > slot {
            lemma_chunks_error_stays(data, answers, slot + 1, j);
        }
    }
}

/// The compression that `code` stands for.
pub fn compression_from_code(code: u8) -> (r: Option<Compression>)
    ensures
        r == compression_of(code),
{
    if code == 1 {
        Some(Compression::Gzip)
    } else if code == 2 {
        Some(Compression::Zlib)
    } else if code == 3 {
        Some(Compression::Uncompressed)
    } else {
        None
    }
}

fn read_be_u24(data: &Vec<u8>, at: usize) -> (v: u32)
    requires
        at + 3 <= data@.len(),
    ensures
        v == from_be_u24(data@[at as int], data@[at + 1], data@[at + 2]),
{
    let len: usize = data.len();
    (data[at] as u32) * 0x1_0000 + (data[at + 1] as u32) * 0x100 + (data[at + 2] as u32)
}

fn read_be_u32(data: &Vec<u8>, at: usize) -> (v: u32)
    requires
        at + 4 <= data@.len(),
    ensures
        v == from_be_u32(data@[at as int], data@[at + 1], data@[at + 2], data@[at + 3]),
{
    let len: usize = data.len();
    (data[at] as u32) * 0x100_0000 + (data[at + 1] as u32) * 0x1_0000 + (data[at + 2] as u32)
        * 0x100 + (data[at + 3] as u32)
}

/// Reads the two tables that a region file starts with.
pub fn parse_header(data: &Vec<u8>) -> (r: Result<
    (Vec<ChunkLocation>, Vec<ChunkTimestamp>),
    McaParseError,
>)
    ensures
        data@.len() < 8192 ==> r == Err::<(Vec<ChunkLocation>, Vec<ChunkTimestamp>), McaParseError>(
            McaParseError::EndOfData,
        ),
        data@.len() >= 8192 ==> (r matches Ok(tables) && tables.0@ == spec_locations(data@)
            && tables.1@ == spec_timestamps(data@)),
{
    if data.len() < HEADER_LEN {
        return Err(McaParseError::EndOfData);
    }
    let mut locations: Vec<ChunkLocation> = Vec::new();
    let mut slot: usize = 0;
    while slot < SLOTS
        invariant
            data@.len() >= 8192,
            slot <= 1024,
            locations@.len() == slot,
            forall|i: int| 0 <= i < slot ==> locations@[i] == spec_location(data@, i),
        decreases 1024 - slot,
    {
        let offset: u32 = read_be_u24(data, 4 * slot);
        let sectors: u8 = data[4 * slot + 3];
        locations.push(ChunkLocation { offset: offset as usize, sectors: sectors as usize });
        slot = slot + 1;
    }
    let mut timestamps: Vec<ChunkTimestamp> = Vec::new();
    let mut slot: usize = 0;
    while slot < SLOTS
        invariant
            data@.len() >= 8192,
            slot <= 1024,
            timestamps@.len() == slot,
            forall|i: int| 0 <= i < slot ==> timestamps@[i] == spec_timestamp(data@, i),
        decreases 1024 - slot,
    {
        let seconds: u32 = read_be_u32(data, 4096 + 4 * slot);
        timestamps.push(ChunkTimestamp { modified_seconds: seconds });
        slot = slot + 1;
    }
    assert(locations@ =~= spec_locations(data@));
    assert(timestamps@ =~= spec_timestamps(data@));
    Ok((locations, timestamps))
}

/// Cuts the stored chunk at `loc` out of a region file.
pub fn chunk_frame(data: &Vec<u8>, loc: &ChunkLocation) -> (r: Result<ChunkFrame, McaParseError>)
    ensures
        frame_result(r) == spec_chunk_frame(data@, *loc),
{
    let len: u64 = data.len() as u64;
    let whole: u64 = len / 4096;
    if loc.offset as u64 > whole || loc.sectors as u64 > whole - loc.offset as u64 {
        return Err(McaParseError::EndOfData);
    }
    let start: u64 = loc.offset as u64 * 4096;
    let end: u64 = start + loc.sectors as u64 * 4096;
    if end - start < 5 {
        return Err(McaParseError::EndOfData);
    }
    let at: usize = start as usize;
    let length: u64 = read_be_u32(data, at) as u64;
    let code: u8 = data[at + 4];
    if length < 1 || length > end - start - 4 {
        return Err(McaParseError::EndOfData);
    }
    match compression_from_code(code) {
        None => Err(McaParseError::UnsupportedCompression(code)),
        Some(compression) => {
            let from: usize = at + 5;
            let to: usize = (start + 4 + length) as usize;
            let payload = slice_to_vec(slice_subrange(data.as_slice(), from, to));
            Ok(ChunkFrame { compression, payload })
        },
    }
}

impl Region {
    /// The location records of the 1024 slots.
    pub fn chunk_location_offsets(&self) -> (v: &Vec<ChunkLocation>)
        ensures
            v@ == self@.locations,
    {
        &self.chunk_location_offsets
    }

    /// The timestamp records of the 1024 slots.
    pub fn chunk_timestamps(&self) -> (v: &Vec<ChunkTimestamp>)
        ensures
            v@ == self@.timestamps,
    {
        &self.chunk_timestamps
    }

    /// The chunks that were read, in the order of their slots.
    pub fn chunks(&self) -> (v: &Vec<Chunk>)
        ensures
            chunks_view(v@) == self@.chunks,
    {
        &self.chunks
    }

    /// The block at world position `pos`.
    pub fn get(&self, pos: Position) -> (b: Option<Block>)
        ensures
            match b {
                Some(block) => self@.block_at(pos) == Some(block@),
                None => self@.block_at(pos).is_none(),
            },
    {
        match self.get_chunk(pos.chunk_in_region()) {
            Some(chunk) => chunk.get(pos),
            None => None,
        }
    }

    /// The chunk at chunk position `pos`, by `x` and `z`: the first one
    /// there in the order of the slots.
    pub fn get_chunk(&self, pos: Position) -> (c: Option<&Chunk>)
        ensures
            match c {
                Some(chunk) => self@.chunk_at(pos.x as int, pos.z as int) matches Some(i)
                    && self@.chunks[i] == chunk@,
                None => self@.chunk_at(pos.x as int, pos.z as int).is_none(),
            },
    {
        let ghost all = self@.chunks;
        let mut i: usize = 0;
        while i < self.chunks.len()
            invariant
                i <= self.chunks.len(),
                all == self@.chunks,
                first_chunk_from(all, pos.x as int, pos.z as int, 0) == first_chunk_from(
                    all,
                    pos.x as int,
                    pos.z as int,
                    i as int,
                ),
            decreases self.chunks.len() - i,
        {
            let chunk: &Chunk = &self.chunks[i];
            assert(all[i as int] == chunk@);
            if chunk.chunk_pos().x == pos.x && chunk.chunk_pos().z == pos.z {
                return Some(chunk);
            }
            i = i + 1;
        }
        None
    }

    /// Reads a region file. `decode` is the decoder of compound tags: it is
    /// handed the payload of each stored chunk, in the order of the slots,
    /// with the compression that the chunk declares. The first failure, of
    /// a frame, of the decoder or of a chunk, ends the reading.
    pub fn parse_region<D: Fn(Compression, Vec<u8>) -> Decoded>(
        region_data: Vec<u8>,
        decode: D,
    ) -> (r: Result<Region, McaParseError>)
        requires
            forall|compression: Compression, payload: Vec<u8>|
                call_requires(decode, (compression, payload)),
        ensures
            exists|answers: Seq<Decoded>|
                answers_of(decode, region_data@, answers) && region_result(r) == spec_parse_region(
                    region_data@,
                    answers,
                ),
    {
        let ghost data = region_data@;
        let ghost mut answers: Seq<Decoded> = Seq::new(
            1024,
            |i: int| Err::<Tag, TagError>(TagError::Malformed),
        );
        let (locations, timestamps) = match parse_header(&region_data) {
            Ok(tables) => tables,
            Err(e) => {
                assert(answers_of(decode, data, answers));
                assert(spec_parse_region(data, answers) == Err::<RegionView, McaParseError>(e));
                return Err(e);
            },
        };
        let mut chunks: Vec<Chunk> = Vec::new();
        let mut slot: usize = 0;
        assert(chunks_view(chunks@) =~= Seq::empty());
        while slot < SLOTS
            invariant
                data == region_data@,
                data.len() >= 8192,
                locations@ == spec_locations(data),
                slot <= 1024,
                answers.len() == 1024,
                forall|compression: Compression, payload: Vec<u8>|
                    call_requires(decode, (compression, payload)),
                spec_chunks(data, answers, slot as int) == Ok::<Seq<ChunkView>, McaParseError>(
                    chunks_view(chunks@),
                ),
                forall|j: int|
                    0 <= j < slot && #[trigger] slot_consulted(data, answers, j) ==> answered(
                        decode,
                        spec_chunk_frame(data, spec_location(data, j))->Ok_0.0,
                        spec_chunk_frame(data, spec_location(data, j))->Ok_0.1,
                        answers[j],
                    ),
            decreases 1024 - slot,
        {
            let loc: ChunkLocation = locations[slot];
            assert(loc == spec_location(data, slot as int));
            if loc.is_present() {
                match chunk_frame(&region_data, &loc) {
                    Err(e) => {
                        proof {
                            lemma_region_failed(decode, data, answers, slot as int);
                        }
                        return Err(e);
                    },
                    Ok(frame) => {
                        let ghost payload = frame.payload;
                        let compression = frame.compression;
                        let answer = decode(compression, frame.payload);
                        proof {
                            assert(answered(decode, compression, payload@, answer));
                            lemma_answer_recorded(decode, data, answers, slot as int, answer);
                            answers = answers.update(slot as int, answer);
                        }
                        match answer {
                            Err(e) => {
                                proof {
                                    lemma_region_failed(decode, data, answers, slot as int);
                                }
                                return Err(McaParseError::NbtParseError(e));
                            },
                            Ok(tag) => match Chunk::parse_chunk(&tag) {
                                Err(e) => {
                                    proof {
                                        lemma_region_failed(decode, data, answers, slot as int);
                                    }
                                    return Err(e);
                                },
                                Ok(chunk) => {
                                    assert(chunks_view(chunks@.push(chunk)) =~= chunks_view(
                                        chunks@,
                                    ).push(chunk@));
                                    chunks.push(chunk);
                                },
                            },
                        }
                    },
                }
            }
            slot = slot + 1;
        }
        let region = Region {
            chunk_location_offsets: locations,
            chunk_timestamps: timestamps,
            chunks,
        };
        assert(answers_of(decode, data, answers));
        assert(spec_parse_region(data, answers) == Ok::<RegionView, McaParseError>(region@));
        Ok(region)
    }

    /// Reads a section that was stored in the older packing: the entries
    /// of `data` from the high end of the bits in use of each long.
    pub fn parse_section(tag: &Tag) -> (r: Result<Section, McaParseError>)
        ensures
            section_result(r) == spec_parse_section_with(*tag, PackOrder::HighFirst),
    {
        Section::parse_section_with(tag, PackOrder::HighFirst)
    }

    /// Reads the sections of a section list.
    pub fn parse_sections(data: &Vec<Tag>) -> (r: Result<Vec<Section>, McaParseError>)
        ensures
            match r {
                Ok(v) => spec_parse_sections(data@) == Ok::<Seq<SectionView>, McaParseError>(
                    sections_view(v@),
                ),
                Err(e) => spec_parse_sections(data@) == Err::<Seq<SectionView>, McaParseError>(e),
            },
    {
        let mut sections: Vec<Section> = Vec::new();
        let mut i: usize = 0;
        assert(data@.take(0) =~= Seq::<Tag>::empty());
        assert(sections_view(sections@) =~= Seq::empty());
        while i < data.len()
            invariant
                i <= data.len(),
                spec_parse_sections(data@.take(i as int)) == Ok::<Seq<SectionView>, McaParseError>(
                    sections_view(sections@),
                ),
            decreases data.len() - i,
        {
            proof {
                let next = data@.take(i + 1);
                assert(next.drop_last() =~= data@.take(i as int));
                assert(next.last() == data@[i as int]);
            }
            match Section::parse_section(&data[i]) {
                Ok(s) => {
                    assert(sections_view(sections@.push(s)) =~= sections_view(sections@).push(s@));
                    sections.push(s);
                },
                Err(e) => {
                    proof {
                        lemma_sections_error_stays(data@, i + 1);
                    }
                    return Err(e);
                },
            }
            i = i + 1;
        }
        assert(data@.take(data.len() as int) =~= data@);
        Ok(sections)
    }
}

proof fn lemma_sections_error_stays(tags: Seq<Tag>, upto: int)
    requires
        0 <= upto <= tags.len(),
        spec_parse_sections(tags.take(upto)) is Err,
    ensures
        spec_parse_sections(tags) == spec_parse_sections(tags.take(upto)),
    decreases tags.len() - upto,
{
    if upto < tags.len() {
        let next = tags.take(upto + 1);
        assert(next.drop_last() =~= tags.take(upto));
        lemma_sections_error_stays(tags, upto + 1);
    } else {
        assert(tags.take(upto) =~= tags);
    }
}

} // verus!
