//! World positions and the coordinate spaces derived from them.

use crate::text::{append_decimal, decimal};
use vstd::prelude::*;
use vstd::string::StringExecFns;

verus! {

/// A block position in world coordinates.
///
/// The fields are declared in comparison order: positions are ordered by
/// `y`, then `x`, then `z`.
#[derive(Debug, Clone, Copy, PartialEq, Eq, Ord, Hash, Structural)]
pub struct Position {
    pub y: i32,
    pub x: i32,
    pub z: i32,
}

/// Lowest world `y` that belongs to a chunk.
pub const MIN_Y: i32 = -64;

/// First world `y` above the top of a chunk.
pub const MAX_Y: i32 = 320;

/// Region coordinate of a world coordinate: regions are 512 blocks wide.
pub open spec fn region_coord(v: int) -> int {
    v / 512
}

/// Chunk coordinate of a world coordinate: the quotient by 16 rounded toward
/// zero, less one for every negative input.
pub open spec fn chunk_coord(v: int) -> int {
    if v < 0 {
        -((-v) / 16) - 1
    } else {
        v / 16
    }
}

/// In-section coordinate of a world coordinate: the Euclidean remainder by 16.
pub open spec fn section_coord(v: int) -> int {
    v % 16
}

/// Whether a world `y` lies inside the vertical extent of a chunk.
pub open spec fn y_in_chunk(y: int) -> bool {
    MIN_Y <= y < MAX_Y
}

/// Index of the section that holds world height `y`, counted from the bottom.
pub open spec fn section_index(y: int) -> int {
    (y + 64) / 16
}

/// Linear index of an in-section position: `y` outermost, `x` innermost.
pub open spec fn linear_index(x: int, y: int, z: int) -> int {
    y * 256 + z * 16 + x
}

/// Linear index, inside its section, of the block at world position `p`.
pub open spec fn block_index(p: Position) -> int {
    linear_index(
        section_coord(p.x as int),
        section_coord(p.y as int),
        section_coord(p.z as int),
    )
}

/// Slot of the region directory that belongs to chunk `(cx, cz)`:
/// row-major over the low five bits of both coordinates.
pub open spec fn slot_index(cx: int, cz: int) -> int {
    (cz % 32) * 32 + (cx % 32)
}

fn chunk_axis(v: i32) -> (c: i32)
    ensures
        c == chunk_coord(v as int),
{
    if v < 0 {
        v / 16 - 1
    } else {
        v / 16
    }
}

fn section_axis(v: i32) -> (c: i32)
    ensures
        c == section_coord(v as int),
        0 <= c < 16,
{
    let c: i32 = v & 15;
    assert(v & 15 == v % 16) by (bit_vector);
    c
}

impl Position {
    /// The position `(x, y, z)`.
    pub fn new(x: i32, y: i32, z: i32) -> (p: Position)
        ensures
            p.x == x,
            p.y == y,
            p.z == z,
    {
        Position { y, x, z }
    }

    /// The region that contains this position, `(x >> 9, 0, z >> 9)`.
    pub fn region_in_world(&self) -> (r: Position)
        ensures
            r.x == region_coord(self.x as int),
            r.y == 0,
            r.z == region_coord(self.z as int),
    {
        let x: i32 = self.x >> 9;
        let z: i32 = self.z >> 9;
        proof {
            let sx = self.x;
            let sz = self.z;
            assert(sx >> 9 == sx / 512) by (bit_vector);
            assert(sz >> 9 == sz / 512) by (bit_vector);
        }
        Position::new(x, 0, z)
    }

    /// The chunk that contains this position, by `x` and `z`; `y` is unused
    /// and comes back as zero.
    pub fn chunk_in_region(&self) -> (r: Position)
        ensures
            r.x == chunk_coord(self.x as int),
            r.y == 0,
            r.z == chunk_coord(self.z as int),
    {
        Position::new(chunk_axis(self.x), 0, chunk_axis(self.z))
    }

    /// Index of the section of its chunk that holds this position, from the
    /// bottom; `None` where `y` is below or above the chunk.
    pub fn section_index_in_chunk(&self) -> (r: Option<u32>)
        ensures
            y_in_chunk(self.y as int) ==> r == Some(section_index(self.y as int) as u32),
            !y_in_chunk(self.y as int) ==> r.is_none(),
            r matches Some(i) ==> i < 24,
    {
        if self.y < MIN_Y || self.y >= MAX_Y {
            return None;
        }
        let shifted: i32 = self.y + 64;
        Some((shifted / 16) as u32)
    }

    /// The position inside its section: every axis reduced to `0..16`.
    pub fn block_in_section(&self) -> (r: Position)
        ensures
            r.x == section_coord(self.x as int),
            r.y == section_coord(self.y as int),
            r.z == section_coord(self.z as int),
    {
        Position::new(section_axis(self.x), section_axis(self.y), section_axis(self.z))
    }

    /// This position as text: `x / y / z`.
    pub fn describe(&self) -> (s: String)
        ensures
            s@ == decimal(self.x as int) + seq![' ', '/', ' '] + decimal(self.y as int) + seq![
                ' ',
                '/',
                ' ',
            ] + decimal(self.z as int),
    {
        proof {
            reveal_strlit(" / ");
        }
        let mut s: String = String::new();
        append_decimal(&mut s, self.x);
        s.append(" / ");
        append_decimal(&mut s, self.y);
        s.append(" / ");
        append_decimal(&mut s, self.z);
        assert(s@ =~= decimal(self.x as int) + seq![' ', '/', ' '] + decimal(self.y as int) + seq![
            ' ',
            '/',
            ' ',
        ] + decimal(self.z as int));
        s
    }

    /// Linear index of this position inside its section.
    pub fn block_index_in_section(&self) -> (r: usize)
        ensures
            r == block_index(*self),
            r < 4096,
    {
        let pos = self.block_in_section();
        let block_pos: i32 = pos.y * 16 * 16 + pos.z * 16 + pos.x;
        block_pos as usize
    }
}

/// A world coordinate is the chunk coordinate times sixteen plus the
/// in-section coordinate, on `x` and on `z`, and the in-section `y` is
/// `y mod 16`; negative multiples of sixteen on `x` or `z` are left out,
/// where the chunk coordinate lies one chunk lower.
pub proof fn lemma_chunk_and_section_rebuild(p: Position)
    requires
        y_in_chunk(p.y as int),
        !(p.x < 0 && p.x as int % 16 == 0),
        !(p.z < 0 && p.z as int % 16 == 0),
    ensures
        chunk_coord(p.x as int) * 16 + section_coord(p.x as int) == p.x,
        chunk_coord(p.z as int) * 16 + section_coord(p.z as int) == p.z,
        section_coord(p.y as int) == p.y as int % 16,
        0 <= section_coord(p.y as int) < 16,
{
}

/// Heights inside a chunk map to the sections `0..24`, the lowest height to
/// section 0 and the highest to section 23.
pub proof fn lemma_section_index_range(y: int)
    requires
        y_in_chunk(y),
    ensures
        0 <= section_index(y) < 24,
        section_index(-64) == 0,
        section_index(319) == 23,
{
}

} // verus!
