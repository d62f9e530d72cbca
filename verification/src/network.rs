//! The network form of a section: block count, block-state container and
//! biome container.

use crate::bits::{
    bits_needed_for_palette, ceil_log2, entries_per_long, lemma_ceil_log2_bounds,
    lemma_packed_entry, longs_needed, low_mask, network_bits, pack, pack_values, packed_entry,
};
use crate::wire::{
    be_longs, be_u16, var_int_i32, var_ints, write_be_longs, write_be_u16, write_var_int,
};
use vstd::prelude::*;

verus! {

/// Identifier of the one biome that every section is sent with.
pub const BIOME_ID: i32 = 8;

/// The palette indices of the cells as entries to pack.
pub open spec fn index_values(cells: Seq<int>) -> Seq<u64> {
    Seq::new(cells.len(), |i: int| cells[i] as u64)
}

/// The global identifiers of the cells as entries to pack.
pub open spec fn id_values(ids: Seq<i32>, cells: Seq<int>) -> Seq<u64> {
    Seq::new(cells.len(), |i: int| ids[cells[i]] as u64)
}

/// A packed array on the wire: the number of longs, then the longs.
pub open spec fn spec_long_array(longs: Seq<u64>) -> Seq<u8> {
    var_int_i32(longs.len() as i32) + be_longs(longs)
}

/// The block-state container for a palette with the global identifiers
/// `ids` and cells that hold indices into it. One entry: the single-valued
/// form. A width of up to eight bits: the palette, then the packed indices.
/// Above that: the packed global identifiers, fifteen bits each.
pub open spec fn spec_container(ids: Seq<i32>, cells: Seq<int>) -> Seq<u8> {
    let bits = network_bits(ids.len());
    if bits == 0 {
        seq![0u8] + var_int_i32(ids[0]) + var_int_i32(0)
    } else if bits <= 8 {
        seq![bits as u8] + var_int_i32(ids.len() as i32) + var_ints(ids) + spec_long_array(
            pack(index_values(cells), bits as u64),
        )
    } else {
        seq![15u8] + spec_long_array(pack(id_values(ids, cells), 15))
    }
}

/// The biome container: single-valued, one fixed biome, no data.
pub open spec fn spec_biomes() -> Seq<u8> {
    seq![0u8] + var_int_i32(BIOME_ID) + var_int_i32(0)
}

/// The network form of a section with `count` blocks that are not air.
pub open spec fn spec_payload(count: u16, ids: Seq<i32>, cells: Seq<int>) -> Seq<u8> {
    be_u16(count) + spec_container(ids, cells) + spec_biomes()
}

/// The global identifier that a reader of the container finds for cell `p`:
/// the single identifier, the palette entry at the packed index, or the
/// packed identifier itself.
pub open spec fn container_cell(ids: Seq<i32>, cells: Seq<int>, p: int) -> int {
    let bits = network_bits(ids.len());
    if bits == 0 {
        ids[0] as int
    } else if bits <= 8 {
        ids[packed_entry(pack(index_values(cells), bits as u64), bits as u64, p) as int] as int
    } else {
        packed_entry(pack(id_values(ids, cells), 15), 15, p) as int
    }
}

/// Whether the container holds every cell as it is: always for the
/// single-valued and the palette form; for the packed identifiers only
/// where each identifier fits fifteen bits.
pub open spec fn fits_container(ids: Seq<i32>, cells: Seq<int>) -> bool {
    network_bits(ids.len()) > 8 ==> forall|i: int|
        0 <= i < cells.len() ==> 0 <= #[trigger] ids[cells[i]] < 0x8000
}

/// The widths of the palette form leave room for every palette index.
pub proof fn lemma_palette_fits(n: nat, bits: nat)
    requires
        n >= 2,
        bits == network_bits(n),
        bits <= 8,
    ensures
        4 <= bits <= 8,
        n <= low_mask(bits as u64) + 1,
{
    lemma_ceil_log2_bounds(n);
    vstd::arithmetic::power2::lemma2_to64();
    assert(low_mask(4) == 15) by (bit_vector);
    assert(low_mask(5) == 31) by (bit_vector);
    assert(low_mask(6) == 63) by (bit_vector);
    assert(low_mask(7) == 127) by (bit_vector);
    assert(low_mask(8) == 255) by (bit_vector);
    let c = ceil_log2(n);
    if c <= 4 {
        if c < 4 {
            vstd::arithmetic::power2::lemma_pow2_strictly_increases(c, 4);
        }
    }
}

/// Reading the container gives, for every cell, the global identifier of
/// the cell's block.
pub proof fn lemma_container_cell(ids: Seq<i32>, cells: Seq<int>, p: int)
    requires
        ids.len() >= 1,
        cells.len() == 4096,
        forall|i: int| 0 <= i < 4096 ==> 0 <= #[trigger] cells[i] < ids.len(),
        fits_container(ids, cells),
        0 <= p < 4096,
    ensures
        container_cell(ids, cells, p) == ids[cells[p]],
{
    let bits = network_bits(ids.len());
    if bits == 0 {
        assert(cells[p] == 0);
    } else if bits <= 8 {
        lemma_palette_fits(ids.len(), bits);
        let vals = index_values(cells);
        assert forall|i: int| 0 <= i < vals.len() implies vals[i] <= low_mask(bits as u64) by {
            assert(0 <= cells[i] < ids.len());
        }
        lemma_packed_entry(vals, bits as u64, p);
    } else {
        let vals = id_values(ids, cells);
        assert(low_mask(15) == 0x7fff) by (bit_vector);
        assert forall|i: int| 0 <= i < vals.len() implies vals[i] <= low_mask(15) by {
            assert(0 <= ids[cells[i]] < 0x8000);
        }
        lemma_packed_entry(vals, 15, p);
    }
}

/// Number of longs that hold the 4096 cells of a section, for each width
/// of the network form.
pub proof fn lemma_section_longs(bits: u64)
    requires
        4 <= bits <= 8 || bits == 15,
    ensures
        longs_needed(4096, bits) <= 1024,
        bits == 4 ==> longs_needed(4096, bits) == 256,
        bits == 5 ==> longs_needed(4096, bits) == 342,
        bits == 6 ==> longs_needed(4096, bits) == 410,
        bits == 7 ==> longs_needed(4096, bits) == 456,
        bits == 8 ==> longs_needed(4096, bits) == 512,
        bits == 15 ==> longs_needed(4096, bits) == 1024,
{
    if bits == 4 {
        assert(entries_per_long(4) == 16);
        assert(longs_needed(4096, 4) == 256);
    } else if bits == 5 {
        assert(entries_per_long(5) == 12);
        assert(longs_needed(4096, 5) == 342);
    } else if bits == 6 {
        assert(entries_per_long(6) == 10);
        assert(longs_needed(4096, 6) == 410);
    } else if bits == 7 {
        assert(entries_per_long(7) == 9);
        assert(longs_needed(4096, 7) == 456);
    } else if bits == 8 {
        assert(entries_per_long(8) == 8);
        assert(longs_needed(4096, 8) == 512);
    } else {
        assert(entries_per_long(15) == 4);
        assert(longs_needed(4096, 15) == 1024);
    }
}

fn write_long_array(out: &mut Vec<u8>, values: &Vec<u64>, bits: usize)
    requires
        4 <= bits <= 8 || bits == 15,
        values@.len() == 4096,
    ensures
        final(out)@ == old(out)@ + spec_long_array(pack(values@, bits as u64)),
{
    let longs = pack_values(values, bits);
    proof {
        lemma_section_longs(bits as u64);
    }
    write_var_int(out, longs.len() as i32);
    write_be_longs(out, &longs);
    assert(out@ =~= old(out)@ + spec_long_array(pack(values@, bits as u64)));
}

fn write_container(out: &mut Vec<u8>, palette_ids: &Vec<i32>, cells: &Vec<usize>)
    requires
        1 <= palette_ids@.len() <= 0x7fff_ffff,
        cells@.len() == 4096,
        forall|i: int| 0 <= i < 4096 ==> cells@[i] < palette_ids@.len(),
    ensures
        final(out)@ == old(out)@ + spec_container(
            palette_ids@,
            Seq::new(4096, |i: int| cells@[i] as int),
        ),
{
    let ghost grid = Seq::new(4096, |i: int| cells@[i] as int);
    let bits: usize = bits_needed_for_palette(palette_ids.len());
    out.push(bits as u8);
    if bits == 0 {
        write_var_int(out, palette_ids[0]);
        write_var_int(out, 0);
        assert(out@ =~= old(out)@ + spec_container(palette_ids@, grid));
    } else if bits <= 8 {
        write_var_int(out, palette_ids.len() as i32);
        let ghost start = out@;
        let mut k: usize = 0;
        assert(palette_ids@.take(0) =~= Seq::<i32>::empty());
        while k < palette_ids.len()
            invariant
                k <= palette_ids.len(),
                out@ == start + var_ints(palette_ids@.take(k as int)),
            decreases palette_ids.len() - k,
        {
            proof {
                let next = palette_ids@.take(k + 1);
                assert(next.drop_last() =~= palette_ids@.take(k as int));
                assert(next.last() == palette_ids@[k as int]);
                assert(start + var_ints(next) =~= out@ + var_int_i32(palette_ids@[k as int]));
            }
            write_var_int(out, palette_ids[k]);
            k = k + 1;
        }
        assert(palette_ids@.take(palette_ids.len() as int) =~= palette_ids@);
        let mut values: Vec<u64> = Vec::new();
        let mut i: usize = 0;
        while i < 4096
            invariant
                i <= 4096,
                cells@.len() == 4096,
                values@.len() == i,
                forall|j: int| 0 <= j < i ==> values@[j] == cells@[j] as u64,
            decreases 4096 - i,
        {
            values.push(cells[i] as u64);
            i = i + 1;
        }
        assert(values@ =~= index_values(grid));
        write_long_array(out, &values, bits);
        assert(out@ =~= old(out)@ + spec_container(palette_ids@, grid));
    } else {
        let mut values: Vec<u64> = Vec::new();
        let mut i: usize = 0;
        while i < 4096
            invariant
                i <= 4096,
                cells@.len() == 4096,
                forall|j: int| 0 <= j < 4096 ==> cells@[j] < palette_ids@.len(),
                values@.len() == i,
                forall|j: int| 0 <= j < i ==> values@[j] == palette_ids@[cells@[j] as int] as u64,
            decreases 4096 - i,
        {
            let id: i32 = palette_ids[cells[i]];
            values.push(#[verifier::truncate] (id as u64));
            i = i + 1;
        }
        assert(values@ =~= id_values(palette_ids@, grid));
        write_long_array(out, &values, bits);
        assert(out@ =~= old(out)@ + spec_container(palette_ids@, grid));
    }
}

/// The network form of a section: `block_count` blocks that are not air, a
/// palette with the global identifiers `palette_ids`, and for each of the
/// 4096 cells the index of its block in that palette.
pub fn network_payload(block_count: u16, palette_ids: &Vec<i32>, cells: &Vec<usize>) -> (out: Vec<
    u8,
>)
    requires
        1 <= palette_ids@.len() <= 0x7fff_ffff,
        cells@.len() == 4096,
        forall|i: int| 0 <= i < 4096 ==> cells@[i] < palette_ids@.len(),
    ensures
        out@ == spec_payload(
            block_count,
            palette_ids@,
            Seq::new(4096, |i: int| cells@[i] as int),
        ),
{
    let mut out: Vec<u8> = Vec::new();
    write_be_u16(&mut out, block_count);
    write_container(&mut out, palette_ids, cells);
    let ghost head = out@;
    out.push(0);
    write_var_int(&mut out, BIOME_ID);
    write_var_int(&mut out, 0);
    assert(out@ =~= head + spec_biomes());
    out
}

} // verus!
