//! Reading the network form of a section back: what a reader of the
//! container finds, and that it finds what was written.

use crate::bits::{lemma_packed_entry, longs_needed, network_bits, pack, packed_entry};
use crate::network::{
    fits_container, id_values, index_values, lemma_container_cell,
    lemma_palette_fits, lemma_section_longs, spec_biomes, spec_container, spec_long_array,
    spec_payload,
};
use crate::block::BlockView;
use crate::section::{
    count_non_air, index_in, indices_in, lemma_count_non_air_le, lemma_used_palette,
    spec_network_data, used_palette, SectionView,
};
use crate::wire::{be_longs, be_u16, be_u64, unsigned_of, var_int, var_int_i32, var_ints};
use vstd::prelude::*;

verus! {

/// The variable-length integer that starts at `at`, as an unsigned value,
/// and the index after it; `depth` bytes of it were read before. It ends
/// with the first byte below 128 and has at most five bytes.
pub open spec fn read_var_int(bytes: Seq<u8>, at: int, depth: nat) -> Option<(int, int)>
    decreases 5 - depth,
{
    if depth >= 5 || at < 0 || at >= bytes.len() {
        None
    } else if bytes[at] < 128 {
        Some((bytes[at] as int, at + 1))
    } else {
        match read_var_int(bytes, at + 1, depth + 1) {
            None => None,
            Some((rest, next)) => Some(((bytes[at] - 128) + 128 * rest, next)),
        }
    }
}

/// An unsigned 32-bit value read as signed: its two's complement.
pub open spec fn signed_of(u: int) -> int {
    if u >= 0x8000_0000 {
        u - 0x1_0000_0000
    } else {
        u
    }
}

/// `count` variable-length integers that start at `at`, as signed values,
/// and the index after them.
pub open spec fn read_var_ints(bytes: Seq<u8>, at: int, count: nat) -> Option<(Seq<int>, int)>
    decreases count,
{
    if count == 0 {
        Some((Seq::empty(), at))
    } else {
        match read_var_ints(bytes, at, (count - 1) as nat) {
            None => None,
            Some((front, mid)) => match read_var_int(bytes, mid, 0) {
                None => None,
                Some((v, end)) => Some((front.push(signed_of(v)), end)),
            },
        }
    }
}

/// The value of the eight bytes at `at`, the highest byte first.
pub open spec fn read_be_u64(bytes: Seq<u8>, at: int) -> int {
    bytes[at] * 0x100_0000_0000_0000 + bytes[at + 1] * 0x1_0000_0000_0000 + bytes[at + 2]
        * 0x100_0000_0000 + bytes[at + 3] * 0x1_0000_0000 + bytes[at + 4] * 0x100_0000 + bytes[at
        + 5] * 0x1_0000 + bytes[at + 6] * 0x100 + bytes[at + 7]
}

/// The `count` longs that start at `at`.
pub open spec fn read_longs(bytes: Seq<u8>, at: int, count: nat) -> Seq<u64> {
    Seq::new(count, |j: int| read_be_u64(bytes, at + 8 * j) as u64)
}

/// The packed array that starts at `at`, for entries `bits` wide: a count
/// of longs and the longs. It must lie within `bytes` and hold 4096 entries.
pub open spec fn read_long_array(bytes: Seq<u8>, at: int, bits: u64) -> Option<Seq<u64>> {
    match read_var_int(bytes, at, 0) {
        None => None,
        Some((count, start)) => if start + 8 * count > bytes.len() || count < longs_needed(
            4096,
            bits,
        ) {
            None
        } else {
            Some(read_longs(bytes, start, count as nat))
        },
    }
}

/// The global identifiers of the 4096 cells that the block-state container
/// at `at` holds.
pub open spec fn read_container(bytes: Seq<u8>, at: int) -> Option<Seq<int>> {
    if at < 0 || at >= bytes.len() {
        None
    } else {
        let bits = bytes[at];
        if bits == 0 {
            match read_var_int(bytes, at + 1, 0) {
                None => None,
                Some((id, _)) => Some(Seq::new(4096, |p: int| signed_of(id))),
            }
        } else if bits <= 8 {
            match read_var_int(bytes, at + 1, 0) {
                None => None,
                Some((n, ids_at)) => match read_var_ints(bytes, ids_at, n as nat) {
                    None => None,
                    Some((ids, longs_at)) => match read_long_array(bytes, longs_at, bits as u64) {
                        None => None,
                        Some(longs) => Some(
                            Seq::new(
                                4096,
                                |p: int| ids[packed_entry(longs, bits as u64, p) as int],
                            ),
                        ),
                    },
                },
            }
        } else {
            match read_long_array(bytes, at + 1, bits as u64) {
                None => None,
                Some(longs) => Some(Seq::new(4096, |p: int| packed_entry(longs, bits as u64, p) as int)),
            }
        }
    }
}

/// What a reader finds in the network form of a section: the block count
/// and the global identifier of each of the 4096 cells.
pub open spec fn read_payload(bytes: Seq<u8>) -> Option<(int, Seq<int>)> {
    if bytes.len() < 2 {
        None
    } else {
        match read_container(bytes, 2) {
            None => None,
            Some(grid) => Some((bytes[0] * 256 + bytes[1], grid)),
        }
    }
}

/// Largest value, and one more, that a variable-length integer can hold in
/// the bytes that are left after `depth` bytes.
pub open spec fn var_int_limit(depth: nat) -> int {
    if depth == 0 {
        0x8_0000_0000
    } else if depth == 1 {
        0x1000_0000
    } else if depth == 2 {
        0x20_0000
    } else if depth == 3 {
        0x4000
    } else if depth == 4 {
        0x80
    } else {
        0
    }
}

/// A variable-length integer reads back as the value that was written.
pub proof fn lemma_read_var_int(bytes: Seq<u8>, at: int, v: u32, depth: nat)
    requires
        0 <= at,
        at + var_int(v).len() <= bytes.len(),
        bytes.subrange(at, at + var_int(v).len()) == var_int(v),
        v < var_int_limit(depth),
    ensures
        read_var_int(bytes, at, depth) == Some((v as int, at + var_int(v).len())),
    decreases v,
{
    let written = var_int(v);
    assert(bytes[at] == bytes.subrange(at, at + written.len())[0]);
    if v >= 128 {
        let rest = var_int(v / 128);
        assert(written.len() == 1 + rest.len());
        assert(bytes.subrange(at + 1, at + 1 + rest.len()) =~= rest) by {
            assert forall|i: int| 0 <= i < rest.len() implies bytes.subrange(
                at + 1,
                at + 1 + rest.len(),
            )[i] == rest[i] by {
                assert(bytes.subrange(at, at + written.len())[i + 1] == written[i + 1]);
            }
        }
        lemma_read_var_int(bytes, at + 1, v / 128, depth + 1);
    }
}

/// The signed reading of a value written as unsigned is the value.
pub proof fn lemma_signed_of_unsigned(v: i32)
    ensures
        signed_of(unsigned_of(v) as int) == v,
{
}

/// A run of variable-length integers reads back as the values written.
pub proof fn lemma_read_var_ints(bytes: Seq<u8>, at: int, ids: Seq<i32>)
    requires
        0 <= at,
        at + var_ints(ids).len() <= bytes.len(),
        bytes.subrange(at, at + var_ints(ids).len()) == var_ints(ids),
    ensures
        read_var_ints(bytes, at, ids.len()) == Some(
            (Seq::new(ids.len(), |i: int| ids[i] as int), at + var_ints(ids).len()),
        ),
    decreases ids.len(),
{
    let whole = var_ints(ids);
    if ids.len() == 0 {
        assert(Seq::new(ids.len(), |i: int| ids[i] as int) =~= Seq::<int>::empty());
    } else {
        let front = ids.drop_last();
        let head = var_ints(front);
        let tail = var_int_i32(ids.last());
        assert(whole == head + tail);
        assert(bytes.subrange(at, at + head.len()) =~= head) by {
            assert forall|i: int| 0 <= i < head.len() implies bytes.subrange(at, at + head.len())[i]
                == head[i] by {
                assert(bytes.subrange(at, at + whole.len())[i] == whole[i]);
            }
        }
        lemma_read_var_ints(bytes, at, front);
        let mid = at + head.len();
        assert(bytes.subrange(mid, mid + tail.len()) =~= tail) by {
            assert forall|i: int| 0 <= i < tail.len() implies bytes.subrange(mid, mid + tail.len())[i]
                == tail[i] by {
                assert(bytes.subrange(at, at + whole.len())[head.len() + i] == whole[head.len()
                    + i]);
            }
        }
        lemma_read_var_int(bytes, mid, unsigned_of(ids.last()), 0);
        lemma_signed_of_unsigned(ids.last());
        assert(Seq::new(front.len(), |i: int| front[i] as int).push(ids.last() as int) =~= Seq::new(
            ids.len(),
            |i: int| ids[i] as int,
        ));
    }
}

/// Eight bytes, the highest first, read back as the long that was written.
pub proof fn lemma_read_be_u64(v: u64)
    ensures
        be_u64(v).len() == 8,
        read_be_u64(be_u64(v), 0) == v,
{
    assert(v == (v / 0x100_0000_0000_0000) * 0x100_0000_0000_0000 + (v / 0x1_0000_0000_0000 % 256)
        * 0x1_0000_0000_0000 + (v / 0x100_0000_0000 % 256) * 0x100_0000_0000 + (v / 0x1_0000_0000
        % 256) * 0x1_0000_0000 + (v / 0x100_0000 % 256) * 0x100_0000 + (v / 0x1_0000 % 256)
        * 0x1_0000 + (v / 0x100 % 256) * 0x100 + v % 256) by (bit_vector);
    assert(v / 0x100_0000_0000_0000 < 256) by (bit_vector);
}

/// The bytes of a run of longs: eight for each, long `j` at `8 * j`.
pub proof fn lemma_be_longs(longs: Seq<u64>, j: int)
    requires
        0 <= j < longs.len(),
    ensures
        be_longs(longs).len() == 8 * longs.len(),
        be_longs(longs).subrange(8 * j, 8 * j + 8) == be_u64(longs[j]),
    decreases longs.len(),
{
    lemma_be_longs_len(longs);
    let front = longs.drop_last();
    lemma_be_longs_len(front);
    if j < longs.len() - 1 {
        lemma_be_longs(front, j);
        assert(be_longs(longs).subrange(8 * j, 8 * j + 8) =~= be_longs(front).subrange(
            8 * j,
            8 * j + 8,
        ));
    } else {
        assert(be_longs(longs).subrange(8 * j, 8 * j + 8) =~= be_u64(longs[j]));
    }
}

/// A run of longs takes eight bytes for each.
pub proof fn lemma_be_longs_len(longs: Seq<u64>)
    ensures
        be_longs(longs).len() == 8 * longs.len(),
    decreases longs.len(),
{
    if longs.len() > 0 {
        lemma_be_longs_len(longs.drop_last());
    }
}

/// A run of longs reads back as the longs that were written.
pub proof fn lemma_read_longs(bytes: Seq<u8>, at: int, longs: Seq<u64>)
    requires
        0 <= at,
        at + 8 * longs.len() <= bytes.len(),
        bytes.subrange(at, at + 8 * longs.len()) == be_longs(longs),
    ensures
        read_longs(bytes, at, longs.len()) == longs,
{
    lemma_be_longs_len(longs);
    assert forall|j: int| 0 <= j < longs.len() implies read_longs(bytes, at, longs.len())[j]
        == longs[j] by {
        lemma_be_longs(longs, j);
        lemma_read_be_u64(longs[j]);
        let word = be_u64(longs[j]);
        let whole = be_longs(longs);
        assert forall|k: int| 0 <= k < 8 implies bytes[at + 8 * j + k] == word[k] by {
            assert(bytes.subrange(at, at + 8 * longs.len())[8 * j + k] == whole[8 * j + k]);
            assert(whole.subrange(8 * j, 8 * j + 8)[k] == whole[8 * j + k]);
        }
        assert(read_be_u64(bytes, at + 8 * j) == read_be_u64(word, 0));
    }
    assert(read_longs(bytes, at, longs.len()) =~= longs);
}

/// Where `bytes` holds `a` followed by `b` at `at`, it holds `a` at `at`
/// and `b` right after it.
pub proof fn lemma_parts(bytes: Seq<u8>, at: int, a: Seq<u8>, b: Seq<u8>)
    requires
        0 <= at,
        at + a.len() + b.len() <= bytes.len(),
        bytes.subrange(at, at + a.len() + b.len()) == a + b,
    ensures
        bytes.subrange(at, at + a.len()) == a,
        bytes.subrange(at + a.len(), at + a.len() + b.len()) == b,
{
    let whole = bytes.subrange(at, at + a.len() + b.len());
    assert forall|i: int| 0 <= i < a.len() implies bytes.subrange(at, at + a.len())[i] == a[i] by {
        assert(whole[i] == (a + b)[i]);
    }
    assert forall|i: int| 0 <= i < b.len() implies bytes.subrange(
        at + a.len(),
        at + a.len() + b.len(),
    )[i] == b[i] by {
        assert(whole[a.len() + i] == (a + b)[a.len() + i]);
    }
    assert(bytes.subrange(at, at + a.len()) =~= a);
    assert(bytes.subrange(at + a.len(), at + a.len() + b.len()) =~= b);
}

/// A packed array reads back as the longs that were written.
pub proof fn lemma_read_long_array(bytes: Seq<u8>, at: int, longs: Seq<u64>, bits: u64)
    requires
        0 <= at,
        longs_needed(4096, bits) <= longs.len() <= 0x7fff_ffff,
        at + spec_long_array(longs).len() <= bytes.len(),
        bytes.subrange(at, at + spec_long_array(longs).len()) == spec_long_array(longs),
    ensures
        read_long_array(bytes, at, bits) == Some(longs),
{
    let head = var_int_i32(longs.len() as i32);
    let body = be_longs(longs);
    lemma_be_longs_len(longs);
    lemma_parts(bytes, at, head, body);
    lemma_read_var_int(bytes, at, unsigned_of(longs.len() as i32), 0);
    lemma_read_longs(bytes, at + head.len(), longs);
}

/// The block-state container reads back, for every cell, as the global
/// identifier of the cell's block.
pub proof fn lemma_read_container(bytes: Seq<u8>, at: int, ids: Seq<i32>, cells: Seq<int>)
    requires
        0 <= at,
        1 <= ids.len() <= 0x7fff_ffff,
        cells.len() == 4096,
        forall|i: int| 0 <= i < 4096 ==> 0 <= #[trigger] cells[i] < ids.len(),
        fits_container(ids, cells),
        at + spec_container(ids, cells).len() <= bytes.len(),
        bytes.subrange(at, at + spec_container(ids, cells).len()) == spec_container(ids, cells),
    ensures
        read_container(bytes, at) == Some(Seq::new(4096, |p: int| ids[cells[p]] as int)),
{
    let written = spec_container(ids, cells);
    let expected = Seq::new(4096, |p: int| ids[cells[p]] as int);
    let bits = network_bits(ids.len());
    assert(bytes[at] == bytes.subrange(at, at + written.len())[0]);
    if bits == 0 {
        let id = var_int_i32(ids[0]);
        let rest = id + var_int_i32(0);
        assert(written =~= seq![0u8] + rest);
        lemma_parts(bytes, at, seq![0u8], rest);
        lemma_parts(bytes, at + 1, id, var_int_i32(0));
        lemma_read_var_int(bytes, at + 1, unsigned_of(ids[0]), 0);
        lemma_signed_of_unsigned(ids[0]);
        assert forall|p: int| 0 <= p < 4096 implies ids[0] == ids[cells[p]] by {
            assert(0 <= cells[p] < ids.len());
        }
        assert(read_container(bytes, at)->Some_0 =~= expected);
    } else if bits <= 8 {
        lemma_palette_fits(ids.len(), bits);
        lemma_section_longs(bits as u64);
        let longs = pack(index_values(cells), bits as u64);
        let count = var_int_i32(ids.len() as i32);
        let palette = var_ints(ids);
        let array = spec_long_array(longs);
        assert(written =~= seq![bits as u8] + (count + (palette + array)));
        lemma_parts(bytes, at, seq![bits as u8], count + (palette + array));
        lemma_parts(bytes, at + 1, count, palette + array);
        lemma_parts(bytes, at + 1 + count.len(), palette, array);
        lemma_read_var_int(bytes, at + 1, unsigned_of(ids.len() as i32), 0);
        lemma_read_var_ints(bytes, at + 1 + count.len(), ids);
        lemma_read_long_array(bytes, at + 1 + count.len() + palette.len(), longs, bits as u64);
        let found = Seq::new(ids.len(), |i: int| ids[i] as int);
        assert forall|p: int| 0 <= p < 4096 implies found[packed_entry(longs, bits as u64, p) as int]
            == expected[p] by {
            lemma_container_cell(ids, cells, p);
            lemma_packed_entry(index_values(cells), bits as u64, p);
        }
        assert(read_container(bytes, at)->Some_0 =~= expected);
    } else {
        lemma_section_longs(15);
        let longs = pack(id_values(ids, cells), 15);
        let array = spec_long_array(longs);
        assert(written =~= seq![15u8] + array);
        lemma_parts(bytes, at, seq![15u8], array);
        lemma_read_long_array(bytes, at + 1, longs, 15);
        assert forall|p: int| 0 <= p < 4096 implies packed_entry(longs, 15, p) as int
            == expected[p] by {
            lemma_container_cell(ids, cells, p);
        }
        assert(read_container(bytes, at)->Some_0 =~= expected);
    }
}

/// Reading the network form of a section back gives the block count that
/// was written and, for every cell, the global identifier of the cell's
/// block. For the packed identifiers this holds where each identifier fits
/// fifteen bits.
pub proof fn lemma_network_round_trip(count: u16, ids: Seq<i32>, cells: Seq<int>)
    requires
        1 <= ids.len() <= 0x7fff_ffff,
        cells.len() == 4096,
        forall|i: int| 0 <= i < 4096 ==> 0 <= #[trigger] cells[i] < ids.len(),
        fits_container(ids, cells),
    ensures
        read_payload(spec_payload(count, ids, cells)) == Some(
            (count as int, Seq::new(4096, |p: int| ids[cells[p]] as int)),
        ),
{
    let head = be_u16(count);
    let body = spec_container(ids, cells);
    let tail = spec_biomes();
    let bytes = spec_payload(count, ids, cells);
    assert(bytes =~= head + (body + tail));
    assert(bytes.subrange(0, bytes.len() as int) =~= bytes);
    lemma_parts(bytes, 0, head, body + tail);
    lemma_parts(bytes, 2, body, tail);
    lemma_read_container(bytes, 2, ids, cells);
    assert(bytes[0] == head[0] && bytes[1] == head[1]);
}

/// The global identifiers that `id_of` gives to the blocks of `palette`.
pub open spec fn ids_of(id_of: spec_fn(BlockView) -> i32, palette: Seq<BlockView>) -> Seq<i32> {
    Seq::new(palette.len(), |k: int| id_of(palette[k]))
}

/// Whether the network form holds every cell of `s` as it is under `id_of`:
/// always where at most 256 different blocks occur; above that only where
/// the identifier of every block fits fifteen bits.
pub open spec fn fits_network(s: SectionView, id_of: spec_fn(BlockView) -> i32) -> bool {
    network_bits(used_palette(s.cells()).len()) > 8 ==> forall|p: int|
        0 <= p < 4096 ==> 0 <= #[trigger] id_of(s.block_at(p)) < 0x8000
}

/// Writing a section in its network form under a table of identifiers and
/// reading it back gives the number of its blocks that are not air and, for
/// every cell, the identifier of the block of that cell.
pub proof fn lemma_section_round_trip(s: SectionView, id_of: spec_fn(BlockView) -> i32)
    requires
        s.wf(),
        fits_network(s, id_of),
    ensures
        read_payload(spec_network_data(s, ids_of(id_of, used_palette(s.cells())))) == Some(
            (count_non_air(s.cells()) as int, Seq::new(4096, |p: int| id_of(s.block_at(p)) as int)),
        ),
{
    let all = s.cells();
    let used = used_palette(all);
    let ids = ids_of(id_of, used);
    let cells = indices_in(used, all);
    lemma_used_palette(all);
    lemma_count_non_air_le(all);
    assert forall|p: int| 0 <= p < 4096 implies 0 <= #[trigger] cells[p] < ids.len() && used[cells[p]]
        == all[p] by {
        assert(used.contains(all[p]));
        let chosen = index_in(used, all[p]);
        assert(0 <= chosen < used.len() && used[chosen] == all[p]);
    }
    assert forall|p: int| 0 <= p < 4096 implies #[trigger] ids[cells[p]] == id_of(
        s.block_at(p),
    ) by {
        assert(0 <= cells[p] < ids.len() && used[cells[p]] == all[p]);
    }
    assert(fits_container(ids, cells)) by {
        if network_bits(ids.len()) > 8 {
            assert forall|i: int| 0 <= i < cells.len() implies 0 <= #[trigger] ids[cells[i]]
                < 0x8000 by {
                assert(ids[cells[i]] == id_of(s.block_at(i)));
            }
        }
    }
    lemma_network_round_trip(count_non_air(all) as u16, ids, cells);
    assert(Seq::new(4096, |p: int| ids[cells[p]] as int) =~= Seq::new(
        4096,
        |p: int| id_of(s.block_at(p)) as int,
    ));
}

} // verus!
