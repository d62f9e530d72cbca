//! Sections: a 16 x 16 x 16 grid of blocks, stored as a palette and 4096
//! indices into it.

use crate::bits::{
    entries_per_long, field_of, lemma_ceil_log2_le, longs_needed, packed_entry,
    packed_entry_high_first, storage_bits, storage_bits_of,
};
use crate::block::{spec_block, Block, BlockView};
use crate::network::{network_payload, spec_payload};
use crate::error::{McaParseError, TagError};
use crate::position::{block_index, Position};
use crate::tag::Tag;
use vstd::prelude::*;
use vstd::string::StringExecFns;

verus! {

/// The table of global block-state identifiers, supplied by the caller. The
/// encoder asks it once for every different block of a section and takes
/// each answer as it comes.
pub trait BlockIDGetter {
    /// The global identifier of `block`.
    fn id_of(&self, block: &Block) -> i32;
}

/// What a section is: its palette and, for each of its 4096 cells in linear
/// order, the index of the cell's block in the palette.
pub struct SectionView {
    pub palette: Seq<BlockView>,
    pub blocks: Seq<int>,
}

impl SectionView {
    /// The palette is not empty, there are 4096 cells, and every cell refers
    /// to a palette entry.
    pub open spec fn wf(self) -> bool {
        &&& self.palette.len() >= 1
        &&& self.blocks.len() == 4096
        &&& forall|i: int| 0 <= i < 4096 ==> 0 <= #[trigger] self.blocks[i] < self.palette.len()
    }

    /// The block of the cell with linear index `index`.
    pub open spec fn block_at(self, index: int) -> BlockView {
        self.palette[self.blocks[index]]
    }

    /// The blocks of all cells, in linear order.
    pub open spec fn cells(self) -> Seq<BlockView> {
        Seq::new(4096, |i: int| self.block_at(i))
    }
}

/// One of the cubes of 16 x 16 x 16 blocks that a chunk is stacked from.
#[derive(Debug)]
pub struct Section {
    blocks: Vec<usize>,
    palette: Vec<Block>,
}

/// The blocks of `blocks`.
pub open spec fn blocks_view(blocks: Seq<Block>) -> Seq<BlockView> {
    Seq::new(blocks.len(), |i: int| blocks[i]@)
}

/// The values of `indices` as integers.
pub open spec fn indices_view(indices: Seq<usize>) -> Seq<int> {
    Seq::new(indices.len(), |i: int| indices[i] as int)
}

/// The long values of a `data` array as bit patterns.
pub open spec fn longs_of(data: Seq<i64>) -> Seq<u64> {
    Seq::new(data.len(), |i: int| data[i] as u64)
}

/// The blocks that the entries of a palette list describe; the error of the
/// first entry that describes none.
pub open spec fn spec_palette(entries: Seq<Tag>) -> Result<Seq<BlockView>, TagError>
    decreases entries.len(),
{
    if entries.len() == 0 {
        Ok(Seq::empty())
    } else {
        match spec_palette(entries.drop_last()) {
            Err(e) => Err(e),
            Ok(front) => match spec_block(entries.last()) {
                Err(e) => Err(e),
                Ok(b) => Ok(front.push(b)),
            },
        }
    }
}

/// From which end of a long the entries of a packed array are counted.
#[derive(Debug, Clone, Copy, PartialEq, Eq, Structural)]
pub enum PackOrder {
    /// From the least significant end: the packing of region files.
    LowFirst,
    /// From the high end of the bits in use: the packing of older data.
    HighFirst,
}

/// Entry `p` of the packed array `longs`, counted in the given order.
pub open spec fn entry_at(longs: Seq<u64>, bits: u64, order: PackOrder, p: int) -> u64 {
    match order {
        PackOrder::LowFirst => packed_entry(longs, bits, p),
        PackOrder::HighFirst => packed_entry_high_first(longs, bits, p),
    }
}

/// The first 4096 entries of the packed array `data`, for entries `bits` wide.
pub open spec fn stored_cells(data: Seq<i64>, bits: u64, order: PackOrder) -> Seq<int> {
    Seq::new(4096, |p: int| entry_at(longs_of(data), bits, order, p) as int)
}

/// The 4096 palette indices that `data` holds for a palette of `n` entries:
/// entry `p` of the packed array, at the stored width. `data` must hold
/// every entry and every entry must refer into the palette.
pub open spec fn spec_unpack(data: Seq<i64>, n: nat, order: PackOrder) -> Result<
    Seq<int>,
    McaParseError,
> {
    let bits = storage_bits(n) as u64;
    if data.len() < longs_needed(4096, bits) {
        Err(McaParseError::EndOfData)
    } else {
        let cells = stored_cells(data, bits, order);
        if forall|p: int| 0 <= p < 4096 ==> #[trigger] cells[p] < n {
            Ok(cells)
        } else {
            Err(McaParseError::NbtParseError(TagError::InvalidValue))
        }
    }
}

/// The palette that a section tag describes: the blocks of the entries of
/// `palette` in `block_states`.
pub open spec fn spec_section_palette(tag: Tag) -> Result<Seq<BlockView>, TagError> {
    match tag.spec_get("block_states"@) {
        Err(e) => Err(e),
        Ok(states) => match states.spec_get_list("palette"@) {
            Err(e) => Err(e),
            Ok(entries) => spec_palette(entries),
        },
    }
}

/// The section that a section tag of a region file describes: its `data`
/// is packed from the least significant end of each long.
pub open spec fn spec_parse_section(tag: Tag) -> Result<SectionView, McaParseError> {
    spec_parse_section_with(tag, PackOrder::LowFirst)
}

/// The section that a section tag describes: the palette of `block_states`
/// and, unless the palette has one entry only, the indices packed in `data`
/// in the given order. An empty palette is `InvalidValue`.
pub open spec fn spec_parse_section_with(tag: Tag, order: PackOrder) -> Result<
    SectionView,
    McaParseError,
> {
    match spec_section_palette(tag) {
        Err(e) => Err(McaParseError::NbtParseError(e)),
        Ok(palette) => if palette.len() == 0 {
            Err(McaParseError::NbtParseError(TagError::InvalidValue))
        } else if palette.len() == 1 {
            Ok(SectionView { palette, blocks: Seq::new(4096, |i: int| 0int) })
        } else {
            match tag.spec_get("block_states"@)->Ok_0.spec_get_long_array("data"@) {
                Err(e) => Err(McaParseError::NbtParseError(e)),
                Ok(data) => match spec_unpack(data, palette.len(), order) {
                    Err(e) => Err(e),
                    Ok(blocks) => Ok(SectionView { palette, blocks }),
                },
            }
        },
    }
}

/// The different blocks of `cells`, each once, in the order in which they
/// first occur.
pub open spec fn used_palette(cells: Seq<BlockView>) -> Seq<BlockView>
    decreases cells.len(),
{
    if cells.len() == 0 {
        Seq::empty()
    } else {
        let before = used_palette(cells.drop_last());
        if before.contains(cells.last()) {
            before
        } else {
            before.push(cells.last())
        }
    }
}

/// An index at which `palette` holds `block`.
pub open spec fn index_in(palette: Seq<BlockView>, block: BlockView) -> int {
    choose|i: int| 0 <= i < palette.len() && palette[i] == block
}

/// Number of blocks of `cells` whose identifier is not `minecraft:air`.
pub open spec fn count_non_air(cells: Seq<BlockView>) -> nat
    decreases cells.len(),
{
    if cells.len() == 0 {
        0
    } else {
        count_non_air(cells.drop_last()) + if cells.last().identifier == "minecraft:air"@ {
            0nat
        } else {
            1nat
        }
    }
}

/// For each cell of `cells` the index of its block in `palette`.
pub open spec fn indices_in(palette: Seq<BlockView>, cells: Seq<BlockView>) -> Seq<int> {
    Seq::new(cells.len(), |k: int| index_in(palette, cells[k]))
}

/// The network form of the section `s`, where `ids` are the global
/// identifiers of the different blocks of the section in the order of their
/// first cells: the count of blocks that are not air, and the container
/// over that palette.
pub open spec fn spec_network_data(s: SectionView, ids: Seq<i32>) -> Seq<u8> {
    let cells = s.cells();
    spec_payload(count_non_air(cells) as u16, ids, indices_in(used_palette(cells), cells))
}

/// Whether `id` is what `id_getter` answered for a block with the value
/// `block`.
pub open spec fn id_answered<G: BlockIDGetter>(id_getter: &G, block: BlockView, id: i32) -> bool {
    exists|b: Block| b@ == block && call_ensures(G::id_of, (id_getter, &b), id)
}

/// Whether `ids` holds, for every block of `palette`, what `id_getter`
/// answered for it.
pub open spec fn ids_answered<G: BlockIDGetter>(
    id_getter: &G,
    palette: Seq<BlockView>,
    ids: Seq<i32>,
) -> bool {
    &&& ids.len() == palette.len()
    &&& forall|k: int|
        0 <= k < palette.len() ==> id_answered(id_getter, #[trigger] palette[k], ids[k])
}

/// Whether `bytes` is a network form of the section `s` under the answers
/// of `id_getter`.
pub open spec fn is_network_data<G: BlockIDGetter>(
    id_getter: &G,
    s: SectionView,
    bytes: Seq<u8>,
) -> bool {
    exists|ids: Seq<i32>|
        ids_answered(id_getter, used_palette(s.cells()), ids) && bytes == #[trigger] spec_network_data(
            s,
            ids,
        )
}

/// A section that was read is well formed: its palette is not empty and
/// every one of its 4096 cells refers to a palette entry.
pub proof fn lemma_parsed_section_wf(tag: Tag)
    ensures
        spec_parse_section(tag) matches Ok(s) ==> s.wf(),
{
}

/// A section with a palette of one entry holds index zero in all 4096
/// cells, and its tag needs no `data`: a palette list that gives one block
/// is read as that section whatever else `block_states` holds.
pub proof fn lemma_single_palette(tag: Tag)
    ensures
        spec_parse_section(tag) is Ok && spec_parse_section(tag)->Ok_0.palette.len() == 1
            ==> forall|i: int| 0 <= i < 4096 ==> spec_parse_section(tag)->Ok_0.blocks[i] == 0,
        spec_section_palette(tag) is Ok && spec_section_palette(tag)->Ok_0.len() == 1
            ==> spec_parse_section(tag) is Ok && spec_parse_section(tag)->Ok_0.palette
            == spec_section_palette(tag)->Ok_0,
{
}

/// The block of a cell is the palette entry that the cell's index names.
pub proof fn lemma_cells_resolve_palette(s: SectionView, index: int)
    requires
        s.wf(),
        0 <= index < 4096,
    ensures
        s.cells()[index] == s.palette[s.blocks[index]],
        0 <= s.blocks[index] < s.palette.len(),
{
}

/// The blocks of `used_palette` are those of `cells`, each once.
pub proof fn lemma_used_palette(cells: Seq<BlockView>)
    ensures
        used_palette(cells).no_duplicates(),
        used_palette(cells).len() <= cells.len(),
        cells.len() > 0 ==> used_palette(cells).len() > 0,
        forall|k: int| 0 <= k < cells.len() ==> used_palette(cells).contains(#[trigger] cells[k]),
        forall|j: int|
            0 <= j < used_palette(cells).len() ==> cells.contains(#[trigger] used_palette(cells)[j]),
    decreases cells.len(),
{
    if cells.len() > 0 {
        let front = cells.drop_last();
        lemma_used_palette(front);
        let before = used_palette(front);
        let after = used_palette(cells);
        assert forall|k: int| 0 <= k < cells.len() implies after.contains(#[trigger] cells[k]) by {
            if k < front.len() {
                assert(before.contains(front[k]));
                let j = choose|j: int| 0 <= j < before.len() && before[j] == front[k];
                assert(after[j] == cells[k]);
            } else {
                if before.contains(cells.last()) {
                } else {
                    assert(after[after.len() - 1] == cells[k]);
                }
            }
        }
        assert forall|j: int| 0 <= j < after.len() implies cells.contains(#[trigger] after[j]) by {
            if j < before.len() {
                assert(front.contains(before[j]));
                let k = choose|k: int| 0 <= k < front.len() && front[k] == before[j];
                assert(cells[k] == after[j]);
            } else {
                assert(cells[cells.len() - 1] == after[j]);
            }
        }
    }
}

/// The count of blocks that are not air is at most the number of cells.
pub proof fn lemma_count_non_air_le(cells: Seq<BlockView>)
    ensures
        count_non_air(cells) <= cells.len(),
    decreases cells.len(),
{
    if cells.len() > 0 {
        lemma_count_non_air_le(cells.drop_last());
    }
}

/// Index in `used` of a block equal to `block`, if there is one.
fn find_block(used: &Vec<Block>, block: &Block) -> (r: Option<usize>)
    ensures
        match r {
            Some(j) => j < used@.len() && used@[j as int]@ == block@,
            None => !blocks_view(used@).contains(block@),
        },
{
    let mut j: usize = 0;
    while j < used.len()
        invariant
            j <= used.len(),
            forall|k: int| 0 <= k < j ==> used@[k]@ != block@,
        decreases used.len() - j,
    {
        if used[j] == *block {
            return Some(j);
        }
        j = j + 1;
    }
    assert forall|k: int| 0 <= k < blocks_view(used@).len() implies blocks_view(used@)[k]
        != block@ by {
        assert(used@[k]@ != block@);
    }
    None
}

/// The outcome of reading a section, as a section view or the error.
pub open spec fn section_result(r: Result<Section, McaParseError>) -> Result<
    SectionView,
    McaParseError,
> {
    match r {
        Ok(s) => Ok(s@),
        Err(e) => Err(e),
    }
}

/// Decodes the entries of a palette list.
fn parse_palette(entries: &Vec<Tag>) -> (r: Result<Vec<Block>, TagError>)
    ensures
        match r {
            Ok(p) => spec_palette(entries@) == Ok::<Seq<BlockView>, TagError>(blocks_view(p@)),
            Err(e) => spec_palette(entries@) == Err::<Seq<BlockView>, TagError>(e),
        },
{
    let mut palette: Vec<Block> = Vec::new();
    let mut i: usize = 0;
    assert(entries@.take(0) =~= Seq::<Tag>::empty());
    assert(blocks_view(palette@) =~= Seq::empty());
    while i < entries.len()
        invariant
            i <= entries.len(),
            spec_palette(entries@.take(i as int)) == Ok::<Seq<BlockView>, TagError>(
                blocks_view(palette@),
            ),
        decreases entries.len() - i,
    {
        proof {
            let next = entries@.take(i + 1);
            assert(next.drop_last() =~= entries@.take(i as int));
            assert(next.last() == entries@[i as int]);
        }
        match Block::new(&entries[i]) {
            Ok(b) => {
                assert(blocks_view(palette@.push(b)) =~= blocks_view(palette@).push(b@));
                palette.push(b);
            },
            Err(e) => {
                proof {
                    lemma_palette_error_stays(entries@, i + 1);
                }
                return Err(e);
            },
        }
        i = i + 1;
    }
    assert(entries@.take(entries.len() as int) =~= entries@);
    Ok(palette)
}

proof fn lemma_palette_error_stays(entries: Seq<Tag>, upto: int)
    requires
        0 <= upto <= entries.len(),
        spec_palette(entries.take(upto)) is Err,
    ensures
        spec_palette(entries) == spec_palette(entries.take(upto)),
    decreases entries.len() - upto,
{
    if upto < entries.len() {
        let next = entries.take(upto + 1);
        assert(next.drop_last() =~= entries.take(upto));
        lemma_palette_error_stays(entries, upto + 1);
    } else {
        assert(entries.take(upto) =~= entries);
    }
}

/// Reads the 4096 palette indices that `data` holds for a palette of
/// `palette_size` entries, the entries of each long counted in the given
/// order.
pub fn unpack_indices(data: &Vec<i64>, palette_size: usize, order: PackOrder) -> (r: Result<
    Vec<usize>,
    McaParseError,
>)
    ensures
        match r {
            Ok(v) => spec_unpack(data@, palette_size as nat, order) == Ok::<
                Seq<int>,
                McaParseError,
            >(indices_view(v@)),
            Err(e) => spec_unpack(data@, palette_size as nat, order) == Err::<
                Seq<int>,
                McaParseError,
            >(e),
        },
{
    let bits: usize = storage_bits_of(palette_size);
    proof {
        vstd::arithmetic::power2::lemma2_to64_rest();
        lemma_ceil_log2_le(palette_size as nat, 64);
    }
    assert(1 <= 64int / (bits as int) <= 16) by (nonlinear_arith)
        requires
            4 <= bits <= 64,
    ;
    let per: usize = 64 / bits;
    let needed: usize = if 4096 % per == 0 {
        4096 / per
    } else {
        4096 / per + 1
    };
    if data.len() < needed {
        return Err(McaParseError::EndOfData);
    }
    let ghost cells = stored_cells(data@, bits as u64, order);
    let mut blocks: Vec<usize> = Vec::new();
    let mut p: usize = 0;
    while p < 4096
        invariant
            4 <= bits <= 64,
            bits == storage_bits(palette_size as nat),
            per == entries_per_long(bits as u64),
            1 <= per <= 16,
            needed == longs_needed(4096, bits as u64),
            needed <= data.len(),
            cells == stored_cells(data@, bits as u64, order),
            p <= 4096,
            blocks@.len() == p,
            forall|q: int| 0 <= q < p ==> blocks@[q] == cells[q] && cells[q] < palette_size,
        decreases 4096 - p,
    {
        let j: usize = p / per;
        assert(j < needed) by (nonlinear_arith)
            requires
                j == p / per,
                p < 4096,
                1 <= per,
                needed == (if 4096int % (per as int) == 0 {
                    4096int / (per as int)
                } else {
                    4096int / (per as int) + 1
                }),
        ;
        let long: u64 = #[verifier::truncate] (data[j] as u64);
        let k: usize = match order {
            PackOrder::LowFirst => p % per,
            PackOrder::HighFirst => per - 1 - p % per,
        };
        let value: u64 = field_of(long, bits, k);
        assert(value == cells[p as int]);
        if value >= palette_size as u64 {
            assert(!(cells[p as int] < palette_size));
            return Err(McaParseError::NbtParseError(TagError::InvalidValue));
        }
        blocks.push(value as usize);
        p = p + 1;
    }
    assert(indices_view(blocks@) =~= cells);
    Ok(blocks)
}

impl View for Section {
    type V = SectionView;

    closed spec fn view(&self) -> SectionView {
        SectionView { palette: blocks_view(self.palette@), blocks: indices_view(self.blocks@) }
    }
}

impl Section {
    #[verifier::type_invariant]
    spec fn well_formed(&self) -> bool {
        self@.wf()
    }

    /// Reads a section of a region file from its tag.
    pub fn parse_section(tag: &Tag) -> (r: Result<Section, McaParseError>)
        ensures
            section_result(r) == spec_parse_section(*tag),
            r matches Ok(s) ==> s@.wf(),
    {
        Section::parse_section_with(tag, PackOrder::LowFirst)
    }

    /// Reads a section from its tag, the entries of `data` counted in the
    /// given order.
    pub fn parse_section_with(tag: &Tag, order: PackOrder) -> (r: Result<Section, McaParseError>)
        ensures
            section_result(r) == spec_parse_section_with(*tag, order),
            r matches Ok(s) ==> s@.wf(),
    {
        let states: &Tag = match tag.get("block_states") {
            Ok(t) => t,
            Err(e) => {
                return Err(McaParseError::NbtParseError(e));
            },
        };
        let entries: &Vec<Tag> = match states.get_list("palette") {
            Ok(v) => v,
            Err(e) => {
                return Err(McaParseError::NbtParseError(e));
            },
        };
        let palette: Vec<Block> = match parse_palette(entries) {
            Ok(p) => p,
            Err(e) => {
                return Err(McaParseError::NbtParseError(e));
            },
        };
        if palette.len() == 0 {
            return Err(McaParseError::NbtParseError(TagError::InvalidValue));
        }
        if palette.len() == 1 {
            let mut blocks: Vec<usize> = Vec::new();
            let mut i: usize = 0;
            while i < 4096
                invariant
                    i <= 4096,
                    blocks@.len() == i,
                    forall|j: int| 0 <= j < i ==> blocks@[j] == 0,
                decreases 4096 - i,
            {
                blocks.push(0);
                i = i + 1;
            }
            assert(indices_view(blocks@) =~= Seq::new(4096, |i: int| 0int));
            return Ok(Section { blocks, palette });
        }
        let data: &Vec<i64> = match states.get_long_array("data") {
            Ok(v) => v,
            Err(e) => {
                return Err(McaParseError::NbtParseError(e));
            },
        };
        match unpack_indices(data, palette.len(), order) {
            Ok(blocks) => Ok(Section { blocks, palette }),
            Err(e) => Err(e),
        }
    }

    /// The different blocks of this section in the order of their first
    /// cells, for each cell the index of its block among them, and the
    /// number of cells whose block is not air.
    pub fn used_blocks(&self) -> (r: (Vec<Block>, Vec<usize>, u16))
        ensures
            self@.wf(),
            blocks_view(r.0@) == used_palette(self@.cells()),
            1 <= r.0@.len() <= 4096,
            r.1@.len() == 4096,
            indices_view(r.1@) == indices_in(used_palette(self@.cells()), self@.cells()),
            forall|c: int| 0 <= c < 4096 ==> (#[trigger] r.1@[c]) < r.0@.len(),
            r.2 == count_non_air(self@.cells()),
    {
        proof {
            use_type_invariant(self);
        }
        let ghost all = self@.cells();
        let air_name: String = String::from_str("minecraft:air");
        let mut used: Vec<Block> = Vec::new();
        let mut cells: Vec<usize> = Vec::new();
        let mut block_count: u16 = 0;
        let mut i: usize = 0;
        assert(all.take(0) =~= Seq::<BlockView>::empty());
        assert(blocks_view(used@) =~= Seq::empty());
        while i < 4096
            invariant
                i <= 4096,
                self@.wf(),
                all == self@.cells(),
                air_name@ == "minecraft:air"@,
                blocks_view(used@) == used_palette(all.take(i as int)),
                cells@.len() == i,
                forall|k: int|
                    0 <= k < i ==> (#[trigger] cells@[k]) < used@.len() && used@[cells@[k] as int]@
                        == all[k],
                block_count == count_non_air(all.take(i as int)),
                block_count <= i,
            decreases 4096 - i,
        {
            proof {
                let next = all.take(i + 1);
                assert(next.drop_last() =~= all.take(i as int));
                assert(next.last() == all[i as int]);
            }
            assert(self@.blocks[i as int] == self.blocks@[i as int]);
            let block: &Block = &self.palette[self.blocks[i]];
            assert(block@ == all[i as int]);
            let ghost used_before = used@;
            let ghost cells_before = cells@;
            match find_block(&used, block) {
                Some(j) => {
                    assert(blocks_view(used@)[j as int] == block@);
                    assert(blocks_view(used@).contains(block@));
                    cells.push(j);
                },
                None => {
                    let copy = block.clone();
                    assert(blocks_view(used@.push(copy)) =~= blocks_view(used@).push(copy@));
                    used.push(copy);
                    cells.push(used.len() - 1);
                },
            }
            assert(blocks_view(used@) == used_palette(all.take(i + 1)));
            assert forall|k: int| 0 <= k < i + 1 implies (#[trigger] cells@[k]) < used@.len()
                && used@[cells@[k] as int]@ == all[k] by {
                if k < i {
                    assert(cells@[k] == cells_before[k]);
                    assert(cells_before[k] < used_before.len());
                    assert(used@[cells@[k] as int] == used_before[cells_before[k] as int]);
                }
            }
            if *block.identifier() != air_name {
                block_count = block_count + 1;
            }
            i = i + 1;
        }
        assert(all.take(4096) =~= all);
        proof {
            lemma_used_palette(all);
            let palette = used_palette(all);
            assert forall|c: int| 0 <= c < 4096 implies cells@[c] as int == index_in(
                palette,
                all[c],
            ) by {
                assert(blocks_view(used@)[cells@[c] as int] == used@[cells@[c] as int]@);
                assert(palette[cells@[c] as int] == all[c]);
                let chosen = index_in(palette, all[c]);
                assert(0 <= chosen < palette.len() && palette[chosen] == all[c]);
            }
            assert(indices_view(cells@) =~= indices_in(palette, all));
        }
        (used, cells, block_count)
    }

    /// The network form of this section: the count of its blocks that are
    /// not air, the block-state container and the biome container.
    /// `id_getter` is asked once for every different block, in the order of
    /// their first cells.
    pub fn network_data<G: BlockIDGetter>(&self, id_getter: &G) -> (out: Vec<u8>)
        ensures
            is_network_data(id_getter, self@, out@),
    {
        let (used, cells, block_count) = self.used_blocks();
        let mut ids: Vec<i32> = Vec::new();
        let mut k: usize = 0;
        while k < used.len()
            invariant
                k <= used.len(),
                ids@.len() == k,
                forall|j: int|
                    0 <= j < k ==> id_answered(id_getter, (#[trigger] used@[j])@, ids@[j]),
            decreases used.len() - k,
        {
            let id = id_getter.id_of(&used[k]);
            assert(id_answered(id_getter, used@[k as int]@, id));
            ids.push(id);
            k = k + 1;
        }
        let out = network_payload(block_count, &ids, &cells);
        proof {
            let palette = used_palette(self@.cells());
            assert forall|j: int| 0 <= j < palette.len() implies id_answered(
                id_getter,
                #[trigger] palette[j],
                ids@[j],
            ) by {
                assert(palette[j] == used@[j]@);
            }
            assert(Seq::new(4096, |i: int| cells@[i] as int) =~= indices_view(cells@));
            assert(ids_answered(id_getter, palette, ids@));
            assert(out@ == spec_network_data(self@, ids@));
        }
        out
    }

    /// The block at world position `pos`, taken inside this section.
    pub fn get(&self, pos: Position) -> (b: Block)
        ensures
            self@.wf(),
            b@ == self@.block_at(block_index(pos)),
    {
        proof {
            use_type_invariant(self);
        }
        let index = pos.block_index_in_section();
        assert(self@.blocks[index as int] == self.blocks@[index as int]);
        self.palette[self.blocks[index]].clone()
    }
}

impl Clone for Section {
    fn clone(&self) -> (s: Section)
        ensures
            s@ == self@,
    {
        proof {
            use_type_invariant(self);
        }
        let mut blocks: Vec<usize> = Vec::new();
        let mut i: usize = 0;
        while i < self.blocks.len()
            invariant
                i <= self.blocks.len(),
                blocks@.len() == i,
                forall|j: int| 0 <= j < i ==> blocks@[j] == self.blocks@[j],
            decreases self.blocks.len() - i,
        {
            blocks.push(self.blocks[i]);
            i = i + 1;
        }
        let mut palette: Vec<Block> = Vec::new();
        let mut k: usize = 0;
        while k < self.palette.len()
            invariant
                k <= self.palette.len(),
                palette@.len() == k,
                forall|j: int| 0 <= j < k ==> palette@[j]@ == self.palette@[j]@,
            decreases self.palette.len() - k,
        {
            palette.push(self.palette[k].clone());
            k = k + 1;
        }
        assert(indices_view(blocks@) =~= indices_view(self.blocks@));
        assert(blocks_view(palette@) =~= blocks_view(self.palette@));
        Section { blocks, palette }
    }
}

} // verus!
