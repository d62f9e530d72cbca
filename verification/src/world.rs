//! A world: its level and the regions read so far, by region position.

use crate::block::Block;
use crate::chunk::Chunk;
use crate::error::McaParseError;
use crate::level::Level;
use crate::position::{region_coord, Position};
use crate::region::{Region, RegionView};
use crate::text::{append_decimal, decimal};
use vstd::prelude::*;
use vstd::string::StringExecFns;

verus! {

/// The answer to a query on a world whose regions are read on demand.
#[derive(Debug)]
pub enum Lookup<T> {
    /// The region of the position is there: what it holds at the position.
    Ready(Option<T>),
    /// The region at this region position has not been read yet.
    Load(Position),
}

impl<T> Lookup<T> {
    /// Whether the region of the position was there.
    pub fn is_ready(&self) -> (r: bool)
        ensures
            r == (self is Ready),
    {
        match self {
            Lookup::Ready(_) => true,
            Lookup::Load(_) => false,
        }
    }
}

/// A world with the regions that were read.
#[derive(Debug)]
pub struct World {
    level: Level,
    loaded_regions: Vec<(Position, Region)>,
}

/// The regions of `regions` with their positions.
pub open spec fn regions_view(regions: Seq<(Position, Region)>) -> Seq<(Position, RegionView)> {
    Seq::new(regions.len(), |i: int| (regions[i].0, regions[i].1@))
}

/// Index of the first region of `regions`, at or after `from`, with the
/// position `pos`.
pub open spec fn region_index_from(
    regions: Seq<(Position, RegionView)>,
    pos: Position,
    from: int,
) -> Option<int>
    decreases regions.len() - from,
{
    if from < 0 || from >= regions.len() {
        None
    } else if regions[from].0 == pos {
        Some(from)
    } else {
        region_index_from(regions, pos, from + 1)
    }
}

/// Index of the region with the position `pos`.
pub open spec fn region_index(regions: Seq<(Position, RegionView)>, pos: Position) -> Option<int> {
    region_index_from(regions, pos, 0)
}

/// Whether no position occurs twice in `regions`.
pub open spec fn distinct_positions(regions: Seq<(Position, RegionView)>) -> bool {
    forall|i: int, j: int|
        0 <= i < j < regions.len() ==> (#[trigger] regions[i]).0 != (#[trigger] regions[j]).0
}

/// What the search for a region position finds: the first region there, or
/// nothing where no region is there.
pub proof fn lemma_region_index(regions: Seq<(Position, RegionView)>, pos: Position, from: int)
    requires
        0 <= from,
    ensures
        match region_index_from(regions, pos, from) {
            Some(i) => from <= i < regions.len() && regions[i].0 == pos,
            None => forall|i: int| from <= i < regions.len() ==> (#[trigger] regions[i]).0 != pos,
        },
    decreases regions.len() - from,
{
    if from < regions.len() {
        lemma_region_index(regions, pos, from + 1);
    }
}

/// The region position of a world position.
pub open spec fn region_of(pos: Position) -> Position {
    Position { y: 0, x: region_coord(pos.x as int) as i32, z: region_coord(pos.z as int) as i32 }
}

/// Whether `names` holds the name `name`.
pub open spec fn has_name(names: Seq<String>, name: Seq<char>) -> bool {
    exists|i: int| 0 <= i < names.len() && (#[trigger] names[i])@ == name
}

/// The name of the file that holds the region at region position `pos`:
/// `r.<x>.<z>.mca`.
pub open spec fn spec_region_file_name(pos: Position) -> Seq<char> {
    seq!['r', '.'] + decimal(pos.x as int) + seq!['.'] + decimal(pos.z as int) + seq![
        '.',
        'm',
        'c',
        'a',
    ]
}

impl View for World {
    type V = Seq<(Position, RegionView)>;

    closed spec fn view(&self) -> Seq<(Position, RegionView)> {
        regions_view(self.loaded_regions@)
    }
}

impl World {
    #[verifier::type_invariant]
    spec fn well_formed(&self) -> bool {
        distinct_positions(regions_view(self.loaded_regions@))
    }

    /// The level of this world.
    pub closed spec fn spec_level(&self) -> Level {
        self.level
    }

    /// A world with the level `level` and no region read yet.
    pub fn new(level: Level) -> (w: World)
        ensures
            w@.len() == 0,
            w.spec_level() == level,
            distinct_positions(w@),
    {
        let loaded_regions: Vec<(Position, Region)> = Vec::new();
        assert(regions_view(loaded_regions@) =~= Seq::empty());
        World { level, loaded_regions }
    }

    /// The level of this world.
    pub fn level(&self) -> (l: &Level)
        ensures
            *l == self.spec_level(),
    {
        &self.level
    }

    /// Whether a world directory with the entries `names` holds the entry
    /// `name`; a world lacks none of `level.dat` and `region`.
    pub fn require_entry(names: &Vec<String>, name: &str) -> (r: Result<(), McaParseError>)
        ensures
            has_name(names@, name@) ==> r.is_ok(),
            !has_name(names@, name@) ==> r == Err::<(), McaParseError>(McaParseError::InvalidWorld),
    {
        let wanted: String = name.to_owned();
        let mut i: usize = 0;
        while i < names.len()
            invariant
                i <= names.len(),
                wanted@ == name@,
                forall|j: int| 0 <= j < i ==> (#[trigger] names@[j])@ != name@,
            decreases names.len() - i,
        {
            if names[i] == wanted {
                return Ok(());
            }
            i = i + 1;
        }
        Err(McaParseError::InvalidWorld)
    }

    /// The name of the file that holds the region at region position `pos`.
    pub fn region_file_name(pos: Position) -> (name: String)
        ensures
            name@ == spec_region_file_name(pos),
    {
        proof {
            reveal_strlit("r.");
            reveal_strlit(".");
            reveal_strlit(".mca");
        }
        let mut name: String = String::from_str("r.");
        append_decimal(&mut name, pos.x);
        name.append(".");
        append_decimal(&mut name, pos.z);
        name.append(".mca");
        assert(name@ =~= spec_region_file_name(pos));
        name
    }

    /// Index of the region at region position `pos` among those read.
    fn find_region(&self, pos: Position) -> (r: Option<usize>)
        ensures
            match r {
                Some(i) => region_index(self@, pos) == Some(i as int) && i < self@.len()
                    && i < self.loaded_regions@.len(),
                None => region_index(self@, pos).is_none(),
            },
    {
        let ghost all = self@;
        let mut i: usize = 0;
        while i < self.loaded_regions.len()
            invariant
                i <= self.loaded_regions.len(),
                all == self@,
                region_index(all, pos) == region_index_from(all, pos, i as int),
            decreases self.loaded_regions.len() - i,
        {
            assert(all[i as int].0 == self.loaded_regions@[i as int].0);
            if self.loaded_regions[i].0 == pos {
                return Some(i);
            }
            i = i + 1;
        }
        None
    }

    /// The block at world position `pos`, where the region of `pos` has
    /// been read; else the region position to read.
    pub fn get_block(&self, pos: Position) -> (r: Lookup<Block>)
        ensures
            match r {
                Lookup::Ready(Some(b)) => region_index(self@, region_of(pos)) matches Some(i)
                    && self@[i].1.block_at(pos) == Some(b@),
                Lookup::Ready(None) => region_index(self@, region_of(pos)) matches Some(i)
                    && self@[i].1.block_at(pos).is_none(),
                Lookup::Load(p) => region_index(self@, region_of(pos)).is_none() && p == region_of(
                    pos,
                ),
            },
    {
        let region_pos = pos.region_in_world();
        match self.find_region(region_pos) {
            Some(i) => {
                assert(self@[i as int].1 == self.loaded_regions@[i as int].1@);
                Lookup::Ready(self.loaded_regions[i].1.get(pos))
            },
            None => Lookup::Load(region_pos),
        }
    }

    /// The chunk at chunk position `pos`, by `x` and `z`, in the region
    /// that holds `pos` taken as a world position, where that region has
    /// been read; else the region position to read.
    pub fn get_chunk(&self, pos: Position) -> (r: Lookup<Chunk>)
        ensures
            match r {
                Lookup::Ready(Some(c)) => region_index(self@, region_of(pos)) matches Some(i)
                    && self@[i].1.chunk_at(pos.x as int, pos.z as int) matches Some(k)
                    && self@[i].1.chunks[k] == c@,
                Lookup::Ready(None) => region_index(self@, region_of(pos)) matches Some(i)
                    && self@[i].1.chunk_at(pos.x as int, pos.z as int).is_none(),
                Lookup::Load(p) => region_index(self@, region_of(pos)).is_none() && p == region_of(
                    pos,
                ),
            },
    {
        let region_pos = pos.region_in_world();
        match self.find_region(region_pos) {
            Some(i) => {
                assert(self@[i as int].1 == self.loaded_regions@[i as int].1@);
                match self.loaded_regions[i].1.get_chunk(pos) {
                    Some(chunk) => Lookup::Ready(Some(chunk.clone())),
                    None => Lookup::Ready(None),
                }
            },
            None => Lookup::Load(region_pos),
        }
    }

    /// Keeps `region` as the region at region position `pos`; a region that
    /// was read before stays as it is.
    pub fn insert_region(&mut self, pos: Position, region: Region)
        ensures
            final(self).spec_level() == old(self).spec_level(),
            distinct_positions(old(self)@),
            distinct_positions(final(self)@),
            region_index(old(self)@, pos).is_some() ==> final(self)@ == old(self)@,
            region_index(old(self)@, pos).is_none() ==> final(self)@ == old(self)@.push(
                (pos, region@),
            ),
    {
        proof {
            use_type_invariant(&*self);
        }
        match self.find_region(pos) {
            Some(_) => {},
            None => {
                let ghost before = self.loaded_regions@;
                proof {
                    lemma_region_index(regions_view(before), pos, 0);
                }
                let mut regions: Vec<(Position, Region)> = Vec::new();
                assert(regions_view(regions@) =~= Seq::empty());
                std::mem::swap(&mut self.loaded_regions, &mut regions);
                regions.push((pos, region));
                assert(regions_view(regions@) =~= regions_view(before).push((pos, region@)));
                std::mem::swap(&mut self.loaded_regions, &mut regions);
            },
        }
    }
}

} // verus!
