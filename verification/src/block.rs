//! Block values: an identifier and a key-sorted list of string properties.

use crate::error::TagError;
use crate::tag::Tag;
use vstd::prelude::*;
use vstd::std_specs::cmp::PartialEqSpecImpl;
use vstd::string::StringExecFns;
use vstd::utf8::encode_utf8;

verus! {

/// What a block is: its identifier and its properties as `(name, value)`
/// pairs in increasing order of name.
pub struct BlockView {
    pub identifier: Seq<char>,
    pub properties: Seq<(Seq<char>, Seq<char>)>,
}

/// A palette entry: an identifier and named string properties.
#[derive(Debug)]
pub struct Block {
    identifier: String,
    properties: Vec<(String, String)>,
}

/// Whether `a` comes before `b` from index `from` on, byte by byte; a proper
/// prefix comes before what it is a prefix of.
pub open spec fn bytes_lt_from(a: Seq<u8>, b: Seq<u8>, from: int) -> bool
    decreases a.len() - from,
{
    if from < 0 || from >= b.len() {
        false
    } else if from >= a.len() {
        true
    } else if a[from] != b[from] {
        a[from] < b[from]
    } else {
        bytes_lt_from(a, b, from + 1)
    }
}

/// Whether the name `a` comes before the name `b`: by their UTF-8 bytes.
pub open spec fn key_lt(a: Seq<char>, b: Seq<char>) -> bool {
    bytes_lt_from(encode_utf8(a), encode_utf8(b), 0)
}

/// Whether every name of `props` comes before the name that follows it.
pub open spec fn sorted_keys(props: Seq<(Seq<char>, Seq<char>)>) -> bool {
    forall|i: int| 0 <= i < props.len() - 1 ==> key_lt(#[trigger] props[i].0, props[i + 1].0)
}

/// Number of leading pairs of `props`, from `from` on, whose names come
/// before `key`, added to `from`.
pub open spec fn insert_at_from(props: Seq<(Seq<char>, Seq<char>)>, key: Seq<char>, from: int) -> int
    decreases props.len() - from,
{
    if from < 0 || from >= props.len() {
        from
    } else if key_lt(props[from].0, key) {
        insert_at_from(props, key, from + 1)
    } else {
        from
    }
}

/// `props` with `key` set to `value`: the pair replaces the one of that name
/// or goes in where the order of names puts it.
pub open spec fn insert_property(
    props: Seq<(Seq<char>, Seq<char>)>,
    key: Seq<char>,
    value: Seq<char>,
) -> Seq<(Seq<char>, Seq<char>)> {
    let i = insert_at_from(props, key, 0);
    if 0 <= i < props.len() && props[i].0 == key {
        props.update(i, (key, value))
    } else {
        props.insert(i, (key, value))
    }
}

/// The properties that the children of a `Properties` compound give: every
/// string child sets its name to its value, later children over earlier ones.
pub open spec fn spec_properties(children: Seq<Tag>) -> Seq<(Seq<char>, Seq<char>)>
    decreases children.len(),
{
    if children.len() == 0 {
        Seq::empty()
    } else {
        let rest = spec_properties(children.drop_last());
        match children.last() {
            Tag::Text(name, value) => insert_property(rest, name@, value@),
            _ => rest,
        }
    }
}

/// The block that a palette entry describes: `Name` is its identifier, the
/// string children of `Properties`, where there is such a compound, are its
/// properties.
pub open spec fn spec_block(tag: Tag) -> Result<BlockView, TagError> {
    match tag.spec_get_string("Name"@) {
        Err(e) => Err(e),
        Ok(identifier) => Ok(
            BlockView {
                identifier,
                properties: spec_properties(
                    match tag.spec_get_compound("Properties"@) {
                        Ok(children) => children,
                        Err(_) => Seq::empty(),
                    },
                ),
            },
        ),
    }
}

/// The pairs of `pairs` as texts.
pub open spec fn pairs_view(pairs: Seq<(String, String)>) -> Seq<(Seq<char>, Seq<char>)> {
    Seq::new(pairs.len(), |i: int| (pairs[i].0@, pairs[i].1@))
}

/// The block that fills what nothing else fills.
pub open spec fn air() -> BlockView {
    BlockView { identifier: "minecraft:air"@, properties: Seq::empty() }
}

proof fn lemma_bytes_lt_irreflexive(a: Seq<u8>, from: int)
    ensures
        !bytes_lt_from(a, a, from),
    decreases a.len() - from,
{
    if 0 <= from < a.len() {
        lemma_bytes_lt_irreflexive(a, from + 1);
    }
}

proof fn lemma_bytes_order_total(a: Seq<u8>, b: Seq<u8>, from: int)
    requires
        0 <= from,
        !bytes_lt_from(a, b, from),
        !bytes_lt_from(b, a, from),
    ensures
        a.len() <= from || b.len() <= from || a.len() == b.len(),
        a.len() <= from <==> b.len() <= from,
        forall|i: int| from <= i < a.len() ==> a[i] == b[i],
    decreases a.len() - from,
{
    if from < a.len() && from < b.len() {
        lemma_bytes_order_total(a, b, from + 1);
    }
}

/// Of two different names one comes before the other, and no name comes
/// before itself.
pub proof fn lemma_key_order_total(a: Seq<char>, b: Seq<char>)
    ensures
        !key_lt(a, a),
        a != b ==> key_lt(a, b) || key_lt(b, a),
{
    lemma_bytes_lt_irreflexive(encode_utf8(a), 0);
    if !key_lt(a, b) && !key_lt(b, a) {
        lemma_bytes_order_total(encode_utf8(a), encode_utf8(b), 0);
        assert(encode_utf8(a) =~= encode_utf8(b));
        vstd::utf8::encode_utf8_decode_utf8(a);
        vstd::utf8::encode_utf8_decode_utf8(b);
    }
}

proof fn lemma_bytes_lt_transitive(a: Seq<u8>, b: Seq<u8>, c: Seq<u8>, from: int)
    requires
        0 <= from,
        bytes_lt_from(a, b, from),
        bytes_lt_from(b, c, from),
    ensures
        bytes_lt_from(a, c, from),
    decreases a.len() - from,
{
    if from < a.len() && from < b.len() && from < c.len() {
        if a[from] == b[from] && b[from] == c[from] {
            lemma_bytes_lt_transitive(a, b, c, from + 1);
        }
    }
}

/// In sorted properties an earlier name comes before every later one, so
/// no name occurs twice.
pub proof fn lemma_sorted_keys_distinct(props: Seq<(Seq<char>, Seq<char>)>, i: int, j: int)
    requires
        sorted_keys(props),
        0 <= i < j < props.len(),
    ensures
        key_lt(props[i].0, props[j].0),
        props[i].0 != props[j].0,
    decreases j - i,
{
    lemma_key_order_total(props[i].0, props[i].0);
    if j == i + 1 {
        assert(key_lt(props[i].0, props[i + 1].0));
    } else {
        lemma_sorted_keys_distinct(props, i, j - 1);
        assert(key_lt(props[j - 1].0, props[j].0));
        lemma_bytes_lt_transitive(
            encode_utf8(props[i].0),
            encode_utf8(props[j - 1].0),
            encode_utf8(props[j].0),
            0,
        );
    }
}

/// Whether the name `a` comes before the name `b`.
fn key_before(a: &String, b: &String) -> (r: bool)
    ensures
        r == key_lt(a@, b@),
{
    let x = a.as_str().as_bytes();
    let y = b.as_str().as_bytes();
    let mut i: usize = 0;
    loop
        invariant
            x@ == encode_utf8(a@),
            y@ == encode_utf8(b@),
            i <= x@.len(),
            i <= y@.len(),
            key_lt(a@, b@) == bytes_lt_from(x@, y@, i as int),
        decreases x@.len() - i,
    {
        if i >= y.len() {
            return false;
        }
        if i >= x.len() {
            return true;
        }
        if x[i] != y[i] {
            return x[i] < y[i];
        }
        i = i + 1;
    }
}

/// Sets `name` to `value` in the sorted pairs `props`.
fn set_property(props: &mut Vec<(String, String)>, name: String, value: String)
    requires
        sorted_keys(pairs_view(old(props)@)),
    ensures
        sorted_keys(pairs_view(final(props)@)),
        pairs_view(final(props)@) == insert_property(pairs_view(old(props)@), name@, value@),
{
    let ghost before = pairs_view(props@);
    let mut i: usize = 0;
    while i < props.len() && key_before(&props[i].0, &name)
        invariant
            i <= props.len(),
            props@ == old(props)@,
            before == pairs_view(props@),
            insert_at_from(before, name@, 0) == insert_at_from(before, name@, i as int),
            forall|j: int| 0 <= j < i ==> key_lt(#[trigger] before[j].0, name@),
        decreases props.len() - i,
    {
        i = i + 1;
    }
    proof {
        assert(insert_at_from(before, name@, i as int) == i);
        if i < props.len() {
            lemma_key_order_total(name@, before[i as int].0);
        }
        lemma_key_order_total(name@, name@);
    }
    if i < props.len() && !key_before(&name, &props[i].0) {
        props.set(i, (name, value));
        proof {
            let after = pairs_view(props@);
            assert(after =~= before.update(i as int, (name@, value@)));
            assert forall|j: int| 0 <= j < after.len() - 1 implies key_lt(
                #[trigger] after[j].0,
                after[j + 1].0,
            ) by {
                assert(key_lt(before[j].0, before[j + 1].0));
            }
        }
    } else {
        props.insert(i, (name, value));
        proof {
            let after = pairs_view(props@);
            assert(after =~= before.insert(i as int, (name@, value@)));
            assert forall|j: int| 0 <= j < after.len() - 1 implies key_lt(
                #[trigger] after[j].0,
                after[j + 1].0,
            ) by {
                if j < i - 1 {
                    assert(key_lt(before[j].0, before[j + 1].0));
                } else if j == i - 1 {
                    assert(key_lt(before[j].0, name@));
                } else if j == i {
                } else {
                    assert(key_lt(before[j - 1].0, before[j].0));
                }
            }
        }
    }
}

impl View for Block {
    type V = BlockView;

    closed spec fn view(&self) -> BlockView {
        BlockView { identifier: self.identifier@, properties: pairs_view(self.properties@) }
    }
}

impl Block {
    #[verifier::type_invariant]
    spec fn well_formed(&self) -> bool {
        sorted_keys(pairs_view(self.properties@))
    }

    /// The block that a palette entry describes.
    pub fn new(nbt_data: &Tag) -> (r: Result<Block, TagError>)
        ensures
            match r {
                Ok(b) => spec_block(*nbt_data) == Ok::<BlockView, TagError>(b@),
                Err(e) => spec_block(*nbt_data) == Err::<BlockView, TagError>(e),
            },
    {
        let identifier: String = match nbt_data.get_string("Name") {
            Ok(name) => name.clone(),
            Err(e) => {
                return Err(e);
            },
        };
        let mut properties: Vec<(String, String)> = Vec::new();
        assert(pairs_view(properties@) =~= Seq::empty());
        match nbt_data.get_compound("Properties") {
            Ok(children) => {
                let mut i: usize = 0;
                assert(children@.take(0) =~= Seq::<Tag>::empty());
                while i < children.len()
                    invariant
                        i <= children.len(),
                        sorted_keys(pairs_view(properties@)),
                        pairs_view(properties@) == spec_properties(children@.take(i as int)),
                    decreases children.len() - i,
                {
                    proof {
                        let next = children@.take(i + 1);
                        assert(next.drop_last() =~= children@.take(i as int));
                        assert(next.last() == children@[i as int]);
                    }
                    match &children[i] {
                        Tag::Text(name, value) => {
                            set_property(&mut properties, name.clone(), value.clone());
                        },
                        _ => {},
                    }
                    i = i + 1;
                }
                assert(children@.take(children.len() as int) =~= children@);
            },
            Err(_) => {},
        }
        Ok(Block { identifier, properties })
    }

    /// A block with the given identifier; every pair of `properties` sets
    /// its name to its value, later pairs over earlier ones.
    pub fn with_properties(identifier: String, properties: Vec<(String, String)>) -> (b: Block)
        ensures
            b@.identifier == identifier@,
            b@.properties == spec_pairs(pairs_view(properties@)),
    {
        let mut sorted: Vec<(String, String)> = Vec::new();
        assert(pairs_view(sorted@) =~= Seq::empty());
        let ghost given = pairs_view(properties@);
        let mut i: usize = 0;
        assert(given.take(0) =~= Seq::empty());
        while i < properties.len()
            invariant
                i <= properties.len(),
                given == pairs_view(properties@),
                sorted_keys(pairs_view(sorted@)),
                pairs_view(sorted@) == spec_pairs(given.take(i as int)),
            decreases properties.len() - i,
        {
            proof {
                let next = given.take(i + 1);
                assert(next.drop_last() =~= given.take(i as int));
                assert(next.last() == given[i as int]);
            }
            set_property(&mut sorted, properties[i].0.clone(), properties[i].1.clone());
            i = i + 1;
        }
        assert(given.take(properties.len() as int) =~= given);
        Block { identifier, properties: sorted }
    }

    /// The block `minecraft:air`, without properties.
    pub fn default() -> (b: Block)
        ensures
            b@ == air(),
    {
        let properties: Vec<(String, String)> = Vec::new();
        assert(pairs_view(properties@) =~= Seq::empty());
        Block { identifier: String::from_str("minecraft:air"), properties }
    }

    /// The identifier of this block.
    pub fn identifier(&self) -> (s: &String)
        ensures
            s@ == self@.identifier,
    {
        &self.identifier
    }

    /// The properties of this block, in increasing order of name.
    pub fn properties(&self) -> (p: &Vec<(String, String)>)
        ensures
            pairs_view(p@) == self@.properties,
            sorted_keys(self@.properties),
    {
        proof {
            use_type_invariant(self);
        }
        &self.properties
    }

    /// Whether this block is `minecraft:air`, whatever its properties.
    pub fn is_air(&self) -> (r: bool)
        ensures
            r == (self@.identifier == "minecraft:air"@),
    {
        let air_name = String::from_str("minecraft:air");
        self.identifier == air_name
    }
}

/// The sorted properties that a list of pairs gives, later pairs over earlier
/// ones of the same name.
pub open spec fn spec_pairs(pairs: Seq<(Seq<char>, Seq<char>)>) -> Seq<(Seq<char>, Seq<char>)>
    decreases pairs.len(),
{
    if pairs.len() == 0 {
        Seq::empty()
    } else {
        insert_property(spec_pairs(pairs.drop_last()), pairs.last().0, pairs.last().1)
    }
}

impl Clone for Block {
    fn clone(&self) -> (b: Block)
        ensures
            b@ == self@,
    {
        proof {
            use_type_invariant(self);
        }
        let mut properties: Vec<(String, String)> = Vec::new();
        let mut i: usize = 0;
        while i < self.properties.len()
            invariant
                i <= self.properties.len(),
                properties@.len() == i,
                forall|j: int|
                    0 <= j < i ==> properties@[j].0@ == self.properties@[j].0@ && properties@[j].1@
                        == self.properties@[j].1@,
            decreases self.properties.len() - i,
        {
            properties.push((self.properties[i].0.clone(), self.properties[i].1.clone()));
            i = i + 1;
        }
        assert(pairs_view(properties@) =~= pairs_view(self.properties@));
        Block { identifier: self.identifier.clone(), properties }
    }
}

impl PartialEq for Block {
    fn eq(&self, other: &Block) -> (r: bool) {
        if self.identifier != other.identifier {
            return false;
        }
        if self.properties.len() != other.properties.len() {
            assert(pairs_view(self.properties@).len() != pairs_view(other.properties@).len());
            return false;
        }
        let mut i: usize = 0;
        while i < self.properties.len()
            invariant
                i <= self.properties.len(),
                self.properties.len() == other.properties.len(),
                forall|j: int|
                    0 <= j < i ==> pairs_view(self.properties@)[j] == pairs_view(
                        other.properties@,
                    )[j],
            decreases self.properties.len() - i,
        {
            if self.properties[i].0 != other.properties[i].0 || self.properties[i].1
                != other.properties[i].1 {
                assert(pairs_view(self.properties@)[i as int] != pairs_view(
                    other.properties@,
                )[i as int]);
                return false;
            }
            i = i + 1;
        }
        assert(pairs_view(self.properties@) =~= pairs_view(other.properties@));
        true
    }
}

impl PartialEqSpecImpl for Block {
    open spec fn obeys_eq_spec() -> bool {
        true
    }

    open spec fn eq_spec(&self, other: &Block) -> bool {
        self@ == other@
    }
}

} // verus!
