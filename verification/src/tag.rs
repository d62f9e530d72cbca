//! Decoded compound tags: the named, typed values that chunks are stored as.

use crate::error::TagError;
use vstd::prelude::*;

verus! {

/// A decoded tag: its name and, for the kinds that are read here, its value.
#[derive(Debug)]
pub enum Tag {
    /// A 32-bit integer.
    Int(String, i32),
    /// A string.
    Text(String, String),
    /// An array of 64-bit integers.
    LongArray(String, Vec<i64>),
    /// A list of tags.
    List(String, Vec<Tag>),
    /// A compound: named children of any kind.
    Compound(String, Vec<Tag>),
    /// A tag of any other kind; its value is not kept.
    Other(String),
}

/// Index of the first tag of `children`, at or after `from`, that is named `name`.
pub open spec fn first_named_from(children: Seq<Tag>, name: Seq<char>, from: int) -> Option<int>
    decreases children.len() - from,
{
    if from < 0 || from >= children.len() {
        None
    } else if children[from].spec_name() == name {
        Some(from)
    } else {
        first_named_from(children, name, from + 1)
    }
}

/// Index of the first tag of `children` that is named `name`.
pub open spec fn first_named(children: Seq<Tag>, name: Seq<char>) -> Option<int> {
    first_named_from(children, name, 0)
}

impl Tag {
    /// The name of this tag.
    pub open spec fn spec_name(self) -> Seq<char> {
        match self {
            Tag::Int(n, _) => n@,
            Tag::Text(n, _) => n@,
            Tag::LongArray(n, _) => n@,
            Tag::List(n, _) => n@,
            Tag::Compound(n, _) => n@,
            Tag::Other(n) => n@,
        }
    }

    /// The child named `name` of this compound: the first one of that name.
    pub open spec fn spec_get(self, name: Seq<char>) -> Result<Tag, TagError> {
        match self {
            Tag::Compound(_, children) => match first_named(children@, name) {
                Some(i) => Ok(children@[i]),
                None => Err(TagError::NotFound),
            },
            _ => Err(TagError::WrongType),
        }
    }

    /// The value of the integer child named `name`.
    pub open spec fn spec_get_int(self, name: Seq<char>) -> Result<i32, TagError> {
        match self.spec_get(name) {
            Ok(Tag::Int(_, v)) => Ok(v),
            Ok(_) => Err(TagError::WrongType),
            Err(e) => Err(e),
        }
    }

    /// The value of the string child named `name`.
    pub open spec fn spec_get_string(self, name: Seq<char>) -> Result<Seq<char>, TagError> {
        match self.spec_get(name) {
            Ok(Tag::Text(_, v)) => Ok(v@),
            Ok(_) => Err(TagError::WrongType),
            Err(e) => Err(e),
        }
    }

    /// The values of the long-array child named `name`.
    pub open spec fn spec_get_long_array(self, name: Seq<char>) -> Result<Seq<i64>, TagError> {
        match self.spec_get(name) {
            Ok(Tag::LongArray(_, v)) => Ok(v@),
            Ok(_) => Err(TagError::WrongType),
            Err(e) => Err(e),
        }
    }

    /// The items of the list child named `name`.
    pub open spec fn spec_get_list(self, name: Seq<char>) -> Result<Seq<Tag>, TagError> {
        match self.spec_get(name) {
            Ok(Tag::List(_, v)) => Ok(v@),
            Ok(_) => Err(TagError::WrongType),
            Err(e) => Err(e),
        }
    }

    /// The children of the compound child named `name`.
    pub open spec fn spec_get_compound(self, name: Seq<char>) -> Result<Seq<Tag>, TagError> {
        match self.spec_get(name) {
            Ok(Tag::Compound(_, v)) => Ok(v@),
            Ok(_) => Err(TagError::WrongType),
            Err(e) => Err(e),
        }
    }

    /// The name of this tag.
    pub fn name(&self) -> (n: &String)
        ensures
            n@ == self.spec_name(),
    {
        match self {
            Tag::Int(n, _) => n,
            Tag::Text(n, _) => n,
            Tag::LongArray(n, _) => n,
            Tag::List(n, _) => n,
            Tag::Compound(n, _) => n,
            Tag::Other(n) => n,
        }
    }

    /// The child named `name` of this compound.
    pub fn get(&self, name: &str) -> (r: Result<&Tag, TagError>)
        ensures
            match r {
                Ok(t) => self.spec_get(name@) == Ok::<Tag, TagError>(*t),
                Err(e) => self.spec_get(name@) == Err::<Tag, TagError>(e),
            },
    {
        match self {
            Tag::Compound(_, children) => {
                let key: String = name.to_owned();
                let mut i: usize = 0;
                while i < children.len()
                    invariant
                        i <= children.len(),
                        key@ == name@,
                        self is Compound,
                        self->Compound_1 == *children,
                        first_named(children@, name@) == first_named_from(
                            children@,
                            name@,
                            i as int,
                        ),
                    decreases children.len() - i,
                {
                    if *children[i].name() == key {
                        assert(first_named_from(children@, name@, i as int) == Some(i as int));
                        return Ok(&children[i]);
                    }
                    assert(first_named_from(children@, name@, i as int) == first_named_from(
                        children@,
                        name@,
                        i + 1,
                    ));
                    i = i + 1;
                }
                Err(TagError::NotFound)
            },
            _ => Err(TagError::WrongType),
        }
    }

    /// The value of the integer child named `name`.
    pub fn get_int(&self, name: &str) -> (r: Result<i32, TagError>)
        ensures
            r == self.spec_get_int(name@),
    {
        match self.get(name) {
            Ok(Tag::Int(_, v)) => Ok(*v),
            Ok(_) => Err(TagError::WrongType),
            Err(e) => Err(e),
        }
    }

    /// The value of the string child named `name`.
    pub fn get_string(&self, name: &str) -> (r: Result<&String, TagError>)
        ensures
            match r {
                Ok(s) => self.spec_get_string(name@) == Ok::<Seq<char>, TagError>(s@),
                Err(e) => self.spec_get_string(name@) == Err::<Seq<char>, TagError>(e),
            },
    {
        match self.get(name) {
            Ok(Tag::Text(_, v)) => Ok(v),
            Ok(_) => Err(TagError::WrongType),
            Err(e) => Err(e),
        }
    }

    /// The values of the long-array child named `name`.
    pub fn get_long_array(&self, name: &str) -> (r: Result<&Vec<i64>, TagError>)
        ensures
            match r {
                Ok(v) => self.spec_get_long_array(name@) == Ok::<Seq<i64>, TagError>(v@),
                Err(e) => self.spec_get_long_array(name@) == Err::<Seq<i64>, TagError>(e),
            },
    {
        match self.get(name) {
            Ok(Tag::LongArray(_, v)) => Ok(v),
            Ok(_) => Err(TagError::WrongType),
            Err(e) => Err(e),
        }
    }

    /// The items of the list child named `name`.
    pub fn get_list(&self, name: &str) -> (r: Result<&Vec<Tag>, TagError>)
        ensures
            match r {
                Ok(v) => self.spec_get_list(name@) == Ok::<Seq<Tag>, TagError>(v@),
                Err(e) => self.spec_get_list(name@) == Err::<Seq<Tag>, TagError>(e),
            },
    {
        match self.get(name) {
            Ok(Tag::List(_, v)) => Ok(v),
            Ok(_) => Err(TagError::WrongType),
            Err(e) => Err(e),
        }
    }

    /// The children of the compound child named `name`.
    pub fn get_compound(&self, name: &str) -> (r: Result<&Vec<Tag>, TagError>)
        ensures
            match r {
                Ok(v) => self.spec_get_compound(name@) == Ok::<Seq<Tag>, TagError>(v@),
                Err(e) => self.spec_get_compound(name@) == Err::<Seq<Tag>, TagError>(e),
            },
    {
        match self.get(name) {
            Ok(Tag::Compound(_, v)) => Ok(v),
            Ok(_) => Err(TagError::WrongType),
            Err(e) => Err(e),
        }
    }
}

} // verus!
