//! JSON values, as far as the agent reads them.

use crate::text::same_text;
use vstd::prelude::*;

verus! {

/// A JSON value. Of numbers, only those that are integers in the range of `i64`
/// carry their value. In an object, the last of several members of one name counts.
pub enum Json {
    Null,
    Bool(bool),
    Integer(i64),
    OtherNumber,
    Text(String),
    Array(Vec<Json>),
    Object(Vec<(String, Json)>),
}

/// The place of the last member called `name`.
pub open spec fn member_place(members: Seq<(String, Json)>, name: Seq<char>) -> Option<int>
    decreases members.len(),
{
    if members.len() == 0 {
        None
    } else if members.last().0@ == name {
        Some(members.len() - 1)
    } else {
        member_place(members.drop_last(), name)
    }
}

impl Json {
    /// The member called `name`, where this is an object that has one.
    pub open spec fn member(self, name: Seq<char>) -> Option<Json> {
        match self {
            Json::Object(members) => match member_place(members@, name) {
                Some(i) => Some(members@[i].1),
                None => None,
            },
            _ => None,
        }
    }

    /// The member called `name`, null where there is none.
    pub open spec fn member_or_null(self, name: Seq<char>) -> Json {
        match self.member(name) {
            Some(value) => value,
            None => Json::Null,
        }
    }

    /// The text, where this is one.
    pub open spec fn as_text(self) -> Option<Seq<char>> {
        match self {
            Json::Text(s) => Some(s@),
            _ => None,
        }
    }

    /// The elements, where this is an array.
    pub open spec fn as_elements(self) -> Option<Seq<Json>> {
        match self {
            Json::Array(elements) => Some(elements@),
            _ => None,
        }
    }

    /// The value, where this is an integer.
    pub open spec fn as_integer(self) -> Option<i64> {
        match self {
            Json::Integer(n) => Some(n),
            _ => None,
        }
    }

    /// The text of the member called `name`, where there is one and it is a text.
    pub open spec fn member_text(self, name: Seq<char>) -> Option<Seq<char>> {
        self.member_or_null(name).as_text()
    }

    /// The member called `name`.
    pub fn get(&self, name: &str) -> (r: Option<&Json>)
        ensures
            match r {
                Some(value) => self.member(name@) == Some(*value),
                None => self.member(name@) is None,
            },
    {
        match self {
            Json::Object(members) => {
                let mut i: usize = members.len();
                assert(members@.take(members@.len() as int) == members@);
                while i > 0
                    invariant
                        i <= members@.len(),
                        *self == Json::Object(*members),
                        member_place(members@, name@) == member_place(
                            members@.take(i as int),
                            name@,
                        ),
                    decreases i,
                {
                    i -= 1;
                    assert(members@.take(i + 1).drop_last() == members@.take(i as int));
                    if same_text(members[i].0.as_str(), name) {
                        return Some(&members[i].1);
                    }
                }
                None
            },
            _ => None,
        }
    }

    /// The member called `name`, null where there is none.
    pub fn at(&self, name: &str) -> (r: &Json)
        ensures
            *r == self.member_or_null(name@),
    {
        match self.get(name) {
            Some(value) => value,
            None => &Json::Null,
        }
    }

    /// The text, where this is one.
    pub fn as_str(&self) -> (r: Option<&String>)
        ensures
            match r {
                Some(s) => self.as_text() == Some(s@),
                None => self.as_text() is None,
            },
    {
        match self {
            Json::Text(s) => Some(s),
            _ => None,
        }
    }

    /// The elements, where this is an array.
    pub fn as_array(&self) -> (r: Option<&Vec<Json>>)
        ensures
            match r {
                Some(v) => self.as_elements() == Some(v@),
                None => self.as_elements() is None,
            },
    {
        match self {
            Json::Array(elements) => Some(elements),
            _ => None,
        }
    }

    /// The value, where this is an integer.
    pub fn as_i64(&self) -> (r: Option<i64>)
        ensures
            r == self.as_integer(),
    {
        match self {
            Json::Integer(n) => Some(*n),
            _ => None,
        }
    }
}

/// The version that the `/version` endpoint reports: the texts under `major` and
/// `minor` with a point between them. `None` where either is missing or no text.
pub open spec fn version_text(v: Json) -> Option<Seq<char>> {
    match (v.member_text("major"@), v.member_text("minor"@)) {
        (Some(major), Some(minor)) => Some(major + "."@ + minor),
        _ => None,
    }
}

/// Extracts a `major.minor` version from the body of the `/version` endpoint.
///
/// Managed control planes append a `+` to the minor field; it is kept.
pub fn parse_k8s_version(v: &Json) -> (r: Option<String>)
    ensures
        match r {
            Some(s) => version_text(*v) == Some(s@),
            None => version_text(*v) is None,
        },
{
    let major = match v.at("major").as_str() {
        Some(s) => s,
        None => {
            return None;
        },
    };
    let minor = match v.at("minor").as_str() {
        Some(s) => s,
        None => {
            return None;
        },
    };
    Some(major.clone().concat(".").concat(minor.as_str()))
}

} // verus!
