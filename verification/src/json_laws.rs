//! What holds of reading JSON values.

use crate::json::{member_place, version_text, Json};
use vstd::prelude::*;

verus! {

proof fn lemma_last_member(members: Seq<(String, Json)>, name: Seq<char>, i: int)
    ensures
        0 <= i < members.len() && members[i].0@ == name && (forall|j: int|
            i < j < members.len() ==> (#[trigger] members[j]).0@ != name) ==> member_place(
            members,
            name,
        ) == Some(i),
        (forall|j: int| 0 <= j < members.len() ==> (#[trigger] members[j]).0@ != name) <==> (
        member_place(members, name) is None),
        member_place(members, name) matches Some(p) ==> 0 <= p < members.len(),
    decreases members.len(),
{
    if members.len() > 0 {
        let init = members.drop_last();
        let last = members.len() - 1;
        lemma_last_member(init, name, i);
        assert forall|j: int| 0 <= j < init.len() implies init[j] == #[trigger] members[j] by {}
        if members[last].0@ != name {
            if forall|j: int| 0 <= j < init.len() ==> (#[trigger] init[j]).0@ != name {
                assert forall|j: int| 0 <= j < members.len() implies (#[trigger] members[j]).0@
                    != name by {
                    if j < last {
                        assert(init[j].0@ != name);
                    }
                }
            } else {
                let j = choose|j: int| 0 <= j < init.len() && (#[trigger] init[j]).0@ == name;
                assert(members[j].0@ == name);
            }
        }
        if 0 <= i < members.len() && members[i].0@ == name && (forall|j: int|
            i < j < members.len() ==> (#[trigger] members[j]).0@ != name) {
            if i < last {
                assert(members[last].0@ != name);
                assert(init[i].0@ == name);
                assert forall|j: int| i < j < init.len() implies (#[trigger] init[j]).0@
                    != name by {
                    assert(members[j].0@ != name);
                }
            }
        }
    }
}

/// Of several members of one name the last counts; an object without one of the name,
/// and a value that is no object, have no such member.
pub proof fn law_last_member_of_a_name_counts(
    members: Vec<(String, Json)>,
    value: Json,
    name: Seq<char>,
    i: int,
)
    ensures
        0 <= i < members@.len() && members@[i].0@ == name && (forall|j: int|
            i < j < members@.len() ==> (#[trigger] members@[j]).0@ != name) ==> Json::Object(
            members,
        ).member(name) == Some(members@[i].1),
        (forall|j: int| 0 <= j < members@.len() ==> (#[trigger] members@[j]).0@ != name) <==> (
        Json::Object(members).member(name) is None),
        value !is Object ==> value.member(name) is None,
{
    lemma_last_member(members@, name, i);
}

/// A value is read as what it is and as nothing else; a missing member is read as null.
pub proof fn law_values_are_read_as_what_they_are(
    text: String,
    elements: Vec<Json>,
    n: i64,
    value: Json,
    name: Seq<char>,
)
    ensures
        Json::Text(text).as_text() == Some(text@),
        Json::Array(elements).as_elements() == Some(elements@),
        Json::Integer(n).as_integer() == Some(n),
        value !is Text ==> value.as_text() is None,
        value !is Array ==> value.as_elements() is None,
        value !is Integer ==> value.as_integer() is None,
        value.member(name) is None ==> value.member_or_null(name) == Json::Null
            && value.member_text(name) is None,
        value.member(name) matches Some(m) ==> value.member_or_null(name) == m
            && value.member_text(name) == m.as_text(),
{
}

/// A version is the text under `major`, a point and the text under `minor`; it takes
/// both.
pub proof fn law_version_is_major_and_minor(value: Json, major: Seq<char>, minor: Seq<char>)
    ensures
        value.member_text("major"@) == Some(major) && value.member_text("minor"@) == Some(minor)
            ==> version_text(value) == Some(major.push('.') + minor),
        version_text(value) is Some <==> value.member_text("major"@) is Some && value.member_text(
            "minor"@,
        ) is Some,
{
    reveal_strlit(".");
    assert(major + "."@ == major.push('.'));
}

} // verus!
