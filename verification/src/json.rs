//! JSON values as the library sees them: a closed sum type, and the
//! mathematical tree that each value stands for.

use vstd::prelude::*;

verus! {

/// A JSON value. An object keeps its members in the order in which they are
/// written; a number is kept as its literal text.
#[derive(Debug, PartialEq)]
pub enum JsonValue {
    Null,
    Bool(bool),
    Number(String),
    Text(String),
    Array(Vec<JsonValue>),
    Object(Vec<(String, JsonValue)>),
}

/// The tree that a `JsonValue` stands for.
pub enum Tree {
    Null,
    Bool(bool),
    Number(Seq<char>),
    Text(Seq<char>),
    Array(Seq<Tree>),
    Object(Seq<(Seq<char>, Tree)>),
}

impl View for JsonValue {
    type V = Tree;

    open spec fn view(&self) -> Tree
        decreases self,
    {
        match self {
            JsonValue::Null => Tree::Null,
            JsonValue::Bool(b) => Tree::Bool(*b),
            JsonValue::Number(n) => Tree::Number(n@),
            JsonValue::Text(s) => Tree::Text(s@),
            JsonValue::Array(items) => Tree::Array(
                Seq::new(
                    items@.len(),
                    |i: int|
                        if 0 <= i < items@.len() {
                            items@[i].view()
                        } else {
                            Tree::Null
                        },
                ),
            ),
            JsonValue::Object(members) => Tree::Object(members_view(members@)),
        }
    }
}

/// The members of an object, each key and value by its view.
pub open spec fn members_view(members: Seq<(String, JsonValue)>) -> Seq<(Seq<char>, Tree)>
    decreases members,
{
    Seq::new(
        members.len(),
        |i: int|
            if 0 <= i < members.len() {
                (members[i].0@, members[i].1.view())
            } else {
                (Seq::<char>::empty(), Tree::Null)
            },
    )
}

/// The keys of a run of members, in order.
pub open spec fn member_keys(members: Seq<(Seq<char>, Tree)>) -> Seq<Seq<char>> {
    members.map_values(|m: (Seq<char>, Tree)| m.0)
}

impl Tree {
    /// The members of an object; no members for any other tree.
    pub open spec fn members(self) -> Seq<(Seq<char>, Tree)> {
        match self {
            Tree::Object(members) => members,
            _ => Seq::empty(),
        }
    }

    /// In every object of the tree, no key occurs twice.
    pub open spec fn unique_keys(self) -> bool
        decreases self,
    {
        match self {
            Tree::Object(members) => member_keys(members).no_duplicates() && forall|i: int|
                0 <= i < members.len() ==> (#[trigger] members[i]).1.unique_keys(),
            Tree::Array(items) => forall|i: int|
                0 <= i < items.len() ==> (#[trigger] items[i]).unique_keys(),
            _ => true,
        }
    }
}

/// The value of the first member of `tree` with the key `key`; `None`
/// where `tree` is no object or has no such member.
pub open spec fn member_of(tree: Tree, key: Seq<char>) -> Option<Tree> {
    match member_keys(tree.members()).index_of_first(key) {
        Some(i) => Some(tree.members()[i].1),
        None => None,
    }
}

impl JsonValue {
    /// The value of the first member with the key `key`; `None` where this
    /// is no object or has no such member.
    pub fn get(&self, key: &str) -> (r: Option<&JsonValue>)
        ensures
            match r {
                Some(value) => member_of(self@, key@) == Some(value@),
                None => member_of(self@, key@) is None,
            },
    {
        let wanted = key.to_owned();
        proof {
            member_keys(self@.members()).index_of_first_ensures(key@);
        }
        match self {
            JsonValue::Object(members) => {
                let mut i: usize = 0;
                while i < members.len()
                    invariant
                        i <= members.len(),
                        wanted@ == key@,
                        self@.members() == members_view(members@),
                        forall|j: int| 0 <= j < i ==> member_keys(self@.members())[j] != key@,
                    decreases members.len() - i,
                {
                    if members[i].0 == wanted {
                        proof {
                            let keys = member_keys(self@.members());
                            keys.index_of_first_ensures(key@);
                            assert(keys[i as int] == key@);
                            assert(keys.contains(key@));
                            let first = keys.index_of_first(key@);
                            assert(first is Some);
                            assert(first->0 == i);
                        }
                        return Some(&members[i].1);
                    }
                    i += 1;
                }
                None
            },
            _ => {
                assert(member_keys(self@.members()) =~= Seq::<Seq<char>>::empty());
                None
            },
        }
    }
}

impl Clone for JsonValue {
    /// A value that stands for the same tree.
    fn clone(&self) -> (r: Self)
        ensures
            r@ == self@,
        decreases self,
    {
        match self {
            JsonValue::Null => JsonValue::Null,
            JsonValue::Bool(b) => JsonValue::Bool(*b),
            JsonValue::Number(n) => JsonValue::Number(n.clone()),
            JsonValue::Text(s) => JsonValue::Text(s.clone()),
            JsonValue::Array(items) => {
                let mut copy: Vec<JsonValue> = Vec::new();
                let mut i: usize = 0;
                assert(decreases_to!(self => items));
                while i < items.len()
                    invariant
                        i <= items.len(),
                        decreases_to!(self => items),
                        copy@.len() == i,
                        *self == JsonValue::Array(*items),
                        forall|j: int| 0 <= j < i ==> copy@[j]@ == items@[j]@,
                    decreases items.len() - i,
                {
                    proof {
                        assert(decreases_to!(items => items@));
                        assert(decreases_to!(items@ => items@[i as int]));
                    }
                    let item = items[i].clone();
                    copy.push(item);
                    i += 1;
                }
                let r = JsonValue::Array(copy);
                assert(r@ =~= self@) by {
                    assert(r@->Array_0 =~= self@->Array_0);
                }
                r
            },
            JsonValue::Object(members) => {
                let mut copy: Vec<(String, JsonValue)> = Vec::new();
                let mut i: usize = 0;
                while i < members.len()
                    invariant
                        i <= members.len(),
                        decreases_to!(self => members),
                        copy@.len() == i,
                        *self == JsonValue::Object(*members),
                        forall|j: int|
                            0 <= j < i ==> copy@[j].0@ == members@[j].0@ && copy@[j].1@
                                == members@[j].1@,
                    decreases members.len() - i,
                {
                    let key = members[i].0.clone();
                    proof {
                        assert(decreases_to!(members => members@));
                        assert(decreases_to!(members@ => members@[i as int]));
                    }
                    let value = members[i].1.clone();
                    copy.push((key, value));
                    i += 1;
                }
                let r = JsonValue::Object(copy);
                assert(r@ =~= self@) by {
                    assert(members_view(copy@) =~= members_view(members@));
                }
                r
            },
        }
    }
}

} // verus!
