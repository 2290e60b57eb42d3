//! Flattening a JSON tree into dot-path keys, rebuilding a tree from such
//! keys, and overlaying flat translations onto an existing tree.
//!
//! Only text leaves are translation content: flattening drops every other
//! leaf, and an object without members with it. Rebuilding splits each key
//! on `.`; where one key is a dotted prefix of another, the shorter key keeps
//! its text and the longer one is dropped, whatever the order of the keys.

use crate::json::{member_keys, members_view, JsonValue, Tree};
use crate::str_map::StrMap;
use crate::text::{lemma_split_nonempty, split, split_on, texts};
use vstd::prelude::*;

verus! {

/// A flat map from dot-path keys to texts.
pub type FlatMap = StrMap<String>;

/// Flat entries in order, each key with its text.
pub type Flat = Seq<(Seq<char>, Seq<char>)>;

/// The keys of flat entries, in order.
pub open spec fn flat_keys(entries: Flat) -> Seq<Seq<char>> {
    entries.map_values(|e: (Seq<char>, Seq<char>)| e.0)
}

/// The entries with `key` bound to `value`: in place where the key is
/// already there, at the end where it is new.
pub open spec fn put(entries: Flat, key: Seq<char>, value: Seq<char>) -> Flat {
    if flat_keys(entries).contains(key) {
        entries.update(flat_keys(entries).index_of(key), (key, value))
    } else {
        entries.push((key, value))
    }
}

/// The entries of a flat map, in order.
pub open spec fn entries_of(map: FlatMap) -> Flat {
    Seq::new(map.keys().len(), |i: int| (map.keys()[i], map.values()[i]@))
}

/// The `Map` that flat entries stand for; of two entries with one key the
/// later counts.
pub open spec fn flat_map(entries: Flat) -> Map<Seq<char>, Seq<char>>
    decreases entries.len(),
{
    if entries.len() == 0 {
        Map::empty()
    } else {
        flat_map(entries.drop_last()).insert(entries.last().0, entries.last().1)
    }
}

/// The key under which a member `key` of an object at `prefix` is stored:
/// the member's own key at the root, else the prefix, a dot and the key.
pub open spec fn child_key(prefix: Seq<char>, key: Seq<char>) -> Seq<char> {
    if prefix.len() == 0 {
        key
    } else {
        prefix + seq!['.'] + key
    }
}

/// The number of members of an object; zero for any other tree.
pub open spec fn member_count(tree: Tree) -> nat {
    tree.members().len()
}

/// `acc` after the text leaves of `tree`, reached depth first, have been put
/// into it under their dot paths below `prefix`.
pub open spec fn flatten_into(tree: Tree, prefix: Seq<char>, acc: Flat) -> Flat
    decreases tree, member_count(tree) + 1,
{
    match tree {
        Tree::Text(s) => put(acc, prefix, s),
        Tree::Object(members) => flatten_members(tree, prefix, acc, members.len()),
        _ => acc,
    }
}

/// `acc` after the leaves of the first `n` members of the object `tree`
/// have been put into it.
pub open spec fn flatten_members(tree: Tree, prefix: Seq<char>, acc: Flat, n: nat) -> Flat
    decreases tree, n,
{
    if n == 0 || n > member_count(tree) {
        acc
    } else {
        let member = tree.members()[n - 1];
        flatten_into(
            member.1,
            child_key(prefix, member.0),
            flatten_members(tree, prefix, acc, (n - 1) as nat),
        )
    }
}

/// The flat entries of `tree` below `prefix`.
pub open spec fn flatten_tree(tree: Tree, prefix: Seq<char>) -> Flat {
    flatten_into(tree, prefix, Seq::empty())
}

/// The members of an object after `value` has been set at the path `parts`.
/// Objects are made on the way where they are missing. Where the way leads
/// through a member that is no object, nothing changes.
pub open spec fn insert_path(
    members: Seq<(Seq<char>, Tree)>,
    parts: Seq<Seq<char>>,
    value: Seq<char>,
) -> Seq<(Seq<char>, Tree)>
    decreases parts.len(),
{
    if parts.len() == 0 {
        members
    } else {
        let head = parts[0];
        let keys = member_keys(members);
        if parts.len() == 1 {
            if keys.contains(head) {
                members.update(keys.index_of(head), (head, Tree::Text(value)))
            } else {
                members.push((head, Tree::Text(value)))
            }
        } else if !keys.contains(head) {
            members.push((head, Tree::Object(insert_path(Seq::empty(), parts.skip(1), value))))
        } else {
            let at = keys.index_of(head);
            match members[at].1 {
                Tree::Object(inner) => members.update(
                    at,
                    (head, Tree::Object(insert_path(inner, parts.skip(1), value))),
                ),
                _ => members,
            }
        }
    }
}

/// The members built from the first `n` flat entries, taken in order.
pub open spec fn unflatten_members(entries: Flat, n: nat) -> Seq<(Seq<char>, Tree)>
    decreases n,
{
    if n == 0 || n > entries.len() {
        Seq::empty()
    } else {
        insert_path(
            unflatten_members(entries, (n - 1) as nat),
            split_on(entries[n - 1].0, '.'),
            entries[n - 1].1,
        )
    }
}

/// The tree built from flat entries.
pub open spec fn unflatten_tree(entries: Flat) -> Tree {
    Tree::Object(unflatten_members(entries, entries.len()))
}

/// `base` after the first `n` entries of `updates` have been put into it.
pub open spec fn overlay(base: Flat, updates: Flat, n: nat) -> Flat
    decreases n,
{
    if n == 0 || n > updates.len() {
        base
    } else {
        put(overlay(base, updates, (n - 1) as nat), updates[n - 1].0, updates[n - 1].1)
    }
}

/// The tree that overlaying `updates` onto `original` gives.
pub open spec fn merge_tree(original: Tree, updates: Flat) -> Tree {
    unflatten_tree(overlay(flatten_tree(original, Seq::empty()), updates, updates.len()))
}

/// How the entries of a flat map read off its `Map` view: the keys are the
/// same, and each key's text is the view of its value.
pub proof fn lemma_entries_view(map: FlatMap)
    requires
        map.wf(),
    ensures
        flat_keys(entries_of(map)) == map.keys(),
        flat_keys(entries_of(map)).no_duplicates(),
        forall|key: Seq<char>| map@.contains_key(key) <==> flat_keys(entries_of(map)).contains(key),
        forall|i: int|
            0 <= i < map.keys().len() ==> map@[(#[trigger] entries_of(map)[i]).0]@ == entries_of(
                map,
            )[i].1,
{
    map.lemma_view();
    assert(flat_keys(entries_of(map)) =~= map.keys());
    assert forall|i: int| 0 <= i < map.keys().len() implies map@[(#[trigger] entries_of(
        map,
    )[i]).0]@ == entries_of(map)[i].1 by {
        assert(map@[map.keys()[i]] == map.values()[i]);
    }
}

/// What an insertion into a flat map does to its entries.
pub proof fn lemma_insert_entries(before: FlatMap, after: FlatMap, key: Seq<char>, value: String)
    requires
        before.wf(),
        before.keys().contains(key) ==> after.keys() == before.keys() && after.values()
            == before.values().update(before.keys().index_of(key), value),
        !before.keys().contains(key) ==> after.keys() == before.keys().push(key) && after.values()
            == before.values().push(value),
    ensures
        entries_of(after) == put(entries_of(before), key, value@),
{
    assert(flat_keys(entries_of(before)) =~= before.keys());
    if before.keys().contains(key) {
        assert(entries_of(after) =~= put(entries_of(before), key, value@));
    } else {
        assert(entries_of(after) =~= put(entries_of(before), key, value@));
    }
}

/// Flattens `value` into `result`, as `flatten_object` does.
fn flatten_recursive(value: &JsonValue, prefix: &str, result: &mut FlatMap)
    ensures
        entries_of(*final(result)) == flatten_into(value@, prefix@, entries_of(*old(result))),
    decreases value,
{
    match value {
        JsonValue::Object(members) => {
            let mut i: usize = 0;
            while i < members.len()
                invariant
                    i <= members.len(),
                    decreases_to!(value => members),
                    value@ == Tree::Object(members_view(members@)),
                    entries_of(*result) == flatten_members(
                        value@,
                        prefix@,
                        entries_of(*old(result)),
                        i as nat,
                    ),
                decreases members.len() - i,
            {
                proof {
                    assert(decreases_to!(members => members@));
                    assert(decreases_to!(members@ => members@[i as int]));
                }
                let key = &members[i].0;
                let new_key = if prefix.is_empty() {
                    key.clone()
                } else {
                    let mut k = prefix.to_owned();
                    k.append(".");
                    k.append(key.as_str());
                    proof {
                        reveal_strlit(".");
                        assert(k@ =~= prefix@ + seq!['.'] + key@);
                    }
                    k
                };
                flatten_recursive(&members[i].1, new_key.as_str(), result);
                i += 1;
            }
        },
        JsonValue::Text(s) => {
            let ghost before = *result;
            proof {
                use_type_invariant(&*result);
            }
            result.insert(prefix.to_owned(), s.clone());
            proof {
                lemma_insert_entries(before, *result, prefix@, *s);
            }
        },
        _ => {},
    }
}

/// Flattens a JSON tree into dot-path keys: the text leaves of `value`,
/// reached depth first, each under the keys on its way joined with dots
/// below `prefix`. Leaves that are no text, and objects without members,
/// leave no entry. Where two leaves come under one key, the later one counts.
pub fn flatten_object(value: &JsonValue, prefix: &str) -> (result: FlatMap)
    ensures
        entries_of(result) == flatten_tree(value@, prefix@),
{
    let mut result: FlatMap = StrMap::new();
    assert(entries_of(result) =~= Seq::empty());
    flatten_recursive(value, prefix, &mut result);
    result
}

/// The position of `key` among `members`, if it is there.
fn member_position(members: &Vec<(String, JsonValue)>, key: &String) -> (r: Option<usize>)
    ensures
        match r {
            Some(i) => i < members@.len() && member_keys(members_view(members@))[i as int] == key@
                && forall|j: int|
                0 <= j < i ==> member_keys(members_view(members@))[j] != key@,
            None => !member_keys(members_view(members@)).contains(key@),
        },
{
    let mut i: usize = 0;
    while i < members.len()
        invariant
            i <= members.len(),
            forall|j: int| 0 <= j < i ==> member_keys(members_view(members@))[j] != key@,
        decreases members.len() - i,
    {
        if members[i].0 == *key {
            return Some(i);
        }
        i += 1;
    }
    None
}

/// Sets `value` at the path `parts[from..]` below `members`.
fn insert_into_nested(
    members: Vec<(String, JsonValue)>,
    parts: &Vec<String>,
    from: usize,
    value: String,
) -> (r: Vec<(String, JsonValue)>)
    requires
        from < parts@.len(),
        Tree::Object(members_view(members@)).unique_keys(),
    ensures
        members_view(r@) == insert_path(
            members_view(members@),
            texts(parts@).skip(from as int),
            value@,
        ),
        Tree::Object(members_view(r@)).unique_keys(),
    decreases parts@.len() - from,
{
    let mut members = members;
    let ghost before = members_view(members@);
    let ghost path = texts(parts@).skip(from as int);
    let ghost keys = member_keys(before);
    let head = parts[from].clone();
    assert(path[0] == head@);
    assert(path.len() == parts@.len() - from);
    let found = member_position(&members, &head);
    proof {
        if let Some(i) = found {
            assert(keys.contains(head@));
            let j = keys.index_of(head@);
            assert(keys[j] == head@);
            assert(j == i);
        }
    }
    let last: usize = parts.len() - 1;
    if from == last {
        match found {
            Some(i) => {
                members.push((head, JsonValue::Text(value)));
                let _ = members.swap_remove(i);
                proof {
                    assert(members_view(members@) =~= before.update(
                        i as int,
                        (head@, Tree::Text(value@)),
                    ));
                    lemma_update_member(before, i as int, head@, Tree::Text(value@));
                }
            },
            None => {
                members.push((head, JsonValue::Text(value)));
                proof {
                    assert(members_view(members@) =~= before.push((head@, Tree::Text(value@))));
                    lemma_push_member(before, head@, Tree::Text(value@));
                }
            },
        }
        members
    } else {
        assert(path.skip(1) =~= texts(parts@).skip(from + 1));
        match found {
            None => {
                let inner = insert_into_nested(Vec::new(), parts, from + 1, value);
                proof {
                    assert(members_view(Seq::<(String, JsonValue)>::empty()) =~= Seq::empty());
                }
                let child = JsonValue::Object(inner);
                members.push((head, child));
                proof {
                    assert(members_view(members@) =~= before.push((head@, child@)));
                    lemma_push_member(before, head@, child@);
                }
                members
            },
            Some(i) => {
                members.push((head.clone(), JsonValue::Null));
                let (key, child) = members.swap_remove(i);
                match child {
                    JsonValue::Object(inner) => {
                        proof {
                            assert(before[i as int].1 == child@);
                            assert(child@.unique_keys());
                        }
                        let inner = insert_into_nested(inner, parts, from + 1, value);
                        let child = JsonValue::Object(inner);
                        members.push((key, child));
                        let _ = members.swap_remove(i);
                        proof {
                            assert(members_view(members@) =~= before.update(
                                i as int,
                                (head@, child@),
                            ));
                            lemma_update_member(before, i as int, head@, child@);
                        }
                        members
                    },
                    other => {
                        members.push((key, other));
                        let _ = members.swap_remove(i);
                        proof {
                            assert(members_view(members@) =~= before);
                        }
                        members
                    },
                }
            },
        }
    }
}

/// Rebuilds a JSON tree from dot-path keys. The entries are taken in
/// order; each key is split on `.` and its text set at that path, with
/// objects made on the way. Where one key is a dotted prefix of another, the
/// shorter key keeps its text and the longer one is dropped. The result is an
/// object in which no key occurs twice.
pub fn unflatten_object(flat: FlatMap) -> (tree: JsonValue)
    ensures
        tree@ == unflatten_tree(entries_of(flat)),
        tree@.unique_keys(),
{
    let mut members: Vec<(String, JsonValue)> = Vec::new();
    let mut i: usize = 0;
    let n = flat.len();
    assert(members_view(members@) =~= Seq::empty());
    while i < n
        invariant
            i <= n,
            n == flat.keys().len(),
            members_view(members@) == unflatten_members(entries_of(flat), i as nat),
            Tree::Object(members_view(members@)).unique_keys(),
        decreases n - i,
    {
        let key = flat.key_at(i);
        let value = flat.value_at(i).clone();
        let parts = split(key.as_str(), '.');
        proof {
            lemma_split_nonempty(key@, '.');
            assert(texts(parts@).skip(0) =~= texts(parts@));
        }
        members = insert_into_nested(members, &parts, 0, value);
        i += 1;
    }
    JsonValue::Object(members)
}

/// Puts every entry of `source` into `target`, in order: a key that
/// `target` already holds gets the new text, a new key goes to the end.
pub fn extend_flat(target: &mut FlatMap, source: &FlatMap)
    ensures
        entries_of(*final(target)) == overlay(
            entries_of(*old(target)),
            entries_of(*source),
            source.keys().len(),
        ),
{
    let n = source.len();
    let mut i: usize = 0;
    while i < n
        invariant
            i <= n,
            n == source.keys().len(),
            entries_of(*target) == overlay(entries_of(*old(target)), entries_of(*source), i as nat),
        decreases n - i,
    {
        let key = source.key_at(i).clone();
        let value = source.value_at(i).clone();
        let ghost before = *target;
        proof {
            use_type_invariant(&*target);
        }
        target.insert(key, value);
        proof {
            lemma_insert_entries(before, *target, key@, value);
        }
        i += 1;
    }
}

/// Overlays flat translations onto a tree: flattens `original`, puts every
/// entry of `flat_translations` over it in order, so that the new text
/// always counts, and rebuilds the tree.
pub fn merge_with_flat(original: &JsonValue, flat_translations: FlatMap) -> (tree: JsonValue)
    ensures
        tree@ == merge_tree(original@, entries_of(flat_translations)),
        tree@.unique_keys(),
{
    let mut merged = flatten_object(original, "");
    proof {
        reveal_strlit("");
        assert(""@ =~= Seq::<char>::empty());
    }
    extend_flat(&mut merged, &flat_translations);
    unflatten_object(merged)
}

/// A member pushed under a key that is not there keeps the keys distinct.
pub proof fn lemma_push_member(members: Seq<(Seq<char>, Tree)>, key: Seq<char>, value: Tree)
    requires
        Tree::Object(members).unique_keys(),
        !member_keys(members).contains(key),
        value.unique_keys(),
    ensures
        Tree::Object(members.push((key, value))).unique_keys(),
        member_keys(members.push((key, value))) == member_keys(members).push(key),
{
    let keys = member_keys(members);
    let pushed = members.push((key, value));
    let after = member_keys(pushed);
    assert(after =~= keys.push(key));
    assert forall|a: int, b: int| 0 <= a < after.len() && 0 <= b < after.len() && a != b implies after[a]
        != after[b] by {
        if a < keys.len() {
            assert(keys.contains(keys[a]));
        }
        if b < keys.len() {
            assert(keys.contains(keys[b]));
        }
    }
    assert forall|i: int| 0 <= i < pushed.len() implies (#[trigger] pushed[i]).1.unique_keys() by {
        if i < members.len() {
            assert(pushed[i] == members[i]);
        }
    }
}

/// A member replaced under its own key keeps the keys distinct.
pub proof fn lemma_update_member(
    members: Seq<(Seq<char>, Tree)>,
    at: int,
    key: Seq<char>,
    value: Tree,
)
    requires
        Tree::Object(members).unique_keys(),
        0 <= at < members.len(),
        members[at].0 == key,
        value.unique_keys(),
    ensures
        Tree::Object(members.update(at, (key, value))).unique_keys(),
        member_keys(members.update(at, (key, value))) == member_keys(members),
{
    let updated = members.update(at, (key, value));
    assert(member_keys(updated) =~= member_keys(members));
    assert forall|i: int| 0 <= i < updated.len() implies (#[trigger] updated[i]).1.unique_keys() by {
        if i != at {
            assert(updated[i] == members[i]);
        }
    }
}

} // verus!
