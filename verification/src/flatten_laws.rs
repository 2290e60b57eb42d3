//! What holds of flattening, rebuilding and merging, whatever the tree.

use crate::flatten::{
    child_key, flat_keys, flat_map, flatten_into, flatten_members, flatten_tree, insert_path,
    member_count, merge_tree, overlay, put, unflatten_members, unflatten_tree, Flat,
};
use crate::json::{member_keys, Tree};
use crate::text::split_on;
use vstd::prelude::*;

verus! {

/// Text leaves by their paths: the keys on the way to each leaf, and its
/// text.
pub type PathEntries = Seq<(Seq<Seq<char>>, Seq<char>)>;

/// The entries with `parts` put before each path.
pub open spec fn prefixed(parts: Seq<Seq<char>>, entries: PathEntries) -> PathEntries {
    Seq::new(entries.len(), |i: int| (parts + entries[i].0, entries[i].1))
}

/// The text leaves of `tree`, depth first, each with its path below `tree`.
pub open spec fn leaf_paths(tree: Tree) -> PathEntries
    decreases tree, member_count(tree) + 1,
{
    match tree {
        Tree::Text(s) => seq![(Seq::<Seq<char>>::empty(), s)],
        Tree::Object(members) => member_paths(tree, members.len()),
        _ => Seq::empty(),
    }
}

/// The text leaves below the first `n` members of the object `tree`.
pub open spec fn member_paths(tree: Tree, n: nat) -> PathEntries
    decreases tree, n,
{
    if n == 0 || n > member_count(tree) {
        Seq::empty()
    } else {
        let member = tree.members()[n - 1];
        member_paths(tree, (n - 1) as nat) + prefixed(seq![member.0], leaf_paths(member.1))
    }
}

/// The text leaves of `tree`, depth first, each under its dot-path key
/// below `prefix`.
pub open spec fn leaf_entries(tree: Tree, prefix: Seq<char>) -> Flat
    decreases tree, member_count(tree) + 1,
{
    match tree {
        Tree::Text(s) => seq![(prefix, s)],
        Tree::Object(members) => member_entries(tree, prefix, members.len()),
        _ => Seq::empty(),
    }
}

/// The text leaves below the first `n` members of the object `tree`, each
/// under its dot-path key.
pub open spec fn member_entries(tree: Tree, prefix: Seq<char>, n: nat) -> Flat
    decreases tree, n,
{
    if n == 0 || n > member_count(tree) {
        Seq::empty()
    } else {
        let member = tree.members()[n - 1];
        member_entries(tree, prefix, (n - 1) as nat) + leaf_entries(
            member.1,
            child_key(prefix, member.0),
        )
    }
}

/// Flat entries by their paths: each key split on dots.
pub open spec fn paths_of(entries: Flat) -> PathEntries {
    Seq::new(entries.len(), |i: int| (split_on(entries[i].0, '.'), entries[i].1))
}

/// The members after the first `n` path entries have been set, in order.
pub open spec fn build(members: Seq<(Seq<char>, Tree)>, entries: PathEntries, n: nat) -> Seq<
    (Seq<char>, Tree),
>
    decreases n,
{
    if n == 0 || n > entries.len() {
        members
    } else {
        insert_path(build(members, entries, (n - 1) as nat), entries[n - 1].0, entries[n - 1].1)
    }
}

/// A key holds no dot.
pub open spec fn dot_free(key: Seq<char>) -> bool {
    !key.contains('.')
}

/// A tree below the root that comes back from flattening as it was: a
/// text, or an object that has members and whose members are sound.
pub open spec fn solid(tree: Tree) -> bool
    decreases tree, 1nat,
{
    match tree {
        Tree::Text(_) => true,
        Tree::Object(members) => members.len() > 0 && sound_members(tree),
        _ => false,
    }
}

/// In the object `tree` no key occurs twice or holds a dot, and every
/// member is a text or an object with members, all the way down.
pub open spec fn sound_members(tree: Tree) -> bool
    decreases tree, 0nat,
{
    tree is Object && member_keys(tree.members()).no_duplicates() && forall|i: int|
        0 <= i < tree.members().len() ==> dot_free((#[trigger] tree.members()[i]).0) && solid(
            tree.members()[i].1,
        )
}

/// A tree that comes back from flattening as it was: an object in which no
/// key occurs twice or holds a dot, whose members are texts or objects with
/// members, all the way down, and in which a member with the empty key is a
/// text.
pub open spec fn round_trips(tree: Tree) -> bool {
    sound_members(tree) && forall|i: int|
        0 <= i < tree.members().len() ==> ((#[trigger] tree.members()[i]).0.len() == 0
            ==> tree.members()[i].1 is Text)
}

/// In every object of the tree, all the way down, no key occurs twice or
/// holds a dot. What is no object is a leaf, whatever it holds.
pub open spec fn clear(tree: Tree) -> bool
    decreases tree,
{
    match tree {
        Tree::Object(members) => member_keys(members).no_duplicates() && forall|i: int|
            0 <= i < members.len() ==> dot_free((#[trigger] members[i]).0) && clear(members[i].1),
        _ => true,
    }
}

/// No member of the root with the empty key is an object.
pub open spec fn rooted(tree: Tree) -> bool {
    forall|i: int|
        0 <= i < tree.members().len() ==> ((#[trigger] tree.members()[i]).0.len() == 0 ==> !(
        tree.members()[i].1 is Object))
}

/// The number of text leaves of a tree.
pub open spec fn text_leaf_count(tree: Tree) -> nat
    decreases tree, member_count(tree) + 1,
{
    match tree {
        Tree::Text(_) => 1,
        Tree::Object(members) => member_leaf_count(tree, members.len()),
        _ => 0,
    }
}

/// The number of text leaves below the first `n` members of the object
/// `tree`.
pub open spec fn member_leaf_count(tree: Tree, n: nat) -> nat
    decreases tree, n,
{
    if n == 0 || n > member_count(tree) {
        0
    } else {
        member_leaf_count(tree, (n - 1) as nat) + text_leaf_count(tree.members()[n - 1].1)
    }
}

/// Overlaying two runs of entries, one after the other, is overlaying
/// their concatenation.
pub proof fn lemma_overlay_concat(acc: Flat, a: Flat, b: Flat, n: nat)
    requires
        n <= b.len(),
    ensures
        overlay(acc, a + b, a.len() + n) == overlay(overlay(acc, a, a.len()), b, n),
    decreases n,
{
    if n == 0 {
        assert((a + b).take(a.len() as int) =~= a.take(a.len() as int));
        lemma_overlay_prefix(acc, a + b, a, a.len());
    } else {
        lemma_overlay_concat(acc, a, b, (n - 1) as nat);
        assert((a + b)[a.len() + n - 1] == b[n - 1]);
    }
}

/// Overlaying the first `n` entries looks at those entries alone.
pub proof fn lemma_overlay_prefix(acc: Flat, x: Flat, y: Flat, n: nat)
    requires
        n <= x.len(),
        n <= y.len(),
        x.take(n as int) == y.take(n as int),
    ensures
        overlay(acc, x, n) == overlay(acc, y, n),
    decreases n,
{
    if n > 0 {
        assert(x.take(n - 1) =~= x.take(n as int).take(n - 1));
        assert(y.take(n - 1) =~= y.take(n as int).take(n - 1));
        lemma_overlay_prefix(acc, x, y, (n - 1) as nat);
        assert(x[n - 1] == x.take(n as int)[n - 1]);
        assert(y[n - 1] == y.take(n as int)[n - 1]);
    }
}

/// Flattening puts the text leaves over what is there, one after the other,
/// depth first.
pub proof fn lemma_flatten_is_overlay(tree: Tree, prefix: Seq<char>, acc: Flat)
    ensures
        flatten_into(tree, prefix, acc) == overlay(
            acc,
            leaf_entries(tree, prefix),
            leaf_entries(tree, prefix).len(),
        ),
    decreases tree, member_count(tree) + 1,
{
    match tree {
        Tree::Text(s) => {
            let one = seq![(prefix, s)];
            assert(overlay(acc, one, 0) == acc);
            assert(overlay(acc, one, 1) == put(overlay(acc, one, 0), one[0].0, one[0].1));
        },
        Tree::Object(members) => {
            lemma_flatten_members_is_overlay(tree, prefix, acc, members.len());
        },
        _ => {},
    }
}

/// Flattening the first `n` members puts their text leaves over what is
/// there.
pub proof fn lemma_flatten_members_is_overlay(tree: Tree, prefix: Seq<char>, acc: Flat, n: nat)
    requires
        n <= member_count(tree),
    ensures
        flatten_members(tree, prefix, acc, n) == overlay(
            acc,
            member_entries(tree, prefix, n),
            member_entries(tree, prefix, n).len(),
        ),
    decreases tree, n,
{
    if n > 0 {
        let member = tree.members()[n - 1];
        let before = member_entries(tree, prefix, (n - 1) as nat);
        let here = leaf_entries(member.1, child_key(prefix, member.0));
        lemma_flatten_members_is_overlay(tree, prefix, acc, (n - 1) as nat);
        lemma_flatten_is_overlay(
            member.1,
            child_key(prefix, member.0),
            flatten_members(tree, prefix, acc, (n - 1) as nat),
        );
        lemma_overlay_concat(acc, before, here, here.len());
    }
}

/// Entries with distinct keys, put into nothing, stay as they are.
pub proof fn lemma_overlay_fresh(entries: Flat, n: nat)
    requires
        flat_keys(entries).no_duplicates(),
        n <= entries.len(),
    ensures
        overlay(Seq::empty(), entries, n) == entries.take(n as int),
    decreases n,
{
    if n == 0 {
        assert(entries.take(0) =~= Seq::empty());
    } else {
        lemma_overlay_fresh(entries, (n - 1) as nat);
        let before = entries.take(n - 1);
        let key = entries[n - 1].0;
        if flat_keys(before).contains(key) {
            let j = flat_keys(before).index_of(key);
            assert(flat_keys(before)[j] == key);
            assert(flat_keys(entries)[j] == flat_keys(entries)[n - 1]);
        }
        assert(before.push(entries[n - 1]) =~= entries.take(n as int));
    }
}

/// The keys of the map that entries stand for are the keys of the entries.
pub proof fn lemma_flat_map_keys(entries: Flat)
    ensures
        forall|key: Seq<char>|
            flat_map(entries).contains_key(key) <==> flat_keys(entries).contains(key),
    decreases entries.len(),
{
    if entries.len() > 0 {
        let rest = entries.drop_last();
        lemma_flat_map_keys(rest);
        assert forall|key: Seq<char>| flat_map(entries).contains_key(key) <==> flat_keys(
            entries,
        ).contains(key) by {
            if flat_keys(entries).contains(key) {
                let i = flat_keys(entries).index_of(key);
                assert(flat_keys(entries)[i] == key);
                if i < rest.len() {
                    assert(flat_keys(rest)[i] == key);
                }
            }
            if flat_keys(rest).contains(key) {
                let i = flat_keys(rest).index_of(key);
                assert(flat_keys(rest)[i] == key);
                assert(flat_keys(entries)[i] == key);
            }
            if key == entries.last().0 {
                assert(flat_keys(entries)[entries.len() - 1] == key);
            }
        }
    }
}

/// Replacing the text of a key in entries with distinct keys binds the key
/// anew in the map that they stand for.
pub proof fn lemma_flat_map_update(entries: Flat, at: int, value: Seq<char>)
    requires
        flat_keys(entries).no_duplicates(),
        0 <= at < entries.len(),
    ensures
        flat_map(entries.update(at, (entries[at].0, value))) == flat_map(entries).insert(
            entries[at].0,
            value,
        ),
    decreases entries.len(),
{
    let key = entries[at].0;
    let updated = entries.update(at, (key, value));
    if at == entries.len() - 1 {
        assert(updated.drop_last() =~= entries.drop_last());
        assert(flat_map(updated) =~= flat_map(entries).insert(key, value));
    } else {
        let rest = entries.drop_last();
        assert(flat_keys(rest) =~= flat_keys(entries).drop_last());
        assert(updated.drop_last() =~= rest.update(at, (rest[at].0, value)));
        lemma_flat_map_update(rest, at, value);
        assert(flat_keys(entries)[at] != flat_keys(entries)[entries.len() - 1]);
        assert(flat_map(updated) =~= flat_map(entries).insert(key, value));
    }
}

/// Putting an entry into entries with distinct keys keeps the keys distinct
/// and binds the key in the map that they stand for.
pub proof fn lemma_put(entries: Flat, key: Seq<char>, value: Seq<char>)
    requires
        flat_keys(entries).no_duplicates(),
    ensures
        flat_keys(put(entries, key, value)).no_duplicates(),
        flat_map(put(entries, key, value)) == flat_map(entries).insert(key, value),
{
    let keys = flat_keys(entries);
    if keys.contains(key) {
        let at = keys.index_of(key);
        assert(keys[at] == key);
        lemma_flat_map_update(entries, at, value);
        assert(flat_keys(put(entries, key, value)) =~= keys);
    } else {
        let pushed = entries.push((key, value));
        assert(pushed.drop_last() =~= entries);
        assert(flat_keys(pushed) =~= keys.push(key));
        assert forall|a: int, b: int|
            0 <= a < pushed.len() && 0 <= b < pushed.len() && a != b implies flat_keys(pushed)[a]
            != flat_keys(pushed)[b] by {
            if a < keys.len() {
                assert(keys.contains(keys[a]));
            }
            if b < keys.len() {
                assert(keys.contains(keys[b]));
            }
        }
    }
}

/// Overlaying entries onto entries with distinct keys gives the union of
/// the two maps, in which the overlaid text counts.
pub proof fn lemma_overlay_map(base: Flat, updates: Flat, n: nat)
    requires
        flat_keys(base).no_duplicates(),
        n <= updates.len(),
    ensures
        flat_keys(overlay(base, updates, n)).no_duplicates(),
        flat_map(overlay(base, updates, n)) == flat_map(base).union_prefer_right(
            flat_map(updates.take(n as int)),
        ),
    decreases n,
{
    if n == 0 {
        assert(updates.take(0) =~= Seq::empty());
        assert(flat_map(base).union_prefer_right(Map::empty()) =~= flat_map(base));
    } else {
        lemma_overlay_map(base, updates, (n - 1) as nat);
        let before = overlay(base, updates, (n - 1) as nat);
        lemma_put(before, updates[n - 1].0, updates[n - 1].1);
        assert(updates.take(n as int).drop_last() =~= updates.take(n - 1));
        assert(flat_map(before).insert(updates[n - 1].0, updates[n - 1].1) =~= flat_map(
            base,
        ).union_prefer_right(flat_map(updates.take(n as int))));
    }
}

/// A flattened tree holds the keys of its text leaves and no others: each
/// key with the text of the last leaf that comes under it. Leaves that are
/// no text, and objects without members, have no key.
pub proof fn lemma_flatten_keeps_text_leaves(tree: Tree, prefix: Seq<char>)
    ensures
        flat_keys(flatten_tree(tree, prefix)).no_duplicates(),
        flat_map(flatten_tree(tree, prefix)) == flat_map(leaf_entries(tree, prefix)),
        forall|key: Seq<char>|
            flat_keys(flatten_tree(tree, prefix)).contains(key) <==> flat_keys(
                leaf_entries(tree, prefix),
            ).contains(key),
        !(tree is Text || tree is Object) ==> flatten_tree(tree, prefix).len() == 0,
{
    let leaves = leaf_entries(tree, prefix);
    lemma_flatten_is_overlay(tree, prefix, Seq::empty());
    lemma_overlay_map(Seq::empty(), leaves, leaves.len());
    assert(leaves.take(leaves.len() as int) =~= leaves);
    assert(Map::<Seq<char>, Seq<char>>::empty().union_prefer_right(flat_map(leaves)) =~= flat_map(
        leaves,
    ));
    lemma_flat_map_keys(flatten_tree(tree, prefix));
    lemma_flat_map_keys(leaves);
}

/// A merged tree is rebuilt from the keys of the old tree and of the
/// updates together: every key of the updates with the updates' text, and
/// every other key of the old tree with the text it had.
pub proof fn lemma_merge_keys(original: Tree, updates: Flat)
    ensures
        ({
            let before = flatten_tree(original, Seq::empty());
            let merged = overlay(before, updates, updates.len());
            &&& merge_tree(original, updates) == unflatten_tree(merged)
            &&& flat_keys(merged).no_duplicates()
            &&& flat_map(merged) == flat_map(before).union_prefer_right(flat_map(updates))
            &&& forall|key: Seq<char>|
                flat_map(updates).contains_key(key) ==> flat_map(merged).contains_key(key)
                    && flat_map(merged)[key] == flat_map(updates)[key]
            &&& forall|key: Seq<char>|
                flat_map(before).contains_key(key) && !flat_map(updates).contains_key(key)
                    ==> flat_map(merged).contains_key(key) && flat_map(merged)[key] == flat_map(
                    before,
                )[key]
            &&& forall|key: Seq<char>|
                flat_map(merged).contains_key(key) ==> flat_map(before).contains_key(key)
                    || flat_map(updates).contains_key(key)
        }),
{
    let before = flatten_tree(original, Seq::empty());
    lemma_flatten_keeps_text_leaves(original, Seq::empty());
    lemma_overlay_map(before, updates, updates.len());
    assert(updates.take(updates.len() as int) =~= updates);
}

/// A key without dots is its own single piece.
pub proof fn lemma_split_plain(key: Seq<char>)
    requires
        dot_free(key),
    ensures
        split_on(key, '.') == seq![key],
    decreases key.len(),
{
    if key.len() > 0 {
        assert(key.last() != '.') by {
            if key.last() == '.' {
                assert(key[key.len() - 1] == '.');
                assert(key.contains('.'));
            }
        }
        assert(dot_free(key.drop_last())) by {
            if key.drop_last().contains('.') {
                let i = choose|i: int| 0 <= i < key.drop_last().len() && key.drop_last()[i] == '.';
                assert(key[i] == '.');
            }
        }
        lemma_split_plain(key.drop_last());
        let rest = split_on(key.drop_last(), '.');
        assert(rest.len() == 1);
        assert(rest.last() == key.drop_last());
        assert(key.drop_last().push(key.last()) =~= key);
        assert(rest.update(rest.len() - 1, rest.last().push(key.last())) =~= seq![key]);
    } else {
        assert(key =~= Seq::<char>::empty());
        assert(seq![key] =~= seq![Seq::<char>::empty()]);
    }
}

/// A text followed by a key without dots has the pieces of the text, the
/// last of them longer by the key.
pub proof fn lemma_split_extend(text: Seq<char>, key: Seq<char>)
    requires
        dot_free(key),
    ensures
        split_on(text + key, '.') == split_on(text, '.').update(
            split_on(text, '.').len() - 1,
            split_on(text, '.').last() + key,
        ),
        split_on(text, '.').len() >= 1,
    decreases key.len(),
{
    crate::text::lemma_split_nonempty(text, '.');
    let pieces = split_on(text, '.');
    if key.len() == 0 {
        assert(text + key =~= text);
        assert(pieces.last() + key =~= pieces.last());
        assert(pieces.update(pieces.len() - 1, pieces.last()) =~= pieces);
    } else {
        assert(key.last() != '.') by {
            if key.last() == '.' {
                assert(key[key.len() - 1] == '.');
                assert(key.contains('.'));
            }
        }
        assert(dot_free(key.drop_last())) by {
            if key.drop_last().contains('.') {
                let i = choose|i: int| 0 <= i < key.drop_last().len() && key.drop_last()[i] == '.';
                assert(key[i] == '.');
            }
        }
        lemma_split_extend(text, key.drop_last());
        assert((text + key).drop_last() =~= text + key.drop_last());
        assert((text + key).last() == key.last());
        let shorter = split_on(text + key.drop_last(), '.');
        assert((pieces.last() + key.drop_last()).push(key.last()) =~= pieces.last() + key);
        assert(shorter.update(shorter.len() - 1, shorter.last().push(key.last())) =~= pieces.update(
            pieces.len() - 1,
            pieces.last() + key,
        ));
    }
}

/// The key of a member below a prefix that is not empty has the pieces of
/// the prefix and then the member's key.
pub proof fn lemma_split_child(prefix: Seq<char>, key: Seq<char>)
    requires
        dot_free(key),
        prefix.len() > 0,
    ensures
        split_on(child_key(prefix, key), '.') == split_on(prefix, '.').push(key),
{
    let dotted = prefix + seq!['.'];
    assert(dotted.drop_last() =~= prefix);
    assert(dotted.last() == '.');
    assert(split_on(dotted, '.') == split_on(prefix, '.').push(Seq::<char>::empty()));
    lemma_split_extend(dotted, key);
    assert(Seq::<char>::empty() + key =~= key);
    assert(split_on(prefix, '.').push(Seq::<char>::empty()).update(
        split_on(prefix, '.').len() as int,
        key,
    ) =~= split_on(prefix, '.').push(key));
    assert(child_key(prefix, key) =~= dotted + key);
}

/// The paths of entries that follow one another are the paths of the one
/// and then those of the other.
pub proof fn lemma_paths_concat(a: Flat, b: Flat)
    ensures
        paths_of(a + b) == paths_of(a) + paths_of(b),
{
    assert(paths_of(a + b) =~= paths_of(a) + paths_of(b));
}

/// Below a prefix that is not empty, the keys of the text leaves split into
/// the pieces of the prefix and the leaves' paths.
pub proof fn lemma_leaf_entry_paths(tree: Tree, prefix: Seq<char>)
    requires
        clear(tree),
        prefix.len() > 0,
    ensures
        paths_of(leaf_entries(tree, prefix)) == prefixed(split_on(prefix, '.'), leaf_paths(tree)),
    decreases tree, member_count(tree) + 1,
{
    let parts = split_on(prefix, '.');
    match tree {
        Tree::Text(s) => {
            assert(parts + Seq::<Seq<char>>::empty() =~= parts);
            assert(paths_of(leaf_entries(tree, prefix)) =~= prefixed(parts, leaf_paths(tree)));
        },
        Tree::Object(members) => {
            lemma_member_entry_paths(tree, prefix, members.len());
        },
        _ => {
            assert(paths_of(leaf_entries(tree, prefix)) =~= prefixed(parts, leaf_paths(tree)));
        },
    }
}

/// The same of the first `n` members of an object.
pub proof fn lemma_member_entry_paths(tree: Tree, prefix: Seq<char>, n: nat)
    requires
        tree is Object,
        clear(tree),
        prefix.len() > 0,
        n <= member_count(tree),
    ensures
        paths_of(member_entries(tree, prefix, n)) == prefixed(
            split_on(prefix, '.'),
            member_paths(tree, n),
        ),
    decreases tree, n,
{
    let parts = split_on(prefix, '.');
    if n == 0 {
        assert(paths_of(member_entries(tree, prefix, n)) =~= prefixed(parts, member_paths(tree, n)));
    } else {
        let member = tree.members()[n - 1];
        let below = child_key(prefix, member.0);
        lemma_member_entry_paths(tree, prefix, (n - 1) as nat);
        lemma_split_child(prefix, member.0);
        lemma_leaf_entry_paths(member.1, below);
        lemma_paths_concat(member_entries(tree, prefix, (n - 1) as nat), leaf_entries(member.1, below));
        let inner = leaf_paths(member.1);
        assert(prefixed(parts.push(member.0), inner) =~= prefixed(
            parts,
            prefixed(seq![member.0], inner),
        )) by {
            assert forall|i: int| 0 <= i < inner.len() implies parts.push(member.0) + inner[i].0
                == parts + (seq![member.0] + inner[i].0) by {
                assert(parts.push(member.0) + inner[i].0 =~= parts + (seq![member.0] + inner[i].0));
            }
        }
        assert(prefixed(parts, member_paths(tree, (n - 1) as nat) + prefixed(seq![member.0], inner))
            =~= prefixed(parts, member_paths(tree, (n - 1) as nat)) + prefixed(
            parts,
            prefixed(seq![member.0], inner),
        ));
    }
}

/// At the root, the keys of the text leaves split into the leaves' paths.
pub proof fn lemma_root_entry_paths(tree: Tree, n: nat)
    requires
        tree is Object,
        clear(tree),
        rooted(tree),
        n <= member_count(tree),
    ensures
        paths_of(member_entries(tree, Seq::empty(), n)) == member_paths(tree, n),
    decreases n,
{
    let root = Seq::<char>::empty();
    if n == 0 {
        assert(paths_of(member_entries(tree, root, n)) =~= member_paths(tree, n));
    } else {
        let member = tree.members()[n - 1];
        lemma_root_entry_paths(tree, (n - 1) as nat);
        lemma_paths_concat(member_entries(tree, root, (n - 1) as nat), leaf_entries(member.1, member.0));
        assert(child_key(root, member.0) == member.0);
        lemma_split_plain(member.0);
        if member.0.len() == 0 {
            assert(seq![member.0] + Seq::<Seq<char>>::empty() =~= seq![member.0]);
            assert(paths_of(leaf_entries(member.1, member.0)) =~= prefixed(
                seq![member.0],
                leaf_paths(member.1),
            ));
        } else {
            lemma_leaf_entry_paths(member.1, member.0);
        }
    }
}

/// The paths of the entries differ from one another.
pub open spec fn distinct_paths(entries: PathEntries) -> bool {
    forall|i: int, j: int|
        0 <= i < entries.len() && 0 <= j < entries.len() && i != j ==> (#[trigger] entries[i]).0 != (
        #[trigger] entries[j]).0
}

/// A text or an object with members, all the way down, has a text leaf.
pub proof fn lemma_solid_has_leaf(tree: Tree)
    requires
        solid(tree),
    ensures
        leaf_paths(tree).len() >= 1,
    decreases tree,
{
    match tree {
        Tree::Object(members) => {
            let n = members.len();
            lemma_solid_has_leaf(members[n - 1].1);
            assert(member_paths(tree, n) == member_paths(tree, (n - 1) as nat) + prefixed(
                seq![members[n - 1].0],
                leaf_paths(members[n - 1].1),
            ));
        },
        _ => {},
    }
}

/// A tree of texts and objects with members, in which no key occurs twice
/// or holds a dot, has clear keys.
pub proof fn lemma_solid_clear(tree: Tree)
    requires
        solid(tree) || sound_members(tree),
    ensures
        clear(tree),
    decreases tree,
{
    match tree {
        Tree::Object(members) => {
            assert forall|i: int| 0 <= i < members.len() implies dot_free(
                (#[trigger] members[i]).0,
            ) && clear(members[i].1) by {
                assert(tree.members()[i] == members[i]);
                lemma_solid_clear(members[i].1);
            }
        },
        _ => {},
    }
}

/// No two text leaves of a tree with clear keys have one path.
pub proof fn lemma_leaf_paths_distinct(tree: Tree)
    requires
        clear(tree),
    ensures
        distinct_paths(leaf_paths(tree)),
    decreases tree, member_count(tree) + 1,
{
    match tree {
        Tree::Text(s) => {},
        Tree::Object(members) => {
            lemma_member_paths_distinct(tree, members.len());
        },
        _ => {},
    }
}

/// The leaves below the first `n` members of an object with clear keys:
/// each path begins with the key of one of those members, and no two leaves
/// have one path.
pub proof fn lemma_member_paths_distinct(tree: Tree, n: nat)
    requires
        tree is Object,
        clear(tree),
        n <= member_count(tree),
    ensures
        distinct_paths(member_paths(tree, n)),
        forall|i: int|
            0 <= i < member_paths(tree, n).len() ==> (#[trigger] member_paths(tree, n)[i]).0.len()
                >= 1 && member_keys(tree.members()).take(n as int).contains(
                member_paths(tree, n)[i].0[0],
            ),
    decreases tree, n,
{
    if n > 0 {
        let member = tree.members()[n - 1];
        let keys = member_keys(tree.members());
        let before = member_paths(tree, (n - 1) as nat);
        let inner = leaf_paths(member.1);
        let here = prefixed(seq![member.0], inner);
        let all = member_paths(tree, n);
        lemma_member_paths_distinct(tree, (n - 1) as nat);
        lemma_leaf_paths_distinct(member.1);
        assert(all == before + here);
        assert forall|i: int| 0 <= i < all.len() implies (#[trigger] all[i]).0.len() >= 1
            && keys.take(n as int).contains(all[i].0[0]) by {
            if i < before.len() {
                assert(all[i] == before[i]);
                let first = before[i].0[0];
                let earlier = keys.take(n - 1);
                let j = earlier.index_of(first);
                assert(earlier[j] == first);
                assert(keys.take(n as int)[j] == first);
            } else {
                assert(all[i] == here[i - before.len()]);
                assert(all[i].0[0] == member.0);
                assert(keys.take(n as int)[n - 1] == member.0);
            }
        }
        assert forall|i: int, j: int|
            0 <= i < all.len() && 0 <= j < all.len() && i != j implies (#[trigger] all[i]).0 != (
            #[trigger] all[j]).0 by {
            if i < before.len() && j < before.len() {
                assert(all[i] == before[i] && all[j] == before[j]);
            } else if i >= before.len() && j >= before.len() {
                let a = i - before.len();
                let b = j - before.len();
                assert(all[i] == here[a] && all[j] == here[b]);
                assert(inner[a].0 != inner[b].0);
                assert(here[a].0.skip(1) =~= inner[a].0);
                assert(here[b].0.skip(1) =~= inner[b].0);
            } else {
                let (old_one, new_one) = if i < before.len() {
                    (i, j)
                } else {
                    (j, i)
                };
                assert(all[old_one] == before[old_one]);
                assert(all[new_one] == here[new_one - before.len()]);
                let first = before[old_one].0[0];
                let earlier = keys.take(n - 1);
                let at = earlier.index_of(first);
                assert(earlier[at] == first);
                assert(keys[at] == first);
                assert(keys[n - 1] == member.0);
                assert(all[new_one].0[0] == member.0);
            }
        }
    }
}

/// Paths that differ still differ with one start put before them all.
pub proof fn lemma_prefixed_distinct(parts: Seq<Seq<char>>, entries: PathEntries)
    requires
        distinct_paths(entries),
    ensures
        distinct_paths(prefixed(parts, entries)),
{
    let longer = prefixed(parts, entries);
    assert forall|i: int, j: int|
        0 <= i < longer.len() && 0 <= j < longer.len() && i != j implies (#[trigger] longer[i]).0
        != (#[trigger] longer[j]).0 by {
        assert(longer[i].0.skip(parts.len() as int) =~= entries[i].0);
        assert(longer[j].0.skip(parts.len() as int) =~= entries[j].0);
        assert(entries[i].0 != entries[j].0);
    }
}

/// A tree has as many leaf entries, and as many leaf paths, as it has text
/// leaves.
pub proof fn lemma_leaf_count(tree: Tree, prefix: Seq<char>)
    ensures
        leaf_entries(tree, prefix).len() == text_leaf_count(tree),
        leaf_paths(tree).len() == text_leaf_count(tree),
    decreases tree, member_count(tree) + 1,
{
    match tree {
        Tree::Object(members) => {
            lemma_member_leaf_count(tree, prefix, members.len());
        },
        _ => {},
    }
}

/// The same of the first `n` members of an object.
pub proof fn lemma_member_leaf_count(tree: Tree, prefix: Seq<char>, n: nat)
    requires
        n <= member_count(tree),
    ensures
        member_entries(tree, prefix, n).len() == member_leaf_count(tree, n),
        member_paths(tree, n).len() == member_leaf_count(tree, n),
    decreases tree, n,
{
    if n > 0 {
        let member = tree.members()[n - 1];
        lemma_member_leaf_count(tree, prefix, (n - 1) as nat);
        lemma_leaf_count(member.1, child_key(prefix, member.0));
    }
}

/// Entries whose paths differ have keys that differ.
pub proof fn lemma_distinct_keys(entries: Flat)
    requires
        distinct_paths(paths_of(entries)),
    ensures
        flat_keys(entries).no_duplicates(),
{
    assert forall|i: int, j: int|
        0 <= i < entries.len() && 0 <= j < entries.len() && i != j implies flat_keys(entries)[i]
        != flat_keys(entries)[j] by {
        assert(paths_of(entries)[i].0 != paths_of(entries)[j].0);
    }
}

/// Rebuilding takes the entries by their paths, one after the other.
pub proof fn lemma_unflatten_is_build(entries: Flat, n: nat)
    requires
        n <= entries.len(),
    ensures
        unflatten_members(entries, n) == build(Seq::empty(), paths_of(entries), n),
    decreases n,
{
    if n > 0 {
        lemma_unflatten_is_build(entries, (n - 1) as nat);
    }
}

/// Building from the first `n` entries looks at those entries alone.
pub proof fn lemma_build_prefix(
    members: Seq<(Seq<char>, Tree)>,
    x: PathEntries,
    y: PathEntries,
    n: nat,
)
    requires
        n <= x.len(),
        n <= y.len(),
        x.take(n as int) == y.take(n as int),
    ensures
        build(members, x, n) == build(members, y, n),
    decreases n,
{
    if n > 0 {
        assert(x.take(n - 1) =~= x.take(n as int).take(n - 1));
        assert(y.take(n - 1) =~= y.take(n as int).take(n - 1));
        lemma_build_prefix(members, x, y, (n - 1) as nat);
        assert(x[n - 1] == x.take(n as int)[n - 1]);
        assert(y[n - 1] == y.take(n as int)[n - 1]);
    }
}

/// Building from two runs of entries, one after the other, is building
/// from their concatenation.
pub proof fn lemma_build_concat(
    members: Seq<(Seq<char>, Tree)>,
    a: PathEntries,
    b: PathEntries,
    n: nat,
)
    requires
        n <= b.len(),
    ensures
        build(members, a + b, a.len() + n) == build(build(members, a, a.len()), b, n),
    decreases n,
{
    if n == 0 {
        assert((a + b).take(a.len() as int) =~= a.take(a.len() as int));
        lemma_build_prefix(members, a + b, a, a.len());
    } else {
        lemma_build_concat(members, a, b, (n - 1) as nat);
        assert((a + b)[a.len() + n - 1] == b[n - 1]);
    }
}

/// Entries that all lead through one new key build one new member: the
/// object built from what is left of their paths.
pub proof fn lemma_build_below(
    members: Seq<(Seq<char>, Tree)>,
    key: Seq<char>,
    entries: PathEntries,
    n: nat,
)
    requires
        !member_keys(members).contains(key),
        1 <= n <= entries.len(),
        forall|i: int| 0 <= i < entries.len() ==> (#[trigger] entries[i]).0.len() >= 1,
    ensures
        build(members, prefixed(seq![key], entries), n) == members.push(
            (key, Tree::Object(build(Seq::empty(), entries, n))),
        ),
    decreases n,
{
    let below = prefixed(seq![key], entries);
    let path = below[n - 1].0;
    let rest = entries[n - 1].0;
    let value = entries[n - 1].1;
    assert(path == seq![key] + rest);
    assert(path.skip(1) =~= rest);
    assert(path[0] == key);
    if n == 1 {
        assert(build(members, below, 0) == members);
        assert(build(Seq::empty(), entries, 0) == Seq::<(Seq<char>, Tree)>::empty());
    } else {
        lemma_build_below(members, key, entries, (n - 1) as nat);
        let inner = build(Seq::empty(), entries, (n - 1) as nat);
        let so_far = members.push((key, Tree::Object(inner)));
        let keys = member_keys(so_far);
        assert(keys =~= member_keys(members).push(key));
        assert(keys[members.len() as int] == key);
        assert(keys.contains(key));
        let at = keys.index_of(key);
        assert(at == members.len()) by {
            if at < members.len() {
                assert(member_keys(members)[at] == key);
                assert(member_keys(members).contains(key));
            }
        }
        assert(so_far.update(at, (key, Tree::Object(insert_path(inner, rest, value))))
            =~= members.push((key, Tree::Object(insert_path(inner, rest, value)))));
    }
}

/// The leaves below the first `n` members of a sound object build those
/// members again.
pub proof fn lemma_build_members(tree: Tree, n: nat)
    requires
        sound_members(tree),
        n <= member_count(tree),
    ensures
        build(Seq::empty(), member_paths(tree, n), member_paths(tree, n).len())
            == tree.members().take(n as int),
    decreases tree, n,
{
    let members = tree.members();
    if n == 0 {
        assert(members.take(0) =~= Seq::empty());
    } else {
        let member = members[n - 1];
        let before = member_paths(tree, (n - 1) as nat);
        let inner = leaf_paths(member.1);
        let here = prefixed(seq![member.0], inner);
        let done = members.take(n - 1);
        lemma_build_members(tree, (n - 1) as nat);
        lemma_build_concat(Seq::empty(), before, here, here.len());
        let keys = member_keys(members);
        assert(!member_keys(done).contains(member.0)) by {
            if member_keys(done).contains(member.0) {
                let j = member_keys(done).index_of(member.0);
                assert(member_keys(done)[j] == member.0);
                assert(keys[j] == member.0);
                assert(keys[n - 1] == member.0);
            }
        }
        match member.1 {
            Tree::Text(s) => {
                assert(here.len() == 1);
                assert(here[0].0 =~= seq![member.0]);
                assert(build(done, here, 0) == done);
                assert(build(done, here, 1) == insert_path(done, here[0].0, here[0].1));
                assert(done.push((member.0, Tree::Text(s))) =~= members.take(n as int));
            },
            Tree::Object(below) => {
                lemma_solid_clear(member.1);
                lemma_solid_has_leaf(member.1);
                lemma_member_paths_distinct(member.1, below.len());
                lemma_build_below(done, member.0, inner, inner.len());
                lemma_build_members(member.1, below.len());
                assert(below.take(below.len() as int) =~= below);
                assert(done.push((member.0, Tree::Object(below))) =~= members.take(n as int));
            },
            _ => {},
        }
    }
}

/// Flattening a tree with clear keys drops nothing but what is no text: the
/// result holds one entry for each text leaf, in depth-first order, under a
/// key of its own whose pieces are the keys on the way to the leaf. So it has
/// as many entries as the tree has text leaves; numbers, booleans, arrays,
/// nulls and objects without members have none. At the root a member with
/// the empty key must be no object, as its members would lose that key.
pub proof fn lemma_flatten_exact(tree: Tree)
    requires
        clear(tree),
        rooted(tree),
    ensures
        flatten_tree(tree, Seq::empty()) == leaf_entries(tree, Seq::empty()),
        flat_keys(flatten_tree(tree, Seq::empty())).no_duplicates(),
        flatten_tree(tree, Seq::empty()).len() == text_leaf_count(tree),
        tree is Object ==> paths_of(flatten_tree(tree, Seq::empty())) == leaf_paths(tree),
{
    let root = Seq::<char>::empty();
    let leaves = leaf_entries(tree, root);
    lemma_flatten_is_overlay(tree, root, Seq::empty());
    lemma_leaf_count(tree, root);
    match tree {
        Tree::Object(members) => {
            lemma_root_entry_paths(tree, members.len());
            lemma_member_paths_distinct(tree, members.len());
            lemma_distinct_keys(leaves);
        },
        Tree::Text(s) => {
            assert(flat_keys(leaves) =~= seq![root]);
        },
        _ => {
            assert(flat_keys(leaves) =~= Seq::<Seq<char>>::empty());
        },
    }
    lemma_overlay_fresh(leaves, leaves.len());
    assert(leaves.take(leaves.len() as int) =~= leaves);
}

/// The same below a prefix that is not empty: the pieces of each key are
/// those of the prefix and then the keys on the way to the leaf.
pub proof fn lemma_flatten_exact_below(tree: Tree, prefix: Seq<char>)
    requires
        clear(tree),
        prefix.len() > 0,
    ensures
        flatten_tree(tree, prefix) == leaf_entries(tree, prefix),
        flat_keys(flatten_tree(tree, prefix)).no_duplicates(),
        flatten_tree(tree, prefix).len() == text_leaf_count(tree),
        paths_of(flatten_tree(tree, prefix)) == prefixed(split_on(prefix, '.'), leaf_paths(tree)),
{
    let leaves = leaf_entries(tree, prefix);
    lemma_flatten_is_overlay(tree, prefix, Seq::empty());
    lemma_leaf_count(tree, prefix);
    lemma_leaf_entry_paths(tree, prefix);
    lemma_leaf_paths_distinct(tree);
    lemma_prefixed_distinct(split_on(prefix, '.'), leaf_paths(tree));
    lemma_distinct_keys(leaves);
    lemma_overlay_fresh(leaves, leaves.len());
    assert(leaves.take(leaves.len() as int) =~= leaves);
}

/// Flattening a tree and rebuilding it gives the tree again, for every tree
/// that is an object with texts and objects alone below it, in which no key
/// occurs twice or holds a dot, no object below the root is without members,
/// and no member of the root with the empty key is an object.
pub proof fn lemma_round_trip(tree: Tree)
    requires
        round_trips(tree),
    ensures
        unflatten_tree(flatten_tree(tree, Seq::empty())) == tree,
{
    let root = Seq::<char>::empty();
    let count = member_count(tree);
    let leaves = member_entries(tree, root, count);
    let flat = flatten_tree(tree, root);
    lemma_solid_clear(tree);
    lemma_flatten_exact(tree);
    assert(flat == leaves);
    lemma_unflatten_is_build(flat, flat.len());
    lemma_build_members(tree, count);
    assert(tree.members().take(count as int) =~= tree.members());
}

} // verus!
